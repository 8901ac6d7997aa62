use vstd::prelude::*;
use crate::model::memory::OsMemRes;

verus! {

/// A source of aggregate process-memory figures; each operating system's
/// collector implements it over its own process enumeration.
pub trait MemoryService {
    fn get_process_mem_usage(&self) -> Result<OsMemRes, String>;
}

} // verus!
