use vstd::prelude::*;
use crate::model::memory::Win32MemRes;

verus! {

/// A source of process-memory figures read over a WMI connection.
pub trait WmiConnService {
    fn get_process_mem_usage(&self) -> Result<Win32MemRes, String>;
}

} // verus!
