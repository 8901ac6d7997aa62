use vstd::prelude::*;

verus! {

/// Aggregate resident and virtual memory of the matched processes.
#[derive(Debug, Clone, Copy, PartialEq, Eq, Structural)]
pub struct OsMemRes {
    pub working_set_size: u64,
    pub virtual_size: u64,
}

impl OsMemRes {
    pub fn new(working_set_size: u64, virtual_size: u64) -> (r: Self)
        ensures
            r == (OsMemRes { working_set_size, virtual_size }),
    {
        OsMemRes { working_set_size, virtual_size }
    }
}

/// The same figures as a dedicated result of the WMI process query.
#[derive(Debug, Clone, Copy, PartialEq, Eq, Structural)]
pub struct Win32MemRes {
    pub working_set_size: u64,
    pub virtual_size: u64,
}

impl Win32MemRes {
    pub fn new(working_set_size: u64, virtual_size: u64) -> (r: Self)
        ensures
            r == (Win32MemRes { working_set_size, virtual_size }),
    {
        Win32MemRes { working_set_size, virtual_size }
    }
}

/// One process row of the WMI process query.
#[derive(Debug, Clone)]
pub struct Win32Process {
    pub name: String,
    pub process_id: u32,
    pub working_set_size: u64,
    pub virtual_size: u64,
}

/// One process as the process enumeration reports it: its name and its
/// resident and virtual memory.
#[derive(Debug, Clone)]
pub struct ProcessSample {
    pub name: String,
    pub memory: u64,
    pub virtual_memory: u64,
}

} // verus!
