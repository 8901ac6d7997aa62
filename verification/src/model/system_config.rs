use vstd::prelude::*;

verus! {

/// The host part of the configuration: the address reported as this host's
/// identity when it cannot be discovered.
#[derive(Debug, Clone)]
pub struct SystemConfig {
    pub os_server_ip: String,
}

} // verus!
