use vstd::prelude::*;

verus! {

/// The interface names whose byte and packet counters are tracked.
#[derive(Debug, Clone)]
pub struct LinuxConfig {
    pub network_tx_rx_list: Vec<String>,
}

} // verus!
