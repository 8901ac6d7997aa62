use vstd::prelude::*;

verus! {

/// The older shape of the cluster configuration, kept for stores that still
/// hold it: addresses and credentials without an index-name prefix.
#[derive(Debug, Clone)]
pub struct ClusterJson {
    pub hosts: Vec<String>,
    pub es_id: String,
    pub es_pw: String,
}

} // verus!
