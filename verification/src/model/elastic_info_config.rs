use vstd::prelude::*;

verus! {

/// The cluster part of the configuration: the node addresses, optional
/// credentials, and the index-name prefix.
#[derive(Debug, Clone)]
pub struct ElasticInfoConfig {
    pub hosts: Vec<String>,
    pub es_id: Option<String>,
    pub es_pw: Option<String>,
    pub index_pattern: String,
}

} // verus!
