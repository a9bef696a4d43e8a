use vstd::prelude::*;

verus! {

/// Cluster configuration: the coordinator endpoint a worker reports to and
/// the shared secret that authenticates every request. Both values are
/// supplied out of band before a node starts.
#[derive(Clone)]
pub struct Config {
    pub endpoint: String,
    pub token: String,
}

} // verus!
