use vstd::prelude::*;
use crate::tracker::peer::Peers;

verus! {

/// A tracker's answer to an announce.
#[derive(Debug, Clone)]
pub struct Info {
    pub interval: u64,
    pub min_interval: u64,
    pub peers: Peers,
    pub complete: u64,
    pub incomplete: u64,
}

} // verus!
