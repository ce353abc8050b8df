use vstd::prelude::*;

verus! {

/// How much of a torrent this client has transferred, as reported to the tracker.
#[derive(Debug, Clone, Copy, PartialEq, Eq)]
pub struct Progress {
    pub downloaded: u64,
    pub uploaded: u64,
    pub left: u64,
}

impl Progress {
    pub fn new(downloaded: u64, uploaded: u64, left: u64) -> (p: Self)
        ensures
            p.downloaded == downloaded,
            p.uploaded == uploaded,
            p.left == left,
    {
        Progress { downloaded, uploaded, left }
    }

    /// The progress of a download that has not begun: nothing transferred,
    /// `left` bytes to go.
    pub fn not_started(left: u64) -> (p: Self)
        ensures
            p.downloaded == 0,
            p.uploaded == 0,
            p.left == left,
    {
        Progress { downloaded: 0, uploaded: 0, left }
    }
}

} // verus!
