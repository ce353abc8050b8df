pub mod info;
pub mod keys;
pub mod pieces;

use vstd::prelude::*;
use crate::torrent_file::info::Info;

verus! {

/// A torrent's metainfo: where its tracker is and what it describes.
#[derive(Debug, Clone)]
pub struct TorrentFile {
    /// The tracker's URL, in the normalised form that URL parsing gives it.
    pub announce: String,
    pub info: Info,
}

} // verus!
