//! A BitTorrent client library: the peer wire handshake, torrent metainfo,
//! tracker requests and responses, and a bencode-to-JSON view.

pub mod bencode;
pub mod client;
pub mod json;
pub mod text;
pub mod torrent_file;
pub mod tracker;
