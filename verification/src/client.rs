pub mod handshake;
pub mod peer_id;

use vstd::prelude::*;
use vstd::utf8::{encode_utf8, is_char_boundary};
use crate::client::peer_id::{is_ascii_alphanumeric, peer_id_prefix, PeerId, VERSION};

verus! {

/// This client as peers and trackers see it.
#[derive(Debug, Clone)]
pub struct Client {
    pub peer_id: String,
    pub port: u16,
}

impl Client {
    /// A client whose peer id is the first twenty bytes of `peer_id`; byte 20
    /// must start a character (or end the text).
    pub fn new(peer_id: &str, port: u16) -> (c: Self)
        requires
            is_char_boundary(encode_utf8(peer_id@), 20),
        ensures
            encode_utf8(c.peer_id@) == encode_utf8(peer_id@).subrange(0, 20),
            c.port == port,
    {
        let (head, _) = peer_id.split_at(20);
        Client { peer_id: head.to_owned(), port }
    }
}

impl Default for Client {
    /// A client on port 6881 with a fresh peer id.
    fn default() -> (c: Self)
        ensures
            c.port == 6881,
            c.peer_id@.len() == 20,
            c.peer_id@.take(peer_id_prefix(VERSION@).len() as int) == peer_id_prefix(VERSION@),
            forall|i: int|
                peer_id_prefix(VERSION@).len() <= i < 20 ==> is_ascii_alphanumeric(
                    #[trigger] c.peer_id@[i],
                ),
    {
        broadcast use vstd::utf8::group_utf8_lib;

        let id = PeerId::default();
        let s = id.as_str();
        proof {
            vstd::utf8::is_ascii_chars_encode_utf8(s@);
            vstd::utf8::is_char_boundary_start_end_of_seq(encode_utf8(s@));
        }
        let c = Client::new(s, 6881);
        proof {
            vstd::utf8::encode_utf8_decode_utf8(c.peer_id@);
            vstd::utf8::encode_utf8_decode_utf8(s@);
            assert(encode_utf8(s@).subrange(0, 20) == encode_utf8(s@));
        }
        c
    }
}

} // verus!
