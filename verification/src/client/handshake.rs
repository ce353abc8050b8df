use vstd::prelude::*;
use vstd::slice::slice_to_vec;
use vstd::utf8::encode_utf8;
use crate::client::Client;
use crate::torrent_file::TorrentFile;
use crate::torrent_file::info::{info_bencode, sha1_digest};

verus! {

/// Size in bytes of a handshake message whose info hash and peer id are 20 bytes each.
pub const HANDSHAKE_SIZE: usize = 68;

/// The protocol string `BitTorrent protocol`, byte by byte.
pub const PROTOCOL_ID: [u8; 19] = [
    66, 105, 116, 84, 111, 114, 114, 101, 110, 116, 32, 112, 114, 111, 116, 111, 99, 111, 108,
];

/// The 28 bytes that open every handshake: the protocol string's length,
/// the protocol string, and eight reserved zero bytes.
pub open spec fn handshake_header() -> Seq<u8> {
    seq![19u8] + PROTOCOL_ID@ + Seq::new(8, |i: int| 0u8)
}

/// The wire form of a handshake with the given info hash and peer id.
pub open spec fn handshake_bytes(info_hash: Seq<u8>, peer_id: Seq<u8>) -> Seq<u8> {
    handshake_header() + info_hash + peer_id
}

/// The opening message of the peer wire protocol.
#[derive(Debug, Clone)]
pub struct Handshake {
    pub info_hash: Vec<u8>,
    pub peer_id: Vec<u8>,
}

impl Handshake {
    pub fn new(info_hash: Vec<u8>, peer_id: Vec<u8>) -> (h: Self)
        ensures
            h.info_hash@ == info_hash@,
            h.peer_id@ == peer_id@,
    {
        Handshake { info_hash, peer_id }
    }

    /// The handshake this client sends for a torrent: the torrent's info hash
    /// and the client's peer id as bytes.
    pub fn for_client_and_torrent(client: &Client, torrent: &TorrentFile) -> (h: Self)
        ensures
            h.info_hash@ == sha1_digest(info_bencode(torrent.info)),
            h.peer_id@ == encode_utf8(client.peer_id@),
    {
        Handshake {
            info_hash: torrent.info.hash(),
            peer_id: slice_to_vec(client.peer_id.as_str().as_bytes()),
        }
    }

    /// Serialises the handshake: length-prefixed protocol string, eight zero
    /// bytes, the info hash and the peer id.
    pub fn to_bytes(self) -> (msg: Vec<u8>)
        ensures
            msg@ == handshake_bytes(self.info_hash@, self.peer_id@),
    {
        let mut msg: Vec<u8> = Vec::with_capacity(HANDSHAKE_SIZE);
        msg.push(19u8);
        let mut i: usize = 0;
        while i < 19
            invariant
                0 <= i <= 19,
                msg@ == seq![19u8] + PROTOCOL_ID@.take(i as int),
            decreases 19 - i,
        {
            msg.push(PROTOCOL_ID[i]);
            i = i + 1;
            assert(PROTOCOL_ID@.take(i as int) == PROTOCOL_ID@.take(i - 1) + seq![PROTOCOL_ID@[i - 1]]);
        }
        assert(PROTOCOL_ID@.take(19) == PROTOCOL_ID@);
        let mut j: usize = 0;
        while j < 8
            invariant
                0 <= j <= 8,
                msg@ == seq![19u8] + PROTOCOL_ID@ + Seq::new(j as nat, |k: int| 0u8),
            decreases 8 - j,
        {
            msg.push(0u8);
            j = j + 1;
        }
        msg.extend_from_slice(self.info_hash.as_slice());
        msg.extend_from_slice(self.peer_id.as_slice());
        msg
    }

    /// Reads a handshake from a message of at least 68 bytes: the info hash is
    /// bytes 28..48 and the peer id bytes 48..68.
    pub fn from_bytes(bytes: &[u8]) -> (h: Self)
        requires
            bytes@.len() >= HANDSHAKE_SIZE,
        ensures
            h.info_hash@ == bytes@.subrange(28, 48),
            h.peer_id@ == bytes@.subrange(48, 68),
    {
        let info_hash = slice_to_vec(&bytes[28..48]);
        let peer_id = slice_to_vec(&bytes[48..68]);
        Handshake { info_hash, peer_id }
    }
}

/// A handshake with a twenty-byte info hash and peer id is `HANDSHAKE_SIZE`
/// bytes long on the wire, and reading it back gives the same info hash and
/// peer id.
pub proof fn lemma_handshake_roundtrip(info_hash: Seq<u8>, peer_id: Seq<u8>)
    requires
        info_hash.len() == 20,
        peer_id.len() == 20,
    ensures
        handshake_bytes(info_hash, peer_id).len() == HANDSHAKE_SIZE,
        handshake_bytes(info_hash, peer_id).subrange(28, 48) == info_hash,
        handshake_bytes(info_hash, peer_id).subrange(48, 68) == peer_id,
{
    let m = handshake_bytes(info_hash, peer_id);
    assert(handshake_header().len() == 28);
    assert(m.subrange(28, 48) =~= info_hash);
    assert(m.subrange(48, 68) =~= peer_id);
}

/// Every handshake opens with the byte 19, the 19 ASCII bytes of
/// `BitTorrent protocol`, and eight zero bytes; the info hash follows from
/// byte 28 on.
pub proof fn lemma_handshake_header(info_hash: Seq<u8>, peer_id: Seq<u8>)
    ensures
        handshake_bytes(info_hash, peer_id).take(28) == seq![
            19u8, 66u8, 105u8, 116u8, 84u8, 111u8, 114u8, 114u8, 101u8, 110u8, 116u8, 32u8,
            112u8, 114u8, 111u8, 116u8, 111u8, 99u8, 111u8, 108u8, 0u8, 0u8, 0u8, 0u8, 0u8, 0u8,
            0u8, 0u8,
        ],
        handshake_bytes(info_hash, peer_id).skip(28) == info_hash + peer_id,
{
    let m = handshake_bytes(info_hash, peer_id);
    assert(m.take(28) =~= seq![
        19u8, 66u8, 105u8, 116u8, 84u8, 111u8, 114u8, 114u8, 101u8, 110u8, 116u8, 32u8, 112u8,
        114u8, 111u8, 116u8, 111u8, 99u8, 111u8, 108u8, 0u8, 0u8, 0u8, 0u8, 0u8, 0u8, 0u8, 0u8,
    ]);
    assert(m.skip(28) =~= info_hash + peer_id);
}

/// A `HANDSHAKE_SIZE`-byte message that opens with the handshake header is
/// rebuilt exactly from the info hash and peer id read out of it.
pub proof fn lemma_message_roundtrip(bytes: Seq<u8>)
    requires
        bytes.len() == HANDSHAKE_SIZE,
        bytes.take(28) == handshake_header(),
    ensures
        handshake_bytes(bytes.subrange(28, 48), bytes.subrange(48, 68)) == bytes,
{
    assert(handshake_bytes(bytes.subrange(28, 48), bytes.subrange(48, 68)) =~= bytes);
}

} // verus!
