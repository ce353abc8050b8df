use bittorrent::client::handshake::{Handshake, HANDSHAKE_SIZE, PROTOCOL_ID};
use bittorrent::client::Client;
use bittorrent::torrent_file::info::Info;
use bittorrent::torrent_file::keys::Keys;
use bittorrent::torrent_file::pieces::Pieces;
use bittorrent::torrent_file::TorrentFile;

fn sample_handshake() -> Handshake {
    Handshake::new((0u8..20).collect(), (100u8..120).collect())
}

#[test]
fn handshake_to_bytes_layout() {
    let bytes = sample_handshake().to_bytes();
    assert_eq!(bytes.len(), HANDSHAKE_SIZE);
    assert_eq!(bytes[0], 19);
    assert_eq!(&bytes[1..20], b"BitTorrent protocol");
    assert_eq!(&bytes[1..20], &PROTOCOL_ID[..]);
    assert_eq!(&bytes[20..28], &[0u8; 8]);
    assert_eq!(bytes[28..48].to_vec(), (0u8..20).collect::<Vec<u8>>());
    assert_eq!(bytes[48..68].to_vec(), (100u8..120).collect::<Vec<u8>>());
}

#[test]
fn handshake_roundtrip_through_bytes() {
    let bytes = sample_handshake().to_bytes();
    let back = Handshake::from_bytes(&bytes);
    assert_eq!(back.info_hash, (0u8..20).collect::<Vec<u8>>());
    assert_eq!(back.peer_id, (100u8..120).collect::<Vec<u8>>());
    assert_eq!(back.to_bytes(), bytes);
}

#[test]
fn handshake_from_longer_message_reads_first_68_bytes() {
    let mut bytes = sample_handshake().to_bytes();
    bytes.extend_from_slice(&[9, 9, 9]);
    let h = Handshake::from_bytes(&bytes);
    assert_eq!(h.peer_id, (100u8..120).collect::<Vec<u8>>());
}

#[test]
fn handshake_for_client_and_torrent_uses_info_hash_and_peer_id() {
    let info = Info {
        name: "a".to_string(),
        keys: Keys::SingleFile { length: 5 },
        piece_length: 16,
        pieces: Pieces(vec![[0u8; 20]]),
    };
    let torrent = TorrentFile {
        announce: "http://tracker.example/announce".to_string(),
        info,
    };
    let client = Client::new("-TH010-ABCDEFGHIJKLM", 6881);
    let h = Handshake::for_client_and_torrent(&client, &torrent);
    assert_eq!(h.info_hash, torrent.info.hash());
    assert_eq!(h.info_hash.len(), 20);
    assert_eq!(h.peer_id, b"-TH010-ABCDEFGHIJKLM".to_vec());
}
