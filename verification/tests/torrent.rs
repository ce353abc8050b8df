use std::borrow::Cow;
use std::collections::BTreeMap;

use bendy::value::Value;
use bittorrent::torrent_file::info::Info;
use bittorrent::torrent_file::keys::{FileInfo, Keys};
use bittorrent::torrent_file::pieces::Pieces;
use sha1::{Digest, Sha1};

fn single_file_info() -> Info {
    Info {
        name: "sample.txt".to_string(),
        keys: Keys::SingleFile { length: 92063 },
        piece_length: 32768,
        pieces: Pieces(vec![[1u8; 20], [2u8; 20], [3u8; 20]]),
    }
}

fn multi_file_info() -> Info {
    Info {
        name: "dir".to_string(),
        keys: Keys::MultipleFiles {
            files: vec![
                FileInfo { length: 3, path: vec!["a".to_string(), "b.txt".to_string()] },
                FileInfo { length: 40, path: vec!["c".to_string()] },
            ],
        },
        piece_length: 16,
        pieces: Pieces(vec![[7u8; 20]]),
    }
}

fn bytes(b: &[u8]) -> Value<'static> {
    Value::Bytes(Cow::Owned(b.to_vec()))
}

fn dict(entries: Vec<(&str, Value<'static>)>) -> Value<'static> {
    let mut map = BTreeMap::new();
    for (k, v) in entries {
        map.insert(Cow::Owned(k.as_bytes().to_vec()), v);
    }
    Value::Dict(map)
}

#[test]
fn keys_length_single_and_multiple() {
    assert_eq!(single_file_info().keys.length(), 92063);
    assert_eq!(multi_file_info().keys.length(), 43);
    assert_eq!(Keys::MultipleFiles { files: vec![] }.length(), 0);
}

#[test]
fn info_to_bencode_single_file_exact_bytes() {
    let info = Info {
        name: "a".to_string(),
        keys: Keys::SingleFile { length: 5 },
        piece_length: 16,
        pieces: Pieces(vec![[0u8; 20]]),
    };
    let mut expected = b"d6:lengthi5e4:name1:a12:piece lengthi16e6:pieces20:".to_vec();
    expected.extend_from_slice(&[0u8; 20]);
    expected.push(b'e');
    assert_eq!(info.to_bencode(), expected);
}

#[test]
fn info_to_bencode_agrees_with_bendy() {
    let single = single_file_info();
    let value = dict(vec![
        ("length", Value::Integer(92063)),
        ("name", bytes(b"sample.txt")),
        ("piece length", Value::Integer(32768)),
        ("pieces", bytes(&single.pieces.to_bytes())),
    ]);
    assert_eq!(single.to_bencode(), bendy::serde::to_bytes(&value).unwrap());

    let multi = multi_file_info();
    let files = Value::List(vec![
        dict(vec![("length", Value::Integer(3)), ("path", Value::List(vec![bytes(b"a"), bytes(b"b.txt")]))]),
        dict(vec![("length", Value::Integer(40)), ("path", Value::List(vec![bytes(b"c")]))]),
    ]);
    let value = dict(vec![
        ("files", files),
        ("name", bytes(b"dir")),
        ("piece length", Value::Integer(16)),
        ("pieces", bytes(&[7u8; 20])),
    ]);
    assert_eq!(multi.to_bencode(), bendy::serde::to_bytes(&value).unwrap());
}

#[test]
fn info_hash_is_sha1_of_bencoded_info() {
    let info = single_file_info();
    let hash = info.hash();
    assert_eq!(hash.len(), 20);
    let mut hasher = Sha1::new();
    hasher.update(info.to_bencode());
    assert_eq!(hash, hasher.finalize().to_vec());
    assert_ne!(hash, info.to_bencode()[..20].to_vec());
}

#[test]
fn pieces_from_bytes_chunks_and_drops_tail() {
    let raw: Vec<u8> = (0u8..45).collect();
    let pieces = Pieces::from_bytes(&raw);
    assert_eq!(pieces.len(), 2);
    assert_eq!(pieces.as_slice()[0].to_vec(), (0u8..20).collect::<Vec<u8>>());
    assert_eq!(pieces.as_slice()[1].to_vec(), (20u8..40).collect::<Vec<u8>>());
    assert_eq!(pieces.to_bytes(), (0u8..40).collect::<Vec<u8>>());
}

#[test]
fn pieces_roundtrip() {
    let pieces = Pieces(vec![[9u8; 20], [8u8; 20]]);
    let again = Pieces::from_bytes(&pieces.to_bytes());
    assert_eq!(again.as_slice(), pieces.as_slice());
    assert_eq!(Pieces::from_bytes(&[]).len(), 0);
}

#[test]
fn sample_torrent_info_hash() {
    let hashes = [
        "e876f67a2a8886e8f36b136726c30fa29703022d",
        "6e2275e604a0766656736e81ff10b55204ad8d35",
        "f00d937a0213df1982bc8d097227ad9e909acc17",
    ];
    let mut pieces = Vec::new();
    for h in hashes {
        let bytes = hex::decode(h).unwrap();
        let mut piece = [0u8; 20];
        piece.copy_from_slice(&bytes);
        pieces.push(piece);
    }
    let info = Info {
        name: "sample.txt".to_string(),
        keys: Keys::SingleFile { length: 92063 },
        piece_length: 32768,
        pieces: Pieces(pieces),
    };
    assert_eq!(hex::encode(info.hash()), "d69f91e6b2ae4c542468d1073a71d4ea13879a7f");
    assert_eq!(info.keys.length(), 92063);
    assert_eq!(info.pieces.len(), 3);
}
