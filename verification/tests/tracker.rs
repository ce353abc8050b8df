use std::borrow::Cow;

use bittorrent::client::Client;
use bittorrent::torrent_file::info::Info;
use bittorrent::torrent_file::keys::Keys;
use bittorrent::torrent_file::pieces::Pieces;
use bittorrent::torrent_file::TorrentFile;
use bittorrent::tracker::progress::Progress;
use bittorrent::tracker::request::{announce_url, tracker_url};
use reqwest::Url;

fn torrent(announce: &str) -> TorrentFile {
    TorrentFile {
        announce: announce.to_string(),
        info: Info {
            name: "sample.txt".to_string(),
            keys: Keys::SingleFile { length: 92063 },
            piece_length: 32768,
            pieces: Pieces(vec![[1u8; 20], [2u8; 20], [3u8; 20]]),
        },
    }
}

/// The request URL built with the url crate's query serializer.
fn expected_url(client: &Client, torrent: &TorrentFile, progress: &Progress) -> String {
    let info_hash = torrent.info.hash();
    let mut url = Url::parse(&torrent.announce).unwrap();
    url.query_pairs_mut()
        .encoding_override(Some(&|input| {
            if input == "{{info_hash}}" {
                Cow::Owned(info_hash.clone())
            } else {
                Cow::Borrowed(input.as_bytes())
            }
        }))
        .append_pair("info_hash", "{{info_hash}}")
        .append_pair("peer_id", &client.peer_id)
        .append_pair("port", client.port.to_string().as_str())
        .append_pair("uploaded", progress.uploaded.to_string().as_str())
        .append_pair("downloaded", progress.downloaded.to_string().as_str())
        .append_pair("left", progress.left.to_string().as_str())
        .append_pair("compact", "1")
        .finish();
    url.to_string()
}

#[test]
fn tracker_url_matches_url_crate() {
    let client = Client::new("-TH010-ab cd*EF_g.h~", 6881);
    let progress = Progress::new(7, 0, 92063);
    for announce in [
        "http://bittorrent-test-tracker.codecrafters.io/announce",
        "http://tracker.example/announce?key=abc",
        "http://tracker.example/announce?",
        "http://tracker.example/a#frag",
        "http://tracker.example/a?x=1#frag?y",
    ] {
        let t = torrent(announce);
        assert_eq!(tracker_url(&client, &t, &progress), expected_url(&client, &t, &progress), "{}", announce);
    }
}

#[test]
fn tracker_url_parameters() {
    let client = Client::new("-TH010-ABCDEFGHIJKLM", 6881);
    let t = torrent("http://tracker.example/announce");
    let url = tracker_url(&client, &t, &Progress::not_started(92063));
    assert!(url.starts_with("http://tracker.example/announce?info_hash="));
    assert!(url.ends_with("&peer_id=-TH010-ABCDEFGHIJKLM&port=6881&uploaded=0&downloaded=0&left=92063&compact=1"));
}

#[test]
fn tracker_url_placeholder_peer_id_sends_the_hash() {
    let client = Client { peer_id: "{{info_hash}}".to_string(), port: 1 };
    let t = torrent("http://tracker.example/announce");
    let progress = Progress::not_started(5);
    let url = tracker_url(&client, &t, &progress);
    assert_eq!(url, expected_url(&client, &t, &progress));
    assert!(!url.contains("peer_id=%7B"));
}

#[test]
fn announce_url_exact() {
    let url = announce_url(
        "http://t.example/a?k=v#f",
        &[0x00, 0x41, 0x20, 0xff],
        "-TH010-ABCDEFGHIJKLM",
        6881,
        &Progress::new(1, 2, 3),
    );
    assert_eq!(
        url,
        "http://t.example/a?k=v&info_hash=%00A+%FF&peer_id=-TH010-ABCDEFGHIJKLM&port=6881&uploaded=2&downloaded=1&left=3&compact=1#f"
    );
}
