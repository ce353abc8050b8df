use bittorrent::client::peer_id::{PeerId, VERSION};
use bittorrent::client::Client;
use bittorrent::tracker::progress::Progress;

#[test]
fn client_new_keeps_first_twenty_bytes() {
    let c = Client::new("-TH010-ABCDEFGHIJKLMNOPQRSTUVWXYZ", 1234);
    assert_eq!(c.peer_id, "-TH010-ABCDEFGHIJKLM");
    assert_eq!(c.port, 1234);
}

#[test]
fn client_default_has_twenty_byte_peer_id() {
    let c = Client::default();
    assert_eq!(c.port, 6881);
    assert_eq!(c.peer_id.len(), 20);
    assert!(c.peer_id.starts_with("-TH010-"));
    assert!(c.peer_id[7..].chars().all(|ch| ch.is_ascii_alphanumeric()));
}

#[test]
fn peer_id_with_random_part() {
    let id = PeerId::with_random("0.1.0", "ABCDEFGHIJKLMNOPQ");
    assert_eq!(id.as_str(), "-TH010-ABCDEFGHIJKLM");
    let id = PeerId::with_random("12.34", "xxxxxxxxxxxxxxxxxxxx");
    assert_eq!(id.as_str(), "-TH1234-xxxxxxxxxxxx");
    assert_eq!(VERSION, "0.1.0");
}

#[test]
fn peer_id_default_shape() {
    let a = PeerId::default();
    assert_eq!(a.as_str().len(), 20);
    assert!(a.as_str().starts_with("-TH010-"));
}

#[test]
fn progress_constructors() {
    let p = Progress::new(1, 2, 3);
    assert_eq!((p.downloaded, p.uploaded, p.left), (1, 2, 3));
    let q = Progress::not_started(92063);
    assert_eq!(q, Progress::new(0, 0, 92063));
}
