use bittorrent::tracker::peer::{Peer, Peers};

#[test]
fn peer_parse_valid() {
    let p = Peer::parse("127.0.0.1:6881").unwrap();
    assert_eq!(p, Peer { ip: [127, 0, 0, 1], port: 6881 });
    let q: Peer = "165.232.33.77:51467".parse().unwrap();
    assert_eq!(q, Peer { ip: [165, 232, 33, 77], port: 51467 });
}

#[test]
fn peer_parse_plus_sign_and_leading_zeros_in_port() {
    assert_eq!(Peer::parse("1.2.3.4:+80").unwrap().port, 80);
    assert_eq!(Peer::parse("1.2.3.4:00080").unwrap().port, 80);
    assert_eq!(Peer::parse("0.0.0.0:65535").unwrap(), Peer { ip: [0, 0, 0, 0], port: 65535 });
}

#[test]
fn peer_parse_missing_colon() {
    assert_eq!(Peer::parse("1.2.3.4").unwrap_err(), "Invalid peer format");
    assert_eq!(Peer::parse("").unwrap_err(), "Invalid peer format");
}

#[test]
fn peer_parse_bad_address() {
    for s in ["1.2.3:80", "256.1.1.1:80", "01.2.3.4:80", "1.2.3.4.5:80", "1..3.4:80", "a.b.c.d:80", ":80", "1.2.3.1000:80"] {
        assert_eq!(Peer::parse(s).unwrap_err(), "Invalid IP address", "{}", s);
    }
}

#[test]
fn peer_parse_bad_port() {
    for s in ["1.2.3.4:", "1.2.3.4:65536", "1.2.3.4:-1", "1.2.3.4:+", "1.2.3.4:80:90", "1.2.3.4:8x"] {
        assert_eq!(Peer::parse(s).unwrap_err(), "Invalid port", "{}", s);
    }
}

#[test]
fn peer_parse_octet_edge_cases() {
    assert_eq!(Peer::parse("255.255.255.255:1").unwrap().ip, [255, 255, 255, 255]);
    assert_eq!(Peer::parse("0.10.100.1:1").unwrap().ip, [0, 10, 100, 1]);
    assert_eq!(Peer::parse("1.2.3.04:5").unwrap_err(), "Invalid IP address");
    assert_eq!(Peer::parse("1.2.3.4:999999").unwrap_err(), "Invalid port");
}

#[test]
fn peers_from_compact() {
    let bytes = [127, 0, 0, 1, 0x1a, 0xe1, 10, 0, 0, 2, 0, 80, 7];
    let peers = Peers::from_compact(&bytes);
    assert_eq!(peers.len(), 2);
    assert_eq!(peers.as_slice()[0], Peer { ip: [127, 0, 0, 1], port: 6881 });
    assert_eq!(peers.as_slice()[1], Peer { ip: [10, 0, 0, 2], port: 80 });
    assert_eq!(Peers::from_compact(&[1, 2, 3]).len(), 0);
}

#[test]
fn peer_printed_text_reads_back() {
    for (ip, port) in [([127u8, 0, 0, 1], 6881u16), ([0, 0, 0, 0], 0), ([255, 255, 255, 255], 65535), ([10, 200, 3, 40], 80)] {
        let text = format!("{}.{}.{}.{}:{}", ip[0], ip[1], ip[2], ip[3], port);
        assert_eq!(Peer::parse(&text).unwrap(), Peer { ip, port });
    }
}
