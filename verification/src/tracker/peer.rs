use vstd::prelude::*;
use crate::text::{decimal, lemma_decimal, lemma_split_on_append, all_digits, digit_of, digits_value, is_ascii_digit, parse_u16, spec_parse_u16, split_chars, split_on, str_chars};

verus! {

/// What `Ipv4Addr::from_str` accepts for one octet: one to three decimal
/// digits, no leading zero unless the octet is `0` itself, value at most 255.
pub open spec fn spec_parse_octet(s: Seq<char>) -> Option<u8> {
    if 1 <= s.len() <= 3 && all_digits(s) && !(s.len() > 1 && s[0] == '0') && digits_value(s)
        <= 255 {
        Some(digits_value(s) as u8)
    } else {
        None
    }
}

/// What `Ipv4Addr::from_str` accepts: four octets separated by dots.
pub open spec fn spec_parse_ipv4(s: Seq<char>) -> Option<Seq<u8>> {
    let parts = split_on(s, '.');
    if parts.len() == 4 && spec_parse_octet(parts[0]) is Some && spec_parse_octet(parts[1]) is Some
        && spec_parse_octet(parts[2]) is Some && spec_parse_octet(parts[3]) is Some {
        Some(
            seq![
                spec_parse_octet(parts[0])->0,
                spec_parse_octet(parts[1])->0,
                spec_parse_octet(parts[2])->0,
                spec_parse_octet(parts[3])->0,
            ],
        )
    } else {
        None
    }
}

/// `i` is the position of the first `:` in `s`.
pub open spec fn is_first_colon(s: Seq<char>, i: int) -> bool {
    &&& 0 <= i < s.len()
    &&& s[i] == ':'
    &&& forall|j: int| 0 <= j < i ==> s[j] != ':'
}

/// The outcome of reading `ip:port`: the four address bytes and the port, or
/// an error message: "Invalid peer format" where there is no `:`, "Invalid IP
/// address" where the text before the first `:` is no dotted-quad address,
/// and "Invalid port" where the text after it is no 16-bit port.
pub open spec fn spec_parse_peer(s: Seq<char>) -> Result<(Seq<u8>, u16), Seq<char>> {
    if !(exists|i: int| is_first_colon(s, i)) {
        Err("Invalid peer format"@)
    } else {
        let i = choose|i: int| is_first_colon(s, i);
        match spec_parse_ipv4(s.take(i)) {
            None => Err("Invalid IP address"@),
            Some(ip) => match spec_parse_u16(s.skip(i + 1)) {
                None => Err("Invalid port"@),
                Some(port) => Ok((ip, port)),
            },
        }
    }
}

/// Reads one octet of a dotted-quad address.
pub fn parse_octet(s: &[char]) -> (r: Option<u8>)
    ensures
        r == spec_parse_octet(s@),
{
    let len = s.len();
    if len < 1 || len > 3 {
        return None;
    }
    if len > 1 && s[0] == '0' {
        return None;
    }
    let mut acc: u32 = 0;
    let mut i: usize = 0;
    while i < len
        invariant
            0 <= i <= len,
            1 <= len <= 3,
            len == s@.len(),
            all_digits(s@.take(i as int)),
            acc == digits_value(s@.take(i as int)),
            i == 0 ==> acc == 0,
            i == 1 ==> acc < 10,
            i == 2 ==> acc < 100,
            acc < 1000,
        decreases len - i,
    {
        let c = s[i];
        if !('0' <= c && c <= '9') {
            assert(!is_ascii_digit(s@[i as int]));
            return None;
        }
        let dg = digit_of(c);
        assert(s@.take(i + 1).drop_last() == s@.take(i as int));
        assert(s@.take(i + 1).last() == c);
        acc = acc * 10 + dg;
        i = i + 1;
        assert forall|j: int| 0 <= j < s@.take(i as int).len() implies is_ascii_digit(
            #[trigger] s@.take(i as int)[j],
        ) by {
            if j < i - 1 {
                assert(s@.take(i as int)[j] == s@.take(i - 1)[j]);
            }
        }
    }
    assert(s@.take(len as int) == s@);
    if acc > 255 {
        None
    } else {
        Some(acc as u8)
    }
}

/// `Ipv4Addr::from_str` on a sequence of characters, giving the four bytes.
pub fn parse_ipv4(s: &[char]) -> (r: Option<[u8; 4]>)
    ensures
        match r {
            Some(a) => spec_parse_ipv4(s@) == Some(a@),
            None => spec_parse_ipv4(s@) is None,
        },
{
    let parts = split_chars(s, '.');
    let ghost spec_parts = split_on(s@, '.');
    if parts.len() != 4 {
        return None;
    }
    assert(parts@[0]@ == spec_parts[0]);
    assert(parts@[1]@ == spec_parts[1]);
    assert(parts@[2]@ == spec_parts[2]);
    assert(parts@[3]@ == spec_parts[3]);
    let a = match parse_octet(parts[0].as_slice()) {
        Some(v) => v,
        None => return None,
    };
    let b = match parse_octet(parts[1].as_slice()) {
        Some(v) => v,
        None => return None,
    };
    let c = match parse_octet(parts[2].as_slice()) {
        Some(v) => v,
        None => return None,
    };
    let d = match parse_octet(parts[3].as_slice()) {
        Some(v) => v,
        None => return None,
    };
    let ip = [a, b, c, d];
    assert(ip@ == seq![a, b, c, d]);
    Some(ip)
}

/// A peer's address: IPv4 bytes in network order and a port.
#[derive(Debug, Clone, PartialEq, Eq)]
pub struct Peer {
    pub ip: [u8; 4],
    pub port: u16,
}

impl Peer {
    /// Reads a peer written as `a.b.c.d:port`. The text before the first `:`
    /// must be a dotted-quad address and the text after it a 16-bit port.
    pub fn parse(s: &str) -> (r: Result<Peer, String>)
        ensures
            match r {
                Ok(p) => spec_parse_peer(s@) == Ok::<(Seq<u8>, u16), Seq<char>>((p.ip@, p.port)),
                Err(e) => spec_parse_peer(s@) == Err::<(Seq<u8>, u16), Seq<char>>(e@),
            },
    {
        let chars = str_chars(s);
        let len = chars.len();
        let mut i: usize = 0;
        while i < len && chars[i] != ':'
            invariant
                0 <= i <= len,
                len == chars@.len(),
                chars@ == s@,
                forall|j: int| 0 <= j < i ==> chars@[j] != ':',
            decreases len - i,
        {
            i = i + 1;
        }
        if i == len {
            assert(!(exists|k: int| is_first_colon(s@, k)));
            return Err("Invalid peer format".to_owned());
        }
        assert(is_first_colon(s@, i as int));
        assert forall|k: int| is_first_colon(s@, k) implies k == i by {
            if k < i {
                assert(s@[k] != ':');
            } else if k > i {
                assert(s@[i as int] == ':');
            }
        }
        let all = chars.as_slice();
        let ip_part = &all[0..i];
        let port_part = &all[i + 1..len];
        assert(ip_part@ == s@.take(i as int));
        assert(port_part@ == s@.skip(i + 1));
        let ip = match parse_ipv4(ip_part) {
            Some(ip) => ip,
            None => return Err("Invalid IP address".to_owned()),
        };
        let port = match parse_u16(port_part) {
            Some(port) => port,
            None => return Err("Invalid port".to_owned()),
        };
        Ok(Peer { ip, port })
    }
}

impl core::str::FromStr for Peer {
    type Err = String;

    /// Reads a peer written as `a.b.c.d:port`; see [`Peer::parse`].
    fn from_str(s: &str) -> (r: Result<Self, Self::Err>)
        ensures
            match r {
                Ok(p) => spec_parse_peer(s@) == Ok::<(Seq<u8>, u16), Seq<char>>((p.ip@, p.port)),
                Err(e) => spec_parse_peer(s@) == Err::<(Seq<u8>, u16), Seq<char>>(e@),
            },
    {
        Peer::parse(s)
    }
}

/// A peer written out as `a.b.c.d:port`, every number in decimal.
pub open spec fn peer_text(ip: Seq<u8>, port: u16) -> Seq<char> {
    decimal(ip[0] as nat) + seq!['.'] + decimal(ip[1] as nat) + seq!['.'] + decimal(ip[2] as nat)
        + seq!['.'] + decimal(ip[3] as nat) + seq![':'] + decimal(port as nat)
}

/// A decimal octet reads back as itself.
proof fn lemma_octet_roundtrip(b: u8)
    ensures
        spec_parse_octet(decimal(b as nat)) == Some(b),
        forall|i: int| 0 <= i < decimal(b as nat).len() ==> is_ascii_digit(#[trigger] decimal(b as nat)[i]),
{
    lemma_decimal(b as nat);
}

/// Writing a peer as `a.b.c.d:port` and reading the text gives the peer back.
pub proof fn lemma_peer_text_roundtrip(ip: Seq<u8>, port: u16)
    requires
        ip.len() == 4,
    ensures
        spec_parse_peer(peer_text(ip, port)) == Ok::<(Seq<u8>, u16), Seq<char>>((ip, port)),
{
    let x0 = decimal(ip[0] as nat);
    let x1 = decimal(ip[1] as nat);
    let x2 = decimal(ip[2] as nat);
    let x3 = decimal(ip[3] as nat);
    let xp = decimal(port as nat);
    lemma_octet_roundtrip(ip[0]);
    lemma_octet_roundtrip(ip[1]);
    lemma_octet_roundtrip(ip[2]);
    lemma_octet_roundtrip(ip[3]);
    lemma_decimal(port as nat);
    let e = Seq::<char>::empty();
    // the address splits on its dots into the four octets
    assert(split_on(e, '.') == seq![e]);
    lemma_split_on_append(e, x0, '.');
    assert(e + x0 == x0);
    assert(split_on(x0, '.') =~= seq![x0]);
    let p1 = x0 + seq!['.'];
    assert(p1.drop_last() == x0 && p1.last() == '.');
    assert(split_on(p1, '.') =~= seq![x0, e]);
    lemma_split_on_append(p1, x1, '.');
    assert(split_on(p1 + x1, '.') =~= seq![x0, x1]);
    let p2 = p1 + x1 + seq!['.'];
    assert(p2.drop_last() == p1 + x1 && p2.last() == '.');
    assert(split_on(p2, '.') =~= seq![x0, x1, e]);
    lemma_split_on_append(p2, x2, '.');
    assert(split_on(p2 + x2, '.') =~= seq![x0, x1, x2]);
    let p3 = p2 + x2 + seq!['.'];
    assert(p3.drop_last() == p2 + x2 && p3.last() == '.');
    assert(split_on(p3, '.') =~= seq![x0, x1, x2, e]);
    lemma_split_on_append(p3, x3, '.');
    let ipt = p3 + x3;
    assert(split_on(ipt, '.') =~= seq![x0, x1, x2, x3]);
    assert(spec_parse_ipv4(ipt) == Some(ip)) by {
        assert(seq![ip[0], ip[1], ip[2], ip[3]] =~= ip);
    }
    // the first colon ends the address
    let text = ipt + seq![':'] + xp;
    assert(text =~= peer_text(ip, port));
    let i = ipt.len() as int;
    assert forall|j: int| 0 <= j < i implies text[j] != ':' by {
        assert(text[j] == ipt[j]);
        if j < x0.len() {
            assert(ipt[j] == x0[j]);
        } else if j == x0.len() {
        } else if j < p1.len() + x1.len() {
            assert(ipt[j] == x1[j - p1.len()]);
        } else if j == p1.len() + x1.len() {
        } else if j < p2.len() + x2.len() {
            assert(ipt[j] == x2[j - p2.len()]);
        } else if j == p2.len() + x2.len() {
        } else {
            assert(ipt[j] == x3[j - p3.len()]);
        }
    }
    assert(is_first_colon(text, i));
    assert forall|k: int| is_first_colon(text, k) implies k == i by {
        if k > i {
            assert(text[i] == ':');
        }
    }
    assert(text.take(i) =~= ipt);
    assert(text.skip(i + 1) =~= xp);
    assert(xp[0] != '+');
    assert(spec_parse_u16(xp) == Some(port));
}

/// Peer `k` of a compact peer list: six bytes, the address and then the port
/// in big-endian order.
pub open spec fn is_compact_peer(bytes: Seq<u8>, k: int, p: Peer) -> bool {
    &&& p.ip@ == bytes.subrange(6 * k, 6 * k + 4)
    &&& p.port == bytes[6 * k + 4] as int * 256 + bytes[6 * k + 5] as int
}

/// A peer as a compact entry: its four address bytes, then its port in
/// big-endian order.
pub open spec fn compact_entry(p: Peer) -> Seq<u8> {
    p.ip@ + seq![(p.port / 256) as u8, (p.port % 256) as u8]
}

/// Reading a compact entry gives back the peer that was written: its address
/// and, for every port from 0 to 65535, its port.
pub proof fn lemma_compact_roundtrip(bytes: Seq<u8>, k: int, written: Peer, read: Peer)
    requires
        0 <= k,
        6 * k + 6 <= bytes.len(),
        bytes.subrange(6 * k, 6 * k + 6) == compact_entry(written),
        is_compact_peer(bytes, k, read),
    ensures
        read.ip@ == written.ip@,
        read.port == written.port,
{
    let e = compact_entry(written);
    assert(bytes[6 * k + 4] == e[4]);
    assert(bytes[6 * k + 5] == e[5]);
    assert(read.ip@ =~= written.ip@) by {
        assert forall|i: int| 0 <= i < 4 implies read.ip@[i] == written.ip@[i] by {
            assert(read.ip@[i] == bytes[6 * k + i]);
            assert(bytes[6 * k + i] == e[i]);
        }
    }
    assert(written.port == (written.port / 256) * 256 + written.port % 256);
}

/// The peers that a tracker reports.
#[derive(Debug, Clone)]
pub struct Peers(pub Vec<Peer>);

impl Peers {
    /// Reads a compact peer list: every whole six-byte chunk is one peer; a
    /// shorter tail is ignored.
    pub fn from_compact(bytes: &[u8]) -> (peers: Peers)
        ensures
            peers.0@.len() == bytes@.len() / 6,
            forall|k: int|
                0 <= k < peers.0@.len() ==> is_compact_peer(bytes@, k, #[trigger] peers.0@[k]),
    {
        let count = bytes.len() / 6;
        let mut out: Vec<Peer> = Vec::new();
        let mut i: usize = 0;
        let mut pos: usize = 0;
        while i < count
            invariant
                count == bytes@.len() / 6,
                0 <= i <= count,
                pos == 6 * i,
                out@.len() == i,
                forall|k: int| 0 <= k < i ==> is_compact_peer(bytes@, k, #[trigger] out@[k]),
            decreases count - i,
        {
            assert(pos + 6 <= bytes@.len());
            let ip = [bytes[pos], bytes[pos + 1], bytes[pos + 2], bytes[pos + 3]];
            let port = (bytes[pos + 4] as u16) * 256 + (bytes[pos + 5] as u16);
            let p = Peer { ip, port };
            assert(ip@ == bytes@.subrange(6 * i, 6 * i + 4));
            out.push(p);
            i = i + 1;
            pos = pos + 6;
        }
        Peers(out)
    }

    pub fn len(&self) -> (n: usize)
        ensures
            n == self.0@.len(),
    {
        self.0.len()
    }

    /// The peers, in the order the tracker listed them.
    pub fn as_slice(&self) -> (s: &[Peer])
        ensures
            s@ == self.0@,
    {
        self.0.as_slice()
    }
}

} // verus!
