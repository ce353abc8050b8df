use vstd::prelude::*;
use vstd::utf8::encode_utf8;
use crate::bencode::{ascii, decimal_bytes, push_decimal};
use crate::client::Client;
use crate::text::{push_char, str_chars};
use crate::torrent_file::TorrentFile;
use crate::torrent_file::info::{info_bencode, sha1_digest};
use crate::tracker::progress::Progress;

verus! {

/// Bytes that `application/x-www-form-urlencoded` leaves as they are.
pub open spec fn is_unreserved(b: u8) -> bool {
    b == 42 || b == 45 || b == 46 || (48 <= b && b <= 57) || (65 <= b && b <= 90) || b == 95 || (97
        <= b && b <= 122)
}

/// An upper-case hexadecimal digit.
pub open spec fn hex_digit(d: nat) -> char {
    if d < 10 {
        ((d + 48) as u32) as char
    } else {
        ((d + 55) as u32) as char
    }
}

/// One byte, form-urlencoded: unreserved bytes as themselves, a space as `+`,
/// anything else as `%` and two upper-case hex digits.
pub open spec fn urlencode_byte(b: u8) -> Seq<char> {
    if is_unreserved(b) {
        seq![(b as u32) as char]
    } else if b == 32 {
        seq!['+']
    } else {
        seq!['%', hex_digit((b / 16) as nat), hex_digit((b % 16) as nat)]
    }
}

/// A byte string, form-urlencoded byte by byte.
pub open spec fn urlencode(bs: Seq<u8>) -> Seq<char>
    decreases bs.len(),
{
    if bs.len() == 0 {
        Seq::empty()
    } else {
        urlencode(bs.drop_last()) + urlencode_byte(bs.last())
    }
}

/// The value of a hexadecimal digit (either case).
pub open spec fn hex_value(c: char) -> int {
    if '0' <= c && c <= '9' {
        c as int - 48
    } else if 'A' <= c && c <= 'F' {
        c as int - 55
    } else if 'a' <= c && c <= 'f' {
        c as int - 87
    } else {
        0
    }
}

/// Form-urldecoding: `+` is a space, `%` and two hex digits is that byte, and
/// any other character is its own code.
pub open spec fn urldecode(s: Seq<char>) -> Seq<u8>
    decreases s.len(),
{
    if s.len() == 0 {
        Seq::empty()
    } else if s[0] == '+' {
        seq![32u8] + urldecode(s.drop_first())
    } else if s[0] == '%' && s.len() >= 3 {
        seq![(hex_value(s[1]) * 16 + hex_value(s[2])) as u8] + urldecode(s.skip(3))
    } else {
        seq![s[0] as u8] + urldecode(s.drop_first())
    }
}

/// The characters that form-urlencoded text is made of: ASCII letters and
/// digits, `*`, `-`, `.`, `_`, `+` and `%`.
pub open spec fn is_form_char(c: char) -> bool {
    ('0' <= c && c <= '9') || ('A' <= c && c <= 'Z') || ('a' <= c && c <= 'z') || c == '*' || c
        == '-' || c == '.' || c == '_' || c == '+' || c == '%'
}

proof fn lemma_hex_digit(d: nat)
    requires
        d < 16,
    ensures
        hex_value(hex_digit(d)) == d,
        ('0' <= hex_digit(d) && hex_digit(d) <= '9') || ('A' <= hex_digit(d) && hex_digit(d)
            <= 'F'),
{
    if d < 10 {
        let u: u32 = (d + 48) as u32;
        assert((u as char) as int == u as int);
    } else {
        let u: u32 = (d + 55) as u32;
        assert((u as char) as int == u as int);
    }
}

/// One byte, form-urlencoded: ASCII letters, digits and `*`, `-`, `.`, `_`
/// stay as they are, a space becomes `+`, every other byte becomes `%XX`; the
/// result is made of form characters only, and decoding it gives the byte back
/// whatever follows it.
pub proof fn lemma_urlencode_byte(b: u8, rest: Seq<char>)
    ensures
        forall|i: int| 0 <= i < urlencode_byte(b).len() ==> is_form_char(#[trigger] urlencode_byte(b)[i]),
        urldecode(urlencode_byte(b) + rest) == seq![b] + urldecode(rest),
        ((48 <= b && b <= 57) || (65 <= b && b <= 90) || (97 <= b && b <= 122) || b == 42 || b == 45
            || b == 46 || b == 95) ==> urlencode_byte(b).len() == 1 && urlencode_byte(b)[0] as int
            == b as int,
        b == 32 ==> urlencode_byte(b) == seq!['+'],
        !((48 <= b && b <= 57) || (65 <= b && b <= 90) || (97 <= b && b <= 122) || b == 42 || b
            == 45 || b == 46 || b == 95 || b == 32) ==> urlencode_byte(b).len() == 3
            && urlencode_byte(b)[0] == '%' && hex_value(urlencode_byte(b)[1]) * 16 + hex_value(
            urlencode_byte(b)[2]) == b as int,
{
    let x = urlencode_byte(b);
    let s = x + rest;
    if is_unreserved(b) {
        let u: u32 = b as u32;
        assert((u as char) as int == u as int);
        assert(s[0] == x[0]);
        assert(s.drop_first() =~= rest);
        assert(s[0] != '+' && s[0] != '%');
        assert(urldecode(s) == seq![s[0] as u8] + urldecode(s.drop_first()));
    } else if b == 32 {
        assert(s[0] == '+');
        assert(s.drop_first() =~= rest);
    } else {
        lemma_hex_digit((b / 16) as nat);
        lemma_hex_digit((b % 16) as nat);
        assert(s[0] == '%' && s[1] == x[1] && s[2] == x[2]);
        assert(s.skip(3) =~= rest);
        assert(b as int == (b / 16) as int * 16 + (b % 16) as int);
    }
}

/// Encoding a concatenation encodes each part.
pub proof fn lemma_urlencode_append(a: Seq<u8>, b: Seq<u8>)
    ensures
        urlencode(a + b) == urlencode(a) + urlencode(b),
    decreases b.len(),
{
    if b.len() == 0 {
        assert(a + b =~= a);
        assert(urlencode(b) =~= Seq::<char>::empty());
        assert(urlencode(a) + urlencode(b) =~= urlencode(a));
    } else {
        let b0 = b.drop_last();
        lemma_urlencode_append(a, b0);
        assert((a + b).drop_last() =~= a + b0);
        assert((a + b).last() == b.last());
        assert(urlencode(a) + urlencode(b0) + urlencode_byte(b.last()) =~= urlencode(a) + (
        urlencode(b0) + urlencode_byte(b.last())));
    }
}

/// Form-urlencoded bytes are made of form characters only (so no `&`, `=` or
/// `#` appears in them), and form-urldecoding them gives back exactly the
/// bytes.
pub proof fn lemma_urlencode_roundtrip(bs: Seq<u8>)
    ensures
        forall|i: int| 0 <= i < urlencode(bs).len() ==> is_form_char(#[trigger] urlencode(bs)[i]),
        urldecode(urlencode(bs)) == bs,
    decreases bs.len(),
{
    if bs.len() > 0 {
        let rest = bs.drop_first();
        lemma_urlencode_roundtrip(rest);
        lemma_urlencode_append(seq![bs[0]], rest);
        assert(seq![bs[0]] + rest =~= bs);
        let one = seq![bs[0]];
        assert(one.drop_last() =~= Seq::<u8>::empty());
        assert(urlencode(one.drop_last()) =~= Seq::<char>::empty());
        assert(one.last() == bs[0]);
        assert(urlencode(one) == urlencode(one.drop_last()) + urlencode_byte(one.last()));
        assert(urlencode(one) =~= urlencode_byte(bs[0]));
        lemma_urlencode_byte(bs[0], urlencode(rest));
        assert(seq![bs[0]] + urldecode(urlencode(rest)) =~= bs);
        let e = urlencode(bs);
        let x = urlencode_byte(bs[0]);
        assert forall|i: int| 0 <= i < e.len() implies is_form_char(#[trigger] e[i]) by {
            if i < x.len() {
                assert(e[i] == x[i]);
            } else {
                assert(e[i] == urlencode(rest)[i - x.len()]);
            }
        }
    } else {
        assert(urlencode(bs) =~= Seq::<char>::empty());
        assert(bs =~= Seq::<u8>::empty());
    }
}

/// `name=value`, both form-urlencoded.
pub open spec fn pair_text(name: Seq<u8>, value: Seq<u8>) -> Seq<char> {
    urlencode(name) + seq!['='] + urlencode(value)
}

/// The bytes sent for a parameter's text: the raw info hash where the text is
/// the placeholder `{{info_hash}}`, and its UTF-8 bytes otherwise.
pub open spec fn parameter_bytes(text: Seq<char>, info_hash: Seq<u8>) -> Seq<u8> {
    if text == "{{info_hash}}"@ {
        info_hash
    } else {
        encode_utf8(text)
    }
}

/// The announce parameters, in the order the tracker request sends them. The
/// info hash goes out as raw bytes; so does a peer id that reads
/// `{{info_hash}}`, the placeholder that stands for the hash.
pub open spec fn announce_query(
    info_hash: Seq<u8>,
    peer_id: Seq<char>,
    port: u16,
    progress: Progress,
) -> Seq<char> {
    pair_text(encode_utf8("info_hash"@), info_hash) + seq!['&'] + pair_text(
        encode_utf8("peer_id"@),
        parameter_bytes(peer_id, info_hash),
    ) + seq!['&'] + pair_text(encode_utf8("port"@), decimal_bytes(port as nat)) + seq!['&']
        + pair_text(encode_utf8("uploaded"@), decimal_bytes(progress.uploaded as nat)) + seq!['&']
        + pair_text(encode_utf8("downloaded"@), decimal_bytes(progress.downloaded as nat)) + seq![
        '&',
    ] + pair_text(encode_utf8("left"@), decimal_bytes(progress.left as nat)) + seq!['&'] + pair_text(
        encode_utf8("compact"@),
        encode_utf8("1"@),
    )
}

/// `i` is the position of the first `c` in `s`.
pub open spec fn is_first_of(s: Seq<char>, c: char, i: int) -> bool {
    &&& 0 <= i < s.len()
    &&& s[i] == c
    &&& forall|j: int| 0 <= j < i ==> s[j] != c
}

/// The position of the first `c` in `s`, or the length of `s` if there is none.
pub open spec fn first_index(s: Seq<char>, c: char) -> int {
    if exists|i: int| is_first_of(s, c, i) {
        choose|i: int| is_first_of(s, c, i)
    } else {
        s.len() as int
    }
}

/// A URL with parameters appended to its query: the fragment (from the first
/// `#`) stays at the end; a `?` is added where there is no query yet, and a
/// `&` where the query is not empty.
pub open spec fn with_query(url: Seq<char>, query: Seq<char>) -> Seq<char> {
    let h = first_index(url, '#');
    let base = url.take(h);
    let fragment = url.skip(h);
    let q = first_index(base, '?');
    let sep = if q == base.len() {
        seq!['?']
    } else if q == base.len() - 1 {
        Seq::<char>::empty()
    } else {
        seq!['&']
    };
    base + sep + query + fragment
}

fn hex_char(d: u8) -> (c: char)
    requires
        d < 16,
    ensures
        c == hex_digit(d as nat),
{
    if d < 10 {
        (d + 48) as char
    } else {
        (d + 55) as char
    }
}

fn push_urlencoded(out: &mut String, bytes: &[u8])
    ensures
        final(out)@ == old(out)@ + urlencode(bytes@),
{
    let ghost start = out@;
    let mut i: usize = 0;
    while i < bytes.len()
        invariant
            0 <= i <= bytes@.len(),
            out@ == start + urlencode(bytes@.take(i as int)),
        decreases bytes@.len() - i,
    {
        let b = bytes[i];
        assert(bytes@.take(i + 1).drop_last() == bytes@.take(i as int));
        if b == 42 || b == 45 || b == 46 || (48 <= b && b <= 57) || (65 <= b && b <= 90) || b == 95
            || (97 <= b && b <= 122) {
            push_char(out, b as char);
        } else if b == 32 {
            push_char(out, '+');
        } else {
            push_char(out, '%');
            push_char(out, hex_char(b / 16));
            push_char(out, hex_char(b % 16));
        }
        i = i + 1;
    }
    assert(bytes@.take(bytes@.len() as int) == bytes@);
}

fn push_pair(out: &mut String, name: &str, value: &[u8])
    ensures
        final(out)@ == old(out)@ + pair_text(encode_utf8(name@), value@),
{
    let ghost start = out@;
    push_urlencoded(out, name.as_bytes());
    push_char(out, '=');
    push_urlencoded(out, value);
    assert(out@ == start + pair_text(encode_utf8(name@), value@));
}

fn push_number_pair(out: &mut String, name: &str, n: u64)
    ensures
        final(out)@ == old(out)@ + pair_text(encode_utf8(name@), decimal_bytes(n as nat)),
{
    let mut digits: Vec<u8> = Vec::new();
    push_decimal(&mut digits, n);
    assert(digits@ == Seq::<u8>::empty() + decimal_bytes(n as nat));
    push_pair(out, name, digits.as_slice());
}

/// The index of the first `c` in `s`, or its length if there is none.
fn find_first(s: &[char], c: char) -> (i: usize)
    ensures
        i == first_index(s@, c),
{
    let mut i: usize = 0;
    while i < s.len() && s[i] != c
        invariant
            0 <= i <= s@.len(),
            forall|j: int| 0 <= j < i ==> s@[j] != c,
        decreases s@.len() - i,
    {
        i = i + 1;
    }
    if i < s.len() {
        assert(is_first_of(s@, c, i as int));
        assert forall|k: int| is_first_of(s@, c, k) implies k == i by {
            if k < i {
                assert(s@[k] != c);
            } else if k > i {
                assert(s@[i as int] == c);
            }
        }
    } else {
        assert(!(exists|k: int| is_first_of(s@, c, k)));
    }
    i
}

/// Appends `chars[from..to]`.
fn push_chars(out: &mut String, chars: &[char], from: usize, to: usize)
    requires
        from <= to <= chars@.len(),
    ensures
        final(out)@ == old(out)@ + chars@.subrange(from as int, to as int),
{
    let ghost start = out@;
    let mut i: usize = from;
    while i < to
        invariant
            from <= i <= to,
            to <= chars@.len(),
            out@ == start + chars@.subrange(from as int, i as int),
        decreases to - i,
    {
        assert(chars@.subrange(from as int, i + 1) == chars@.subrange(from as int, i as int).push(
            chars@[i as int],
        ));
        push_char(out, chars[i]);
        i = i + 1;
    }
}

/// Appends the announce parameters.
fn push_announce_query(
    out: &mut String,
    info_hash: &[u8],
    peer_id: &str,
    port: u16,
    progress: &Progress,
)
    ensures
        final(out)@ == old(out)@ + announce_query(info_hash@, peer_id@, port, *progress),
{
    let ghost start = out@;
    push_pair(out, "info_hash", info_hash);
    push_char(out, '&');
    let marker = "{{info_hash}}".to_owned();
    let text = peer_id.to_owned();
    if text == marker {
        push_pair(out, "peer_id", info_hash);
    } else {
        push_pair(out, "peer_id", peer_id.as_bytes());
    }
    push_char(out, '&');
    push_number_pair(out, "port", port as u64);
    push_char(out, '&');
    push_number_pair(out, "uploaded", progress.uploaded);
    push_char(out, '&');
    push_number_pair(out, "downloaded", progress.downloaded);
    push_char(out, '&');
    push_number_pair(out, "left", progress.left);
    push_char(out, '&');
    push_pair(out, "compact", "1".as_bytes());
    assert(out@ == start + announce_query(info_hash@, peer_id@, port, *progress));
}

/// A tracker URL with the announce parameters appended to its query. The
/// first `#` and the first `?` before it are taken as the fragment and query
/// starts, as they are in a URL's normal written form.
pub fn announce_url(
    announce: &str,
    info_hash: &[u8],
    peer_id: &str,
    port: u16,
    progress: &Progress,
) -> (url: String)
    ensures
        url@ == with_query(announce@, announce_query(info_hash@, peer_id@, port, *progress)),
{
    let chars = str_chars(announce);
    let len = chars.len();
    let all = chars.as_slice();
    let h = find_first(all, '#');
    let base = &all[0..h];
    assert(base@ == chars@.take(h as int));
    let q = find_first(base, '?');
    let mut url = String::new();
    push_chars(&mut url, all, 0, h);
    assert(chars@.subrange(0, h as int) == chars@.take(h as int));
    if q == h {
        push_char(&mut url, '?');
    } else if q + 1 == h {
    } else {
        push_char(&mut url, '&');
    }
    push_announce_query(&mut url, info_hash, peer_id, port, progress);
    push_chars(&mut url, all, h, len);
    assert(chars@.subrange(h as int, len as int) == chars@.skip(h as int));
    url
}

/// The tracker announce URL for a torrent: the tracker's URL (in the normal
/// written form that `TorrentFile::announce` holds) with the info hash, the
/// client's peer id and port, the progress counters and `compact=1` appended
/// to its query.
pub fn tracker_url(client: &Client, torrent: &TorrentFile, progress: &Progress) -> (url: String)
    ensures
        url@ == with_query(
            torrent.announce@,
            announce_query(
                sha1_digest(info_bencode(torrent.info)),
                client.peer_id@,
                client.port,
                *progress,
            ),
        ),
{
    let info_hash = torrent.info.hash();
    announce_url(
        torrent.announce.as_str(),
        info_hash.as_slice(),
        client.peer_id.as_str(),
        client.port,
        progress,
    )
}

} // verus!
