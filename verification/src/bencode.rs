//! Bencode: the byte framing this library writes (strings, unsigned integers,
//! lists and dictionaries).
use vstd::prelude::*;
use crate::text::{all_digits, decimal, digit_value, digits_value, is_ascii_digit, lemma_decimal};

verus! {

/// Characters taken as single bytes (all callers pass ASCII text).
pub open spec fn ascii(s: Seq<char>) -> Seq<u8> {
    s.map_values(|c: char| c as u8)
}

/// Decimal rendering of `n`, as bytes.
pub open spec fn decimal_bytes(n: nat) -> Seq<u8> {
    ascii(decimal(n))
}

/// A bencoded byte string: its length in decimal, `:`, then the bytes.
pub open spec fn bencode_string(b: Seq<u8>) -> Seq<u8> {
    decimal_bytes(b.len()) + seq![58u8] + b
}

/// A bencoded non-negative integer: `i`, the decimal digits, `e`.
pub open spec fn bencode_uint(n: nat) -> Seq<u8> {
    seq![105u8] + decimal_bytes(n) + seq![101u8]
}

/// The number that ASCII decimal digit bytes denote (most significant first).
pub open spec fn ascii_value(bs: Seq<u8>) -> nat
    decreases bs.len(),
{
    if bs.len() == 0 {
        0
    } else {
        ascii_value(bs.drop_last()) * 10 + (bs.last() - 48) as nat
    }
}

pub open spec fn is_digit_byte(b: u8) -> bool {
    48 <= b && b <= 57
}

/// `i` ends a run of one or more digit bytes at the front of `bytes` with a `:`.
pub open spec fn is_length_colon(bytes: Seq<u8>, i: int) -> bool {
    &&& 1 <= i < bytes.len()
    &&& bytes[i] == 58
    &&& forall|j: int| 0 <= j < i ==> is_digit_byte(#[trigger] bytes[j])
}

/// Reads one bencoded byte string from the front of `bytes`: decimal digits
/// giving a length, `:`, then that many bytes. Gives the string and the
/// bytes that follow it.
pub open spec fn read_string(bytes: Seq<u8>) -> Option<(Seq<u8>, Seq<u8>)> {
    if exists|i: int| is_length_colon(bytes, i) {
        let i = choose|i: int| is_length_colon(bytes, i);
        let n = ascii_value(bytes.take(i));
        if i + 1 + n <= bytes.len() {
            Some((bytes.subrange(i + 1, i + 1 + n), bytes.skip(i + 1 + n)))
        } else {
            None
        }
    } else {
        None
    }
}

/// Decimal digit bytes are digits and denote the number they render.
pub proof fn lemma_decimal_bytes(n: nat)
    ensures
        decimal_bytes(n).len() >= 1,
        forall|k: int| 0 <= k < decimal_bytes(n).len() ==> is_digit_byte(#[trigger] decimal_bytes(n)[k]),
        ascii_value(decimal_bytes(n)) == n,
{
    lemma_decimal(n);
    lemma_ascii_value(decimal(n));
}

proof fn lemma_ascii_value(s: Seq<char>)
    requires
        all_digits(s),
    ensures
        forall|k: int| 0 <= k < s.len() ==> is_digit_byte(#[trigger] ascii(s)[k]),
        ascii_value(ascii(s)) == digits_value(s),
    decreases s.len(),
{
    assert forall|k: int| 0 <= k < s.len() implies is_digit_byte(#[trigger] ascii(s)[k]) by {
        assert(is_ascii_digit(s[k]));
        assert(ascii(s)[k] == s[k] as u8);
    }
    if s.len() > 0 {
        let init = s.drop_last();
        assert(all_digits(init)) by {
            assert forall|k: int| 0 <= k < init.len() implies is_ascii_digit(#[trigger] init[k]) by {
                assert(init[k] == s[k]);
            }
        }
        lemma_ascii_value(init);
        assert(ascii(s).drop_last() =~= ascii(init));
        assert(is_ascii_digit(s.last()));
        assert(ascii(s).last() == s.last() as u8);
        assert((ascii(s).last() - 48) as nat == digit_value(s.last()));
    }
}

/// A bencoded byte string reads back as itself, whatever follows it.
pub proof fn lemma_read_string(b: Seq<u8>, tail: Seq<u8>)
    ensures
        read_string(bencode_string(b) + tail) == Some((b, tail)),
{
    lemma_decimal_bytes(b.len());
    let d = decimal_bytes(b.len());
    let bytes = bencode_string(b) + tail;
    let i = d.len() as int;
    assert forall|j: int| 0 <= j < i implies is_digit_byte(#[trigger] bytes[j]) by {
        assert(bytes[j] == d[j]);
    }
    assert(bytes[i] == 58);
    assert(is_length_colon(bytes, i));
    assert forall|k: int| is_length_colon(bytes, k) implies k == i by {
        if k < i {
            assert(is_digit_byte(bytes[k]));
        } else if k > i {
            assert(is_digit_byte(bytes[i]));
        }
    }
    assert(bytes.take(i) =~= d);
    assert(bytes.subrange(i + 1, i + 1 + b.len()) =~= b);
    assert(bytes.skip(i + 1 + b.len()) =~= tail);
}

/// Appends the decimal digits of `n`.
pub fn push_decimal(out: &mut Vec<u8>, n: u64)
    ensures
        final(out)@ == old(out)@ + decimal_bytes(n as nat),
    decreases n,
{
    if n < 10 {
        let d = (n as u8) + 48u8;
        out.push(d);
        assert(decimal(n as nat) == seq![crate::text::digit_char(n as nat)]);
        assert(decimal_bytes(n as nat) == seq![d]);
    } else {
        push_decimal(out, n / 10);
        let d = ((n % 10) as u8) + 48u8;
        out.push(d);
        let ghost q = decimal((n / 10) as nat);
        assert(decimal(n as nat) == q.push(crate::text::digit_char((n % 10) as nat)));
        assert(ascii(q.push(crate::text::digit_char((n % 10) as nat))) == ascii(q).push(d));
    }
}

/// Appends `b` as a bencoded byte string.
pub fn push_string(out: &mut Vec<u8>, b: &[u8])
    ensures
        final(out)@ == old(out)@ + bencode_string(b@),
{
    let ghost start = out@;
    push_decimal(out, b.len() as u64);
    out.push(58u8);
    out.extend_from_slice(b);
    assert(out@ == start + bencode_string(b@));
}

/// Appends `n` as a bencoded integer.
pub fn push_uint(out: &mut Vec<u8>, n: u64)
    ensures
        final(out)@ == old(out)@ + bencode_uint(n as nat),
{
    let ghost start = out@;
    out.push(105u8);
    push_decimal(out, n);
    out.push(101u8);
    assert(out@ == start + bencode_uint(n as nat));
}

} // verus!
