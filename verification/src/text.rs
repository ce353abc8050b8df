//! Character-level helpers shared by the parsers: decimal digits, splitting
//! on a separator, and decimal rendering of unsigned integers.
use vstd::prelude::*;

verus! {

pub open spec fn is_ascii_digit(c: char) -> bool {
    '0' <= c && c <= '9'
}

pub open spec fn all_digits(s: Seq<char>) -> bool {
    forall|i: int| 0 <= i < s.len() ==> is_ascii_digit(#[trigger] s[i])
}

pub open spec fn digit_value(c: char) -> nat {
    (c as int - '0' as int) as nat
}

/// The number that a string of decimal digits denotes (most significant first).
pub open spec fn digits_value(s: Seq<char>) -> nat
    decreases s.len(),
{
    if s.len() == 0 {
        0
    } else {
        digits_value(s.drop_last()) * 10 + digit_value(s.last())
    }
}

/// What `u16::from_str` accepts: an optional `+` followed by at least one
/// decimal digit, denoting a value that fits in 16 bits.
pub open spec fn spec_parse_u16(s: Seq<char>) -> Option<u16> {
    if s.len() == 0 {
        None
    } else {
        let d = if s[0] == '+' && s.len() > 1 { s.drop_first() } else { s };
        if all_digits(d) && digits_value(d) <= 0xffff {
            Some(digits_value(d) as u16)
        } else {
            None
        }
    }
}

/// `str::split(sep)`: the pieces between separators, in order (there is
/// always at least one piece).
pub open spec fn split_on(s: Seq<char>, sep: char) -> Seq<Seq<char>>
    decreases s.len(),
{
    if s.len() == 0 {
        seq![Seq::<char>::empty()]
    } else {
        let p = split_on(s.drop_last(), sep);
        if s.last() == sep {
            p.push(Seq::<char>::empty())
        } else {
            p.update(p.len() - 1, p.last().push(s.last()))
        }
    }
}

pub proof fn lemma_split_on_nonempty(s: Seq<char>, sep: char)
    ensures
        split_on(s, sep).len() >= 1,
    decreases s.len(),
{
    if s.len() > 0 {
        lemma_split_on_nonempty(s.drop_last(), sep);
    }
}

/// Decimal rendering of a natural number, without leading zeros.
pub open spec fn decimal(n: nat) -> Seq<char>
    decreases n,
{
    if n < 10 {
        seq![digit_char(n)]
    } else {
        decimal(n / 10).push(digit_char(n % 10))
    }
}

pub open spec fn digit_char(d: nat) -> char {
    ((d + '0' as nat) as u32) as char
}

/// Calls `String::push`. Claimed: the string's characters are the old ones
/// followed by `c`.
#[verifier::external_body]
pub(crate) fn push_char(s: &mut String, c: char)
    ensures
        final(s)@ == old(s)@.push(c),
{
    s.push(c)
}

/// A digit character has the value it was made from.
pub proof fn lemma_digit_char(d: nat)
    requires
        d < 10,
    ensures
        is_ascii_digit(digit_char(d)),
        digit_value(digit_char(d)) == d,
        d >= 1 ==> digit_char(d) != '0',
{
    let u: u32 = (d + 48) as u32;
    assert(u == d + 48);
    assert((u as char) as int == u as int);
}

/// The decimal rendering of `n` is a non-empty string of digits that denotes
/// `n`, starts with `0` only when it is `0`, and has at most as many digits as
/// `n` needs.
pub proof fn lemma_decimal(n: nat)
    ensures
        decimal(n).len() >= 1,
        all_digits(decimal(n)),
        digits_value(decimal(n)) == n,
        decimal(n).len() > 1 ==> decimal(n)[0] != '0',
        n >= 1 ==> decimal(n)[0] != '0',
        n < 10 ==> decimal(n).len() == 1,
        n < 100 ==> decimal(n).len() <= 2,
        n < 1000 ==> decimal(n).len() <= 3,
    decreases n,
{
    if n < 10 {
        lemma_digit_char(n);
        assert(decimal(n).drop_last() =~= Seq::<char>::empty());
        assert(digits_value(decimal(n).drop_last()) == 0);
        assert(decimal(n).last() == digit_char(n));
        assert(digits_value(decimal(n)) == n);
    } else {
        lemma_decimal(n / 10);
        lemma_digit_char(n % 10);
        let s = decimal(n / 10);
        let t = decimal(n);
        assert(t == s.push(digit_char(n % 10)));
        assert(t.drop_last() == s);
        assert(t[0] == s[0]);
        assert forall|i: int| 0 <= i < t.len() implies is_ascii_digit(#[trigger] t[i]) by {
            if i < s.len() {
                assert(t[i] == s[i]);
            }
        }
        assert(n == (n / 10) * 10 + n % 10);
        assert(digits_value(t) == digits_value(s) * 10 + digit_value(t.last()));
        assert(digits_value(s) == n / 10);
        assert(digit_value(t.last()) == n % 10);
        assert(digits_value(t) == n);
    }
}

/// Splitting `p + s`, where `s` holds no separator, extends the last piece of
/// `p` by `s`.
pub proof fn lemma_split_on_append(p: Seq<char>, s: Seq<char>, sep: char)
    requires
        forall|i: int| 0 <= i < s.len() ==> s[i] != sep,
    ensures
        split_on(p + s, sep) == split_on(p, sep).update(
            split_on(p, sep).len() - 1,
            split_on(p, sep).last() + s,
        ),
    decreases s.len(),
{
    lemma_split_on_nonempty(p, sep);
    let sp = split_on(p, sep);
    if s.len() == 0 {
        assert(p + s == p);
        assert(sp.last() + s == sp.last());
        assert(sp.update(sp.len() - 1, sp.last()) == sp);
    } else {
        let s0 = s.drop_last();
        lemma_split_on_append(p, s0, sep);
        assert(s0.len() < s.len());
        assert((p + s).drop_last() =~= p + s0);
        assert((p + s).last() == s.last());
        assert(s.last() != sep);
        let q = split_on(p + s0, sep);
        assert(q.len() == sp.len());
        assert(q.last() == sp.last() + s0);
        assert(split_on(p + s, sep) == q.update(q.len() - 1, q.last().push(s.last())));
        assert(q.last().push(s.last()) =~= sp.last() + s);
        assert(q.update(q.len() - 1, sp.last() + s) =~= sp.update(sp.len() - 1, sp.last() + s));
    }
}

/// The characters of a string slice, one per element.
pub fn str_chars(s: &str) -> (v: Vec<char>)
    ensures
        v@ == s@,
{
    broadcast use vstd::string::group_string_axioms;

    let mut v: Vec<char> = Vec::new();
    for c in iter: s.chars()
        invariant
            iter.seq() == s@,
            v@ == iter.seq().take(iter.index() as int),
    {
        v.push(c);
        assert(iter.seq().take(iter.index() + 1) == iter.seq().take(iter.index() as int).push(c));
    }
    v
}

/// Decimal value of a character already known to be a digit.
pub fn digit_of(c: char) -> (d: u32)
    requires
        is_ascii_digit(c),
    ensures
        d == digit_value(c),
        d < 10,
{
    (c as u32) - ('0' as u32)
}

/// `u16::from_str` on a sequence of characters.
pub fn parse_u16(s: &[char]) -> (r: Option<u16>)
    ensures
        r == spec_parse_u16(s@),
{
    let len = s.len();
    if len == 0 {
        return None;
    }
    let start: usize = if s[0] == '+' && len > 1 { 1 } else { 0 };
    let ghost d = if s@[0] == '+' && s@.len() > 1 { s@.drop_first() } else { s@ };
    assert(d == s@.subrange(start as int, len as int));
    let mut acc: u32 = 0;
    let mut i: usize = start;
    while i < len
        invariant
            start <= i <= len,
            len == s@.len(),
            d == s@.subrange(start as int, len as int),
            len > 0,
            d == (if s@[0] == '+' && s@.len() > 1 { s@.drop_first() } else { s@ }),
            all_digits(d.take(i - start)),
            acc == if digits_value(d.take(i - start)) > 0xffff { 0x10000 } else { digits_value(d.take(i - start)) },
        decreases len - i,
    {
        let c = s[i];
        if !('0' <= c && c <= '9') {
            assert(d[i - start] == c);
            assert(!is_ascii_digit(d[i - start]));
            return None;
        }
        let dg = digit_of(c);
        let ghost k = (i - start) as int;
        assert(d.take(k + 1).drop_last() == d.take(k));
        assert(d.take(k + 1).last() == c);
        if acc > 0xffff {
            acc = 0x10000;
        } else {
            acc = acc * 10 + dg;
            if acc > 0xffff {
                acc = 0x10000;
            }
        }
        i = i + 1;
        assert forall|j: int| 0 <= j < d.take(k + 1).len() implies is_ascii_digit(#[trigger] d.take(k + 1)[j]) by {
            if j < k {
                assert(d.take(k + 1)[j] == d.take(k)[j]);
            }
        }
    }
    assert(d.take(len - start) == d);
    if acc > 0xffff {
        None
    } else {
        Some(acc as u16)
    }
}

/// Splits a sequence of characters on every occurrence of `sep`.
pub fn split_chars(s: &[char], sep: char) -> (parts: Vec<Vec<char>>)
    ensures
        parts@.map_values(|p: Vec<char>| p@) == split_on(s@, sep),
{
    let mut done: Vec<Vec<char>> = Vec::new();
    let mut cur: Vec<char> = Vec::new();
    let mut i: usize = 0;
    while i < s.len()
        invariant
            0 <= i <= s@.len(),
            done@.map_values(|p: Vec<char>| p@).push(cur@) == split_on(s@.take(i as int), sep),
        decreases s@.len() - i,
    {
        let c = s[i];
        let ghost before = s@.take(i as int);
        assert(s@.take(i + 1).drop_last() == before);
        assert(s@.take(i + 1).last() == c);
        proof {
            lemma_split_on_nonempty(before, sep);
        }
        if c == sep {
            let finished = cur;
            cur = Vec::new();
            done.push(finished);
            assert(done@.map_values(|p: Vec<char>| p@) == split_on(before, sep));
        } else {
            let ghost old_done = done@.map_values(|p: Vec<char>| p@);
            cur.push(c);
            assert(done@.map_values(|p: Vec<char>| p@).push(cur@) == old_done.push(cur@));
        }
        i = i + 1;
    }
    assert(s@.take(s@.len() as int) == s@);
    done.push(cur);
    done
}

} // verus!
