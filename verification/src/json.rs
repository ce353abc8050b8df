//! A JSON view of bencoded values.
use vstd::prelude::*;
use vstd::utf8::{decode_utf8, encode_utf8, valid_utf8};

verus! {

/// A bencoded value.
#[derive(Debug)]
pub enum BencodeValue {
    Bytes(Vec<u8>),
    Integer(i64),
    List(Vec<BencodeValue>),
    /// Entries in the order they were read; keys are byte strings.
    Dict(Vec<(Vec<u8>, BencodeValue)>),
}

/// A JSON value, as this library produces them.
#[derive(Debug)]
pub enum JsonValue {
    Text(String),
    Number(i64),
    Array(Vec<JsonValue>),
    /// Members with pairwise distinct names.
    Object(Vec<(String, JsonValue)>),
}

/// The mathematical JSON value: objects are maps from names to values.
pub enum Json {
    Text(Seq<char>),
    Number(int),
    Array(Seq<Json>),
    Object(Map<Seq<char>, Json>),
}

/// Inserting pairs one after the other into an empty map: a later pair with
/// the same key replaces an earlier one.
pub open spec fn pairs_to_map(ps: Seq<(Seq<char>, Json)>) -> Map<Seq<char>, Json>
    decreases ps.len(),
{
    if ps.len() == 0 {
        Map::empty()
    } else {
        pairs_to_map(ps.drop_last()).insert(ps.last().0, ps.last().1)
    }
}

/// The models of a sequence of JSON values.
pub open spec fn json_models(a: Seq<JsonValue>) -> Seq<Json>
    decreases a,
{
    Seq::new(a.len(), |i: int| if 0 <= i < a.len() { a[i].model() } else { Json::Number(0) })
}

/// The (name, value) pairs of an object's members.
pub open spec fn member_pairs(o: Seq<(String, JsonValue)>) -> Seq<(Seq<char>, Json)>
    decreases o,
{
    Seq::new(
        o.len(),
        |i: int|
            if 0 <= i < o.len() {
                (o[i].0@, o[i].1.model())
            } else {
                (Seq::empty(), Json::Number(0))
            },
    )
}

impl JsonValue {
    /// The mathematical value that this one denotes.
    pub open spec fn model(self) -> Json
        decreases self,
    {
        match self {
            JsonValue::Text(s) => Json::Text(s@),
            JsonValue::Number(n) => Json::Number(n as int),
            JsonValue::Array(a) => Json::Array(json_models(a@)),
            JsonValue::Object(o) => Json::Object(pairs_to_map(member_pairs(o@))),
        }
    }
}

/// What `String::from_utf8_lossy` makes of a byte string.
pub uninterp spec fn lossy_utf8(bytes: Seq<u8>) -> Seq<char>;

/// Calls `String::from_utf8_lossy`. Claimed: the result is a function of the
/// bytes alone, and valid UTF-8 is decoded as it stands. How invalid sequences
/// are replaced by U+FFFD is left unsaid.
#[verifier::external_body]
fn utf8_lossy(bytes: &[u8]) -> (s: String)
    ensures
        s@ == lossy_utf8(bytes@),
        valid_utf8(bytes@) ==> s@ == decode_utf8(bytes@),
{
    String::from_utf8_lossy(bytes).into_owned()
}

/// The JSON view of a bencoded value: byte strings become text (invalid UTF-8
/// replaced), integers numbers, lists arrays, and dictionaries objects whose
/// names are the keys as text; where two keys read as the same text, the
/// later entry wins.
pub open spec fn bencode_json(b: BencodeValue) -> Json
    decreases b,
{
    match b {
        BencodeValue::Bytes(bs) => Json::Text(lossy_utf8(bs@)),
        BencodeValue::Integer(n) => Json::Number(n as int),
        BencodeValue::List(l) => Json::Array(bencode_jsons(l@)),
        BencodeValue::Dict(d) => Json::Object(pairs_to_map(entry_pairs(d@))),
    }
}

/// The JSON views of a sequence of bencoded values.
pub open spec fn bencode_jsons(l: Seq<BencodeValue>) -> Seq<Json>
    decreases l,
{
    Seq::new(l.len(), |i: int| if 0 <= i < l.len() { bencode_json(l[i]) } else { Json::Number(0) })
}

/// The (name, value) pairs that a dictionary's entries give.
pub open spec fn entry_pairs(d: Seq<(Vec<u8>, BencodeValue)>) -> Seq<(Seq<char>, Json)>
    decreases d,
{
    Seq::new(
        d.len(),
        |i: int|
            if 0 <= i < d.len() {
                (lossy_utf8(d[i].0@), bencode_json(d[i].1))
            } else {
                (Seq::empty(), Json::Number(0))
            },
    )
}

pub open spec fn distinct_names(o: Seq<(String, JsonValue)>) -> bool {
    forall|a: int, b: int| 0 <= a < o.len() && 0 <= b < o.len() && a != b ==> (#[trigger] o[a]).0@
        != (#[trigger] o[b]).0@
}

/// Every 64-bit integer reads as the JSON number with the same value, and
/// distinct integers read as distinct numbers.
pub proof fn lemma_integer_json(n: i64, m: i64)
    ensures
        bencode_json(BencodeValue::Integer(n)) == Json::Number(n as int),
        (JsonValue::Number(n)).model() == Json::Number(n as int),
        n != m ==> bencode_json(BencodeValue::Integer(n)) != bencode_json(BencodeValue::Integer(m)),
{
}

/// Every byte string inside `b`, dictionary keys included, that is valid
/// UTF-8 reads as its UTF-8 decoding.
pub open spec fn texts_decoded(b: BencodeValue) -> bool
    decreases b,
{
    match b {
        BencodeValue::Bytes(bs) => valid_utf8(bs@) ==> lossy_utf8(bs@) == decode_utf8(bs@),
        BencodeValue::Integer(_) => true,
        BencodeValue::List(l) => forall|i: int|
            0 <= i < l@.len() ==> texts_decoded(#[trigger] l@[i]),
        BencodeValue::Dict(d) => forall|i: int|
            0 <= i < d@.len() ==> (valid_utf8((#[trigger] d@[i]).0@) ==> lossy_utf8(d@[i].0@)
                == decode_utf8(d@[i].0@)) && texts_decoded(d@[i].1),
    }
}

/// The keys of a dictionary's entries are valid UTF-8 and pairwise distinct.
pub open spec fn distinct_text_keys(d: Seq<(Vec<u8>, BencodeValue)>) -> bool {
    &&& forall|i: int| 0 <= i < d.len() ==> valid_utf8((#[trigger] d[i]).0@)
    &&& forall|a: int, c: int|
        0 <= a < d.len() && 0 <= c < d.len() && a != c ==> (#[trigger] d[a]).0@ != (
        #[trigger] d[c]).0@
}

/// Pairs with distinct keys give a map with one entry per pair.
proof fn lemma_pairs_to_map_distinct(ps: Seq<(Seq<char>, Json)>)
    requires
        forall|a: int, b: int| 0 <= a < ps.len() && 0 <= b < ps.len() && a != b ==> (#[trigger] ps[a]).0 != (#[trigger] ps[b]).0,
    ensures
        pairs_to_map(ps).dom().finite(),
        pairs_to_map(ps).len() == ps.len(),
        forall|i: int| 0 <= i < ps.len() ==> pairs_to_map(ps).contains_key((#[trigger] ps[i]).0)
            && pairs_to_map(ps)[ps[i].0] == ps[i].1,
        forall|k: Seq<char>| #[trigger] pairs_to_map(ps).contains_key(k) ==> exists|i: int| 0 <= i < ps.len() && ps[i].0 == k,
    decreases ps.len(),
{
    if ps.len() > 0 {
        let init = ps.drop_last();
        lemma_pairs_to_map_distinct(init);
        let m0 = pairs_to_map(init);
        let last = ps.last();
        assert(!m0.contains_key(last.0)) by {
            if m0.contains_key(last.0) {
                let i = choose|i: int| 0 <= i < init.len() && init[i].0 == last.0;
                assert(ps[i] == init[i]);
                assert(ps[ps.len() - 1] == last);
            }
        }
        assert(m0.dom().insert(last.0).len() == m0.dom().len() + 1);
        assert(pairs_to_map(ps).dom() == m0.dom().insert(last.0));
        assert forall|i: int| 0 <= i < ps.len() implies pairs_to_map(ps).contains_key((#[trigger] ps[i]).0)
            && pairs_to_map(ps)[ps[i].0] == ps[i].1 by {
            if i < ps.len() - 1 {
                assert(ps[i] == init[i]);
                assert(ps[i].0 != last.0);
            }
        }
        assert forall|k: Seq<char>| #[trigger] pairs_to_map(ps).contains_key(k) implies exists|i: int| 0 <= i < ps.len() && ps[i].0 == k by {
            if k != last.0 {
                let i = choose|i: int| 0 <= i < init.len() && init[i].0 == k;
                assert(ps[i] == init[i]);
            } else {
                assert(ps[ps.len() - 1].0 == k);
            }
        }
    }
}

/// A dictionary whose keys are distinct UTF-8 texts reads as an object with
/// one member per entry: the key's text, with the entry's value's JSON view.
proof fn lemma_dict_object(d: Seq<(Vec<u8>, BencodeValue)>)
    requires
        distinct_text_keys(d),
        forall|i: int| 0 <= i < d.len() ==> lossy_utf8((#[trigger] d[i]).0@) == decode_utf8(d[i].0@),
    ensures
        pairs_to_map(entry_pairs(d)).len() == d.len(),
        forall|i: int| 0 <= i < d.len() ==> pairs_to_map(entry_pairs(d)).contains_key(decode_utf8((#[trigger] d[i]).0@))
            && pairs_to_map(entry_pairs(d))[decode_utf8(d[i].0@)] == bencode_json(d[i].1),
{
    broadcast use vstd::utf8::decode_utf8_encode_utf8;

    let ps = entry_pairs(d);
    assert forall|a: int, b: int| 0 <= a < ps.len() && 0 <= b < ps.len() && a != b implies (#[trigger] ps[a]).0 != (#[trigger] ps[b]).0 by {
        assert(ps[a].0 == decode_utf8(d[a].0@));
        assert(ps[b].0 == decode_utf8(d[b].0@));
        assert(d[a].0@ != d[b].0@);
        assert(encode_utf8(decode_utf8(d[a].0@)) == d[a].0@);
        assert(encode_utf8(decode_utf8(d[b].0@)) == d[b].0@);
    }
    lemma_pairs_to_map_distinct(ps);
    assert forall|i: int| 0 <= i < d.len() implies pairs_to_map(ps).contains_key(decode_utf8((#[trigger] d[i]).0@))
        && pairs_to_map(ps)[decode_utf8(d[i].0@)] == bencode_json(d[i].1) by {
        assert(ps[i] == (decode_utf8(d[i].0@), bencode_json(d[i].1)));
    }
}

/// Replacing the value of one pair, among pairs with distinct keys, is an
/// insertion into the map they give.
proof fn lemma_pairs_to_map_update(ps: Seq<(Seq<char>, Json)>, idx: int, v: Json)
    requires
        0 <= idx < ps.len(),
        forall|a: int, b: int| 0 <= a < ps.len() && 0 <= b < ps.len() && a != b ==> (#[trigger] ps[a]).0 != (#[trigger] ps[b]).0,
    ensures
        pairs_to_map(ps.update(idx, (ps[idx].0, v))) == pairs_to_map(ps).insert(ps[idx].0, v),
    decreases ps.len(),
{
    let up = ps.update(idx, (ps[idx].0, v));
    let n = ps.len() - 1;
    if idx == n {
        assert(up.drop_last() == ps.drop_last());
        assert(pairs_to_map(up) =~= pairs_to_map(ps).insert(ps[idx].0, v));
    } else {
        let init = ps.drop_last();
        assert(init[idx] == ps[idx]);
        lemma_pairs_to_map_update(init, idx, v);
        assert(up.drop_last() == init.update(idx, (init[idx].0, v)));
        assert(ps[n].0 != ps[idx].0);
        assert(pairs_to_map(up) =~= pairs_to_map(ps).insert(ps[idx].0, v));
    }
}

/// The JSON view of a bencoded value; see [`bencode_json`].
#[verifier::loop_isolation(false)]
pub fn bencode_to_json(b: &BencodeValue) -> (j: JsonValue)
    ensures
        j.model() == bencode_json(*b),
        j matches JsonValue::Object(o) ==> distinct_names(o@),
        b matches BencodeValue::Bytes(bs) ==> (valid_utf8(bs@) ==> (j matches JsonValue::Text(t)
            && t@ == decode_utf8(bs@))),
        texts_decoded(*b),
        b matches BencodeValue::Integer(n) ==> j matches JsonValue::Number(m) && m == n,
        b matches BencodeValue::Dict(d) ==> (distinct_text_keys(d@) ==> (j.model() matches Json::Object(m)
            && m.len() == d@.len() && forall|i: int| 0 <= i < d@.len() ==> m.contains_key(
            decode_utf8((#[trigger] d@[i]).0@)) && m[decode_utf8(d@[i].0@)] == bencode_json(d@[i].1))),
    decreases b,
{
    match b {
        BencodeValue::Bytes(bs) => JsonValue::Text(utf8_lossy(bs.as_slice())),
        BencodeValue::Integer(n) => JsonValue::Number(*n),
        BencodeValue::List(l) => {
            let mut out: Vec<JsonValue> = Vec::new();
            let mut i: usize = 0;
            while i < l.len()
                invariant
                    0 <= i <= l@.len(),
                    out@.len() == i,
                    forall|k: int| 0 <= k < i ==> (#[trigger] out@[k]).model() == bencode_json(l@[k]),
                    forall|k: int| 0 <= k < i ==> texts_decoded(#[trigger] l@[k]),
                decreases l@.len() - i,
            {
                proof {
                    assert(decreases_to!(*b => l@[i as int]));
                }
                let item = bencode_to_json(&l[i]);
                out.push(item);
                i = i + 1;
            }
            let j = JsonValue::Array(out);
            assert(json_models(out@) =~= bencode_jsons(l@));
            j
        },
        BencodeValue::Dict(d) => {
            let mut out: Vec<(String, JsonValue)> = Vec::new();
            let mut i: usize = 0;
            while i < d.len()
                invariant
                    0 <= i <= d@.len(),
                    distinct_names(out@),
                    forall|k: int| 0 <= k < i ==> (valid_utf8((#[trigger] d@[k]).0@) ==> lossy_utf8(d@[k].0@)
                        == decode_utf8(d@[k].0@)) && texts_decoded(d@[k].1),
                    pairs_to_map(member_pairs(out@)) == pairs_to_map(entry_pairs(d@).take(i as int)),
                decreases d@.len() - i,
            {
                let name = utf8_lossy(d[i].0.as_slice());
                proof {
                    assert(decreases_to!(*b => d@[i as int].1));
                }
                let value = bencode_to_json(&d[i].1);
                let ghost old_out = out@;
                let ghost pair = (name@, value.model());
                assert(entry_pairs(d@)[i as int] == pair);
                assert(entry_pairs(d@).take(i + 1) == entry_pairs(d@).take(i as int).push(pair));
                assert(entry_pairs(d@).take(i + 1).drop_last() == entry_pairs(d@).take(i as int));
                assert(pairs_to_map(entry_pairs(d@).take(i + 1)) == pairs_to_map(entry_pairs(d@).take(i as int)).insert(pair.0, pair.1));
                let mut k: usize = 0;
                while k < out.len() && !(out[k].0 == name)
                    invariant
                        0 <= k <= out@.len(),
                        forall|m: int| 0 <= m < k ==> (#[trigger] out@[m]).0@ != name@,
                    decreases out@.len() - k,
                {
                    k = k + 1;
                }
                if k < out.len() {
                    proof {
                        let ps = member_pairs(old_out);
                        assert forall|a: int, c: int| 0 <= a < ps.len() && 0 <= c < ps.len() && a != c implies (#[trigger] ps[a]).0 != (#[trigger] ps[c]).0 by {
                            assert(old_out[a].0@ != old_out[c].0@);
                        }
                        lemma_pairs_to_map_update(ps, k as int, value.model());
                    }
                    out.set(k, (name, value));
                    assert(member_pairs(out@) =~= member_pairs(old_out).update(k as int, (member_pairs(old_out)[k as int].0, pair.1)));
                    assert(member_pairs(old_out)[k as int].0 == pair.0);
                    assert(pairs_to_map(member_pairs(out@)) == pairs_to_map(member_pairs(old_out)).insert(pair.0, pair.1));
                    assert forall|a: int, c: int| 0 <= a < out@.len() && 0 <= c < out@.len() && a != c implies (#[trigger] out@[a]).0@ != (#[trigger] out@[c]).0@ by {
                        if a != k && c != k {
                            assert(old_out[a] == out@[a] && old_out[c] == out@[c]);
                        } else if a == k {
                            assert(old_out[c] == out@[c]);
                            assert(old_out[k as int].0@ == name@);
                        } else {
                            assert(old_out[a] == out@[a]);
                            assert(old_out[k as int].0@ == name@);
                        }
                    }
                } else {
                    out.push((name, value));
                    assert(member_pairs(out@).drop_last() =~= member_pairs(old_out));
                    assert(member_pairs(out@).last() == pair);
                    assert(pairs_to_map(member_pairs(out@)) == pairs_to_map(member_pairs(old_out)).insert(pair.0, pair.1));
                    assert forall|a: int, c: int| 0 <= a < out@.len() && 0 <= c < out@.len() && a != c implies (#[trigger] out@[a]).0@ != (#[trigger] out@[c]).0@ by {
                        if a < old_out.len() && c < old_out.len() {
                            assert(old_out[a] == out@[a] && old_out[c] == out@[c]);
                        } else if a == old_out.len() {
                            assert(old_out[c] == out@[c]);
                        } else {
                            assert(old_out[a] == out@[a]);
                        }
                    }
                }
                i = i + 1;
            }
            assert(entry_pairs(d@).take(d@.len() as int) == entry_pairs(d@));
            proof {
                if distinct_text_keys(d@) {
                    lemma_dict_object(d@);
                }
            }
            let j = JsonValue::Object(out);
            j
        },
    }
}

#[verifier::external_type_specification]
#[verifier::external_body]
pub struct ExBendyValue<'a>(bendy::value::Value<'a>);

/// The value that bendy decodes from a byte string, if it decodes one.
pub uninterp spec fn bencode_decoded(bytes: Seq<u8>) -> Option<BencodeValue>;

/// Rewrites a value decoded by bendy in this library's form, variant for
/// variant; dictionary entries keep bendy's (ascending) key order.
#[verifier::external_body]
fn from_bendy(v: &bendy::value::Value) -> BencodeValue {
    match v {
        bendy::value::Value::Bytes(b) => BencodeValue::Bytes(b.to_vec()),
        bendy::value::Value::Integer(n) => BencodeValue::Integer(*n),
        bendy::value::Value::List(l) => BencodeValue::List(l.iter().map(from_bendy).collect()),
        bendy::value::Value::Dict(d) => BencodeValue::Dict(
            d.iter().map(|(k, x)| (k.to_vec(), from_bendy(x))).collect(),
        ),
    }
}

/// Byte strings in lexicographic order: `a` comes strictly before `b`.
pub open spec fn bytes_lt(a: Seq<u8>, b: Seq<u8>) -> bool
    decreases a.len(),
{
    if a.len() == 0 {
        b.len() > 0
    } else if b.len() == 0 {
        false
    } else if a[0] != b[0] {
        a[0] < b[0]
    } else {
        bytes_lt(a.drop_first(), b.drop_first())
    }
}

/// No byte string comes strictly before itself.
pub proof fn lemma_bytes_lt_irreflexive(a: Seq<u8>)
    ensures
        !bytes_lt(a, a),
    decreases a.len(),
{
    if a.len() > 0 {
        lemma_bytes_lt_irreflexive(a.drop_first());
    }
}

/// Every dictionary inside `b` lists its entries with keys in strictly
/// ascending byte order, as a sorted map does.
pub open spec fn keys_ascending(b: BencodeValue) -> bool
    decreases b,
{
    match b {
        BencodeValue::Bytes(_) => true,
        BencodeValue::Integer(_) => true,
        BencodeValue::List(l) => forall|i: int|
            0 <= i < l@.len() ==> keys_ascending(#[trigger] l@[i]),
        BencodeValue::Dict(d) => (forall|a: int, c: int|
            0 <= a < c < d@.len() ==> bytes_lt((#[trigger] d@[a]).0@, (#[trigger] d@[c]).0@))
            && forall|i: int| 0 <= i < d@.len() ==> keys_ascending((#[trigger] d@[i]).1),
    }
}

/// Keys in strictly ascending order are pairwise distinct.
pub proof fn lemma_ascending_keys_distinct(d: Seq<(Vec<u8>, BencodeValue)>)
    requires
        forall|a: int, c: int| 0 <= a < c < d.len() ==> bytes_lt((#[trigger] d[a]).0@, (#[trigger] d[c]).0@),
    ensures
        forall|a: int, c: int| 0 <= a < d.len() && 0 <= c < d.len() && a != c ==> (#[trigger] d[a]).0@ != (#[trigger] d[c]).0@,
{
    assert forall|a: int, c: int| 0 <= a < d.len() && 0 <= c < d.len() && a != c implies (#[trigger] d[a]).0@ != (#[trigger] d[c]).0@ by {
        lemma_bytes_lt_irreflexive(d[a].0@);
        if a < c {
            assert(bytes_lt(d[a].0@, d[c].0@));
        } else {
            assert(bytes_lt(d[c].0@, d[a].0@));
        }
    }
}

/// A dictionary with keys in ascending order whose keys are all valid UTF-8
/// reads as an object with one member per entry: the key's text, with the
/// JSON view of the entry's value.
pub proof fn lemma_ascending_dict_json(b: BencodeValue)
    requires
        b is Dict,
        keys_ascending(b),
        texts_decoded(b),
        forall|i: int| 0 <= i < b->Dict_0@.len() ==> valid_utf8((#[trigger] b->Dict_0@[i]).0@),
    ensures
        bencode_json(b) matches Json::Object(m) && m.len() == b->Dict_0@.len() && forall|i: int|
            0 <= i < b->Dict_0@.len() ==> m.contains_key(decode_utf8((#[trigger] b->Dict_0@[i]).0@))
                && m[decode_utf8(b->Dict_0@[i].0@)] == bencode_json(b->Dict_0@[i].1),
{
    let d = b->Dict_0@;
    lemma_ascending_keys_distinct(d);
    assert forall|i: int| 0 <= i < d.len() implies lossy_utf8((#[trigger] d[i]).0@) == decode_utf8(d[i].0@) by {
        assert(valid_utf8(d[i].0@));
    }
    lemma_dict_object(d);
}

/// Calls `bendy::serde::from_bytes` for a `bendy::value::Value`. Claimed: the
/// outcome depends on the bytes alone, and every dictionary in a decoded value
/// has its keys in strictly ascending byte order, as bendy keeps dictionaries
/// in a `BTreeMap` keyed by the byte strings. Which inputs bendy accepts is
/// left unsaid.
#[verifier::external_body]
fn decode_bencode(bytes: &[u8]) -> (v: Option<BencodeValue>)
    ensures
        v == bencode_decoded(bytes@),
        v matches Some(x) ==> keys_ascending(x),
{
    match bendy::serde::from_bytes::<bendy::value::Value>(bytes) {
        Ok(value) => Some(from_bendy(&value)),
        Err(_) => None,
    }
}

/// Decodes a bencoded byte string and gives its JSON view; `None` where the
/// bytes do not decode.
pub fn decode_to_json(encoded: &[u8]) -> (j: Option<JsonValue>)
    ensures
        match j {
            Some(j) => bencode_decoded(encoded@) is Some && j.model() == bencode_json(
                bencode_decoded(encoded@)->0,
            ) && keys_ascending(bencode_decoded(encoded@)->0) && texts_decoded(
                bencode_decoded(encoded@)->0,
            ),
            None => bencode_decoded(encoded@) is None,
        },
        j matches Some(j) ==> (bencode_decoded(encoded@)->0 matches BencodeValue::Dict(d) ==> ((
        forall|i: int| 0 <= i < d@.len() ==> valid_utf8((#[trigger] d@[i]).0@)) ==> (j.model() matches Json::Object(m)
            && m.len() == d@.len() && forall|i: int| 0 <= i < d@.len() ==> m.contains_key(
            decode_utf8((#[trigger] d@[i]).0@)) && m[decode_utf8(d@[i].0@)] == bencode_json(d@[i].1)))),
{
    match decode_bencode(encoded) {
        Some(v) => {
            let j = bencode_to_json(&v);
            proof {
                if v is Dict && forall|i: int| 0 <= i < v->Dict_0@.len() ==> valid_utf8((#[trigger] v->Dict_0@[i]).0@) {
                    lemma_ascending_dict_json(v);
                }
            }
            Some(j)
        },
        None => None,
    }
}

} // verus!
