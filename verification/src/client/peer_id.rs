use vstd::prelude::*;
use vstd::utf8::encode_utf8;
use rand::{distributions::Alphanumeric, Rng};
use crate::text::{push_char, str_chars};

verus! {

/// The version of this client, as it appears in peer ids.
pub const VERSION: &'static str = "0.1.0";

pub open spec fn is_ascii_alphanumeric(c: char) -> bool {
    ('0' <= c && c <= '9') || ('A' <= c && c <= 'Z') || ('a' <= c && c <= 'z')
}

/// The text with every `.` removed.
pub open spec fn without_dots(s: Seq<char>) -> Seq<char>
    decreases s.len(),
{
    if s.len() == 0 {
        s
    } else if s.last() == '.' {
        without_dots(s.drop_last())
    } else {
        without_dots(s.drop_last()).push(s.last())
    }
}

/// The fixed start of this client's peer ids: `-TH`, the version's parts
/// without their dots, `-`.
pub open spec fn peer_id_prefix(version: Seq<char>) -> Seq<char> {
    seq!['-', 'T', 'H'] + without_dots(version) + seq!['-']
}

/// The number of bytes of a peer id that follow the prefix.
pub open spec fn random_part_len(version: Seq<char>) -> int {
    20 - encode_utf8(peer_id_prefix(version)).len()
}

/// A peer id: twenty bytes that name this client to other peers.
#[derive(Debug, Clone)]
pub struct PeerId(String);

impl View for PeerId {
    type V = Seq<char>;

    /// The peer id's characters.
    closed spec fn view(&self) -> Seq<char> {
        self.0@
    }
}

/// Calls rand's `thread_rng().sample_iter(&Alphanumeric)` and keeps `len`
/// samples. Claimed: `len` characters, each an ASCII letter or digit; which
/// ones is left to chance.
#[verifier::external_body]
fn random_alphanumeric(len: usize) -> (s: String)
    ensures
        s@.len() == len,
        forall|i: int| 0 <= i < s@.len() ==> is_ascii_alphanumeric(#[trigger] s@[i]),
{
    rand::thread_rng().sample_iter(&Alphanumeric).take(len).map(char::from).collect()
}

fn prefix_for(version: &str) -> (p: String)
    ensures
        p@ == peer_id_prefix(version@),
{
    let mut p = String::new();
    push_char(&mut p, '-');
    push_char(&mut p, 'T');
    push_char(&mut p, 'H');
    let v = str_chars(version);
    let mut i: usize = 0;
    while i < v.len()
        invariant
            0 <= i <= v@.len(),
            v@ == version@,
            p@ == seq!['-', 'T', 'H'] + without_dots(v@.take(i as int)),
        decreases v@.len() - i,
    {
        assert(v@.take(i + 1).drop_last() == v@.take(i as int));
        let c = v[i];
        if c != '.' {
            push_char(&mut p, c);
        }
        i = i + 1;
    }
    assert(v@.take(v@.len() as int) == v@);
    push_char(&mut p, '-');
    p
}

impl PeerId {
    /// The peer id for `version`: its prefix followed by the first characters
    /// of `random`, as many characters as twenty less the prefix's byte length
    /// (which fills twenty bytes when `random` is ASCII).
    pub fn with_random(version: &str, random: &str) -> (id: PeerId)
        requires
            random_part_len(version@) >= 0,
            random@.len() >= random_part_len(version@),
        ensures
            id@ == peer_id_prefix(version@) + random@.take(random_part_len(version@)),
    {
        let mut id = prefix_for(version);
        let n = 20 - id.as_str().len();
        let r = str_chars(random);
        let mut i: usize = 0;
        while i < n
            invariant
                0 <= i <= n,
                n == random_part_len(version@),
                r@ == random@,
                r@.len() >= n,
                id@ == peer_id_prefix(version@) + r@.take(i as int),
            decreases n - i,
        {
            assert(r@.take(i + 1) == r@.take(i as int).push(r@[i as int]));
            push_char(&mut id, r[i]);
            i = i + 1;
        }
        PeerId(id)
    }

    /// The peer id as text.
    pub fn as_str(&self) -> (s: &str)
        ensures
            s@ == self@,
    {
        self.0.as_str()
    }
}

impl Default for PeerId {
    /// A fresh peer id: the prefix for this version, then random ASCII
    /// letters and digits up to twenty bytes.
    fn default() -> (id: Self)
        ensures
            id@.len() == 20,
            vstd::utf8::is_ascii_chars(id@),
            id@.take(peer_id_prefix(VERSION@).len() as int) == peer_id_prefix(VERSION@),
            forall|i: int|
                peer_id_prefix(VERSION@).len() <= i < 20 ==> is_ascii_alphanumeric(
                    #[trigger] id@[i],
                ),
    {
        let ghost pre = peer_id_prefix(VERSION@);
        proof {
            reveal_strlit("0.1.0");
            reveal_with_fuel(without_dots, 6);
            assert(pre == seq!['-', 'T', 'H', '0', '1', '0', '-']);
            vstd::utf8::is_ascii_chars_encode_utf8(pre);
        }
        let prefix = prefix_for(VERSION);
        let n = 20 - prefix.as_str().len();
        let random = random_alphanumeric(n);
        let id = PeerId::with_random(VERSION, random.as_str());
        assert(random@.take(13) == random@);
        assert(vstd::utf8::is_ascii_chars(id.0@)) by {
            assert forall|i: int| 0 <= i < id.0@.len() implies '\0' <= #[trigger] id.0@[i]
                <= '\u{7f}' by {
                if i >= 7 {
                    assert(id.0@[i] == random@[i - 7]);
                }
            }
        }
        id
    }
}

} // verus!
