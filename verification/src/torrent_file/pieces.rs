use vstd::prelude::*;

verus! {

/// The SHA-1 hashes of a torrent's pieces, twenty bytes each.
#[derive(Debug, Clone)]
pub struct Pieces(pub Vec<[u8; 20]>);

/// The hashes written one after the other.
pub open spec fn pieces_concat(ps: Seq<[u8; 20]>) -> Seq<u8>
    decreases ps.len(),
{
    if ps.len() == 0 {
        Seq::empty()
    } else {
        pieces_concat(ps.drop_last()) + ps.last()@
    }
}

/// `ps` is the sequence of whole twenty-byte chunks of `bytes`.
pub open spec fn is_chunking(bytes: Seq<u8>, ps: Seq<[u8; 20]>) -> bool {
    &&& ps.len() == bytes.len() / 20
    &&& forall|k: int| 0 <= k < ps.len() ==> (#[trigger] ps[k])@ == bytes.subrange(20 * k, 20 * k + 20)
}

impl Pieces {
    /// Cuts a byte string into twenty-byte hashes; a shorter tail is ignored.
    pub fn from_bytes(bytes: &[u8]) -> (p: Pieces)
        ensures
            is_chunking(bytes@, p.0@),
    {
        let len = bytes.len();
        let count = len / 20;
        let mut out: Vec<[u8; 20]> = Vec::new();
        let mut i: usize = 0;
        let mut pos: usize = 0;
        while i < count
            invariant
                len == bytes@.len(),
                count == bytes@.len() / 20,
                0 <= i <= count,
                pos == 20 * i,
                out@.len() == i,
                forall|k: int|
                    0 <= k < i ==> (#[trigger] out@[k])@ == bytes@.subrange(20 * k, 20 * k + 20),
            decreases count - i,
        {
            assert(pos + 20 <= bytes@.len()) by (nonlinear_arith)
                requires
                    pos == 20 * i,
                    i < count,
                    count == bytes@.len() / 20,
            ;
            let mut chunk = [0u8; 20];
            let mut j: usize = 0;
            while j < 20
                invariant
                    0 <= j <= 20,
                    pos == 20 * i,
                    i < count,
                    count == bytes@.len() / 20,
                    len == bytes@.len(),
                    pos + 20 <= bytes@.len(),
                    forall|m: int| 0 <= m < j ==> chunk@[m] == bytes@[pos + m],
                decreases 20 - j,
            {
                chunk[j] = bytes[pos + j];
                j = j + 1;
            }
            assert(chunk@ == bytes@.subrange(20 * i, 20 * i + 20));
            out.push(chunk);
            i = i + 1;
            pos = pos + 20;
        }
        Pieces(out)
    }

    /// The hashes concatenated back into one byte string.
    pub fn to_bytes(&self) -> (bytes: Vec<u8>)
        ensures
            bytes@ == pieces_concat(self.0@),
    {
        let mut out: Vec<u8> = Vec::new();
        let mut i: usize = 0;
        while i < self.0.len()
            invariant
                0 <= i <= self.0@.len(),
                out@ == pieces_concat(self.0@.take(i as int)),
            decreases self.0@.len() - i,
        {
            assert(self.0@.take(i + 1).drop_last() == self.0@.take(i as int));
            out.extend_from_slice(self.0[i].as_slice());
            i = i + 1;
        }
        assert(self.0@.take(self.0@.len() as int) == self.0@);
        out
    }

    pub fn len(&self) -> (n: usize)
        ensures
            n == self.0@.len(),
    {
        self.0.len()
    }

    /// The hashes, in piece order.
    pub fn as_slice(&self) -> (s: &[[u8; 20]])
        ensures
            s@ == self.0@,
    {
        self.0.as_slice()
    }
}

/// The concatenation of `n` hashes is `20 * n` bytes long, and hash `k` sits
/// at bytes `20 * k .. 20 * k + 20`.
pub proof fn lemma_pieces_concat_layout(ps: Seq<[u8; 20]>)
    ensures
        pieces_concat(ps).len() == 20 * ps.len(),
        forall|k: int|
            0 <= k < ps.len() ==> pieces_concat(ps).subrange(20 * k, 20 * k + 20) == (
            #[trigger] ps[k])@,
    decreases ps.len(),
{
    if ps.len() > 0 {
        let init = ps.drop_last();
        lemma_pieces_concat_layout(init);
        let c = pieces_concat(ps);
        assert(c == pieces_concat(init) + ps.last()@);
        assert forall|k: int| 0 <= k < ps.len() implies c.subrange(20 * k, 20 * k + 20) == (
        #[trigger] ps[k])@ by {
            if k < ps.len() - 1 {
                assert(init[k] == ps[k]);
                assert(c.subrange(20 * k, 20 * k + 20) == pieces_concat(init).subrange(
                    20 * k,
                    20 * k + 20,
                ));
            } else {
                assert(c.subrange(20 * k, 20 * k + 20) == ps.last()@);
            }
        }
    }
}

/// Writing hashes out and cutting the bytes up again gives the same hashes.
pub proof fn lemma_pieces_roundtrip(ps: Seq<[u8; 20]>, again: Seq<[u8; 20]>)
    requires
        is_chunking(pieces_concat(ps), again),
    ensures
        again.len() == ps.len(),
        forall|k: int| 0 <= k < ps.len() ==> (#[trigger] again[k])@ == ps[k]@,
{
    lemma_pieces_concat_layout(ps);
    assert forall|k: int| 0 <= k < ps.len() implies (#[trigger] again[k])@ == ps[k]@ by {
        assert(again[k]@ == pieces_concat(ps).subrange(20 * k, 20 * k + 20));
    }
}

/// Cutting bytes into hashes and writing them out again gives back the bytes,
/// less a tail shorter than twenty bytes.
pub proof fn lemma_bytes_roundtrip(bytes: Seq<u8>, ps: Seq<[u8; 20]>)
    requires
        is_chunking(bytes, ps),
    ensures
        pieces_concat(ps) == bytes.take(20 * (bytes.len() / 20) as int),
{
    lemma_pieces_concat_layout(ps);
    let c = pieces_concat(ps);
    let t = bytes.take(20 * (bytes.len() / 20) as int);
    assert forall|m: int| 0 <= m < c.len() implies c[m] == t[m] by {
        let k = m / 20;
        assert(0 <= k < ps.len());
        assert(20 * k <= m < 20 * k + 20);
        assert(c.subrange(20 * k, 20 * k + 20)[m - 20 * k] == c[m]);
        assert(ps[k]@ == bytes.subrange(20 * k, 20 * k + 20));
    }
    assert(c =~= t);
}

} // verus!
