//! The byte form of pages: integers are eight bytes, most significant first;
//! a byte string is its length and its bytes; a map is its length and its
//! entries in key order. A page is padded with zeros to the page size.
use crate::bytes::{be64, from_be64, lemma_be64_round_trip};
use vstd::prelude::*;

verus! {

/// A chunk as the contracts see it: the next page of the chain (0 ends it) and the bytes.
pub type ChunkView = (u64, Seq<u8>);

/// The entries of a data page as the contracts see them: logical index and chunk.
pub type ChunkSeq = Seq<(u64, ChunkView)>;

/// The entries of an index map: key and value.
pub type PairSeq = Seq<(u64, u64)>;

/// The bytes of the entries of an index map.
pub open spec fn pairs_bytes(s: PairSeq) -> Seq<u8>
    decreases s.len(),
{
    if s.len() == 0 {
        Seq::empty()
    } else {
        pairs_bytes(s.drop_last()) + be64(s.last().0) + be64(s.last().1)
    }
}

/// The bytes of one chunk entry.
pub open spec fn chunk_bytes(e: (u64, ChunkView)) -> Seq<u8> {
    be64(e.0) + be64(e.1.0) + be64(e.1.1.len() as u64) + e.1.1
}

/// The bytes of the entries of a data page.
pub open spec fn chunks_bytes(s: ChunkSeq) -> Seq<u8>
    decreases s.len(),
{
    if s.len() == 0 {
        Seq::empty()
    } else {
        chunks_bytes(s.drop_last()) + chunk_bytes(s.last())
    }
}

/// How many bytes the entries of a data page take.
pub open spec fn chunks_size(s: ChunkSeq) -> int
    decreases s.len(),
{
    if s.len() == 0 {
        0
    } else {
        chunks_size(s.drop_last()) + 24 + s.last().1.1.len()
    }
}

/// How many bytes a data page takes before padding.
pub open spec fn data_page_size(s: ChunkSeq) -> int {
    8 + chunks_size(s)
}

/// How many bytes a meta page takes before padding.
pub open spec fn meta_page_size(index: PairSeq, sizes: PairSeq) -> int {
    24 + 16 * (index.len() as int) + 16 * (sizes.len() as int)
}

/// The bytes of a data page before padding.
pub open spec fn data_page_bytes(s: ChunkSeq) -> Seq<u8> {
    be64(s.len() as u64) + chunks_bytes(s)
}

/// The bytes of a meta page before padding.
pub open spec fn meta_page_bytes(next: u64, index: PairSeq, sizes: PairSeq) -> Seq<u8> {
    be64(next) + be64(index.len() as u64) + pairs_bytes(index) + be64(sizes.len() as u64)
        + pairs_bytes(sizes)
}

/// `bytes` followed by zeros up to `size` bytes.
pub open spec fn padded(bytes: Seq<u8>, size: int) -> Seq<u8> {
    bytes + Seq::new((size - bytes.len()) as nat, |i: int| 0u8)
}

/// The integer at `pos`, if eight bytes are there.
pub open spec fn parse_u64(bytes: Seq<u8>, pos: int) -> Option<u64> {
    if 0 <= pos && pos + 8 <= bytes.len() {
        Some(from_be64(bytes.subrange(pos, pos + 8)))
    } else {
        None
    }
}

/// The first `n` index entries from `pos` on, and where they end.
pub open spec fn parse_pairs(bytes: Seq<u8>, pos: int, n: nat) -> Option<(PairSeq, int)>
    decreases n,
{
    if n == 0 {
        Some((Seq::empty(), pos))
    } else {
        match parse_pairs(bytes, pos, (n - 1) as nat) {
            Some((s, p)) => {
                if 0 <= p && p + 16 <= bytes.len() {
                    Some(
                        (
                            s.push(
                                (
                                    from_be64(bytes.subrange(p, p + 8)),
                                    from_be64(bytes.subrange(p + 8, p + 16)),
                                ),
                            ),
                            p + 16,
                        ),
                    )
                } else {
                    None
                }
            },
            None => None,
        }
    }
}

/// The chunk entry at `pos`, and where it ends.
pub open spec fn parse_chunk(bytes: Seq<u8>, pos: int) -> Option<((u64, ChunkView), int)> {
    if 0 <= pos && pos + 24 <= bytes.len() {
        let key = from_be64(bytes.subrange(pos, pos + 8));
        let next = from_be64(bytes.subrange(pos + 8, pos + 16));
        let len = from_be64(bytes.subrange(pos + 16, pos + 24));
        if pos + 24 + len <= bytes.len() {
            Some(((key, (next, bytes.subrange(pos + 24, pos + 24 + len))), pos + 24 + len))
        } else {
            None
        }
    } else {
        None
    }
}

/// The first `n` chunk entries from `pos` on, and where they end.
pub open spec fn parse_chunks(bytes: Seq<u8>, pos: int, n: nat) -> Option<(ChunkSeq, int)>
    decreases n,
{
    if n == 0 {
        Some((Seq::empty(), pos))
    } else {
        match parse_chunks(bytes, pos, (n - 1) as nat) {
            Some((s, p)) => match parse_chunk(bytes, p) {
                Some((e, q)) => Some((s.push(e), q)),
                None => None,
            },
            None => None,
        }
    }
}

/// The entries that the bytes of a data page spell, in the order they are written.
pub open spec fn parse_data_page(bytes: Seq<u8>) -> Option<ChunkSeq> {
    match parse_u64(bytes, 0) {
        Some(n) => match parse_chunks(bytes, 8, n as nat) {
            Some((s, _)) => Some(s),
            None => None,
        },
        None => None,
    }
}

/// The link and the two lists of entries that the bytes of a meta page spell.
pub open spec fn parse_meta_page(bytes: Seq<u8>) -> Option<(u64, PairSeq, PairSeq)> {
    match parse_u64(bytes, 0) {
        Some(next) => match parse_u64(bytes, 8) {
            Some(n) => match parse_pairs(bytes, 16, n as nat) {
                Some((index, p)) => match parse_u64(bytes, p) {
                    Some(m) => match parse_pairs(bytes, p + 8, m as nat) {
                        Some((sizes, _)) => Some((next, index, sizes)),
                        None => None,
                    },
                    None => None,
                },
                None => None,
            },
            None => None,
        },
        None => None,
    }
}

/// Each index entry takes 16 bytes.
pub proof fn lemma_pairs_len(s: PairSeq)
    ensures
        pairs_bytes(s).len() == 16 * s.len(),
    decreases s.len(),
{
    if s.len() > 0 {
        lemma_pairs_len(s.drop_last());
    }
}

/// The chunks of a page take as many bytes as their size says.
pub proof fn lemma_chunks_len(s: ChunkSeq)
    requires
        forall|i: int| 0 <= i < s.len() ==> (#[trigger] s[i]).1.1.len() <= u64::MAX,
    ensures
        chunks_bytes(s).len() == chunks_size(s),
        chunks_size(s) >= 24 * s.len(),
    decreases s.len(),
{
    if s.len() > 0 {
        let t = s.drop_last();
        assert forall|i: int| 0 <= i < t.len() implies (#[trigger] t[i]).1.1.len() <= u64::MAX by {
            assert(t[i] == s[i]);
        }
        lemma_chunks_len(t);
    }
}

/// The size of a page is at least that of each of its chunks, and of its first entries.
pub proof fn lemma_chunks_size_take(s: ChunkSeq, i: int)
    requires
        0 <= i <= s.len(),
    ensures
        0 <= chunks_size(s.take(i)) <= chunks_size(s),
        i < s.len() ==> chunks_size(s.take(i + 1)) == chunks_size(s.take(i)) + 24 + s[i].1.1.len(),
    decreases s.len() - i,
{
    if i == s.len() {
        assert(s.take(i) =~= s);
        lemma_chunks_size_nonneg(s);
    } else {
        lemma_chunks_size_take(s, i + 1);
        assert(s.take(i + 1).drop_last() =~= s.take(i));
        lemma_chunks_size_nonneg(s.take(i));
    }
}

/// Each chunk takes 24 bytes at least.
pub proof fn lemma_chunks_size_nonneg(s: ChunkSeq)
    ensures
        chunks_size(s) >= 24 * s.len(),
    decreases s.len(),
{
    if s.len() > 0 {
        lemma_chunks_size_nonneg(s.drop_last());
    }
}

/// What leaving out the entry at `p` does to the size.
pub proof fn lemma_chunks_size_remove(s: ChunkSeq, p: int)
    requires
        0 <= p < s.len(),
    ensures
        chunks_size(s.remove(p)) == chunks_size(s) - 24 - s[p].1.1.len(),
    decreases s.len(),
{
    if p == s.len() - 1 {
        assert(s.remove(p) =~= s.drop_last());
    } else {
        lemma_chunks_size_remove(s.drop_last(), p);
        assert(s.remove(p).drop_last() =~= s.drop_last().remove(p));
        assert(s.remove(p).last() == s.last());
    }
}

/// What putting an entry in at `p` does to the size.
pub proof fn lemma_chunks_size_insert(s: ChunkSeq, p: int, e: (u64, ChunkView))
    requires
        0 <= p <= s.len(),
    ensures
        chunks_size(s.insert(p, e)) == chunks_size(s) + 24 + e.1.1.len(),
{
    let t = s.insert(p, e);
    assert(t.remove(p) =~= s);
    lemma_chunks_size_remove(t, p);
}

/// Index entries are read back from their bytes, wherever the bytes stand.
pub proof fn lemma_parse_pairs(bytes: Seq<u8>, pos: int, s: PairSeq)
    requires
        0 <= pos,
        pos + pairs_bytes(s).len() <= bytes.len(),
        bytes.subrange(pos, pos + pairs_bytes(s).len()) == pairs_bytes(s),
    ensures
        parse_pairs(bytes, pos, s.len()) == Some((s, pos + 16 * s.len())),
    decreases s.len(),
{
    lemma_pairs_len(s);
    if s.len() > 0 {
        let t = s.drop_last();
        lemma_pairs_len(t);
        let whole = pairs_bytes(s);
        let a: int = 16 * (t.len() as int);
        let window = bytes.subrange(pos, pos + a + 16);
        assert(whole == pairs_bytes(t) + be64(s.last().0) + be64(s.last().1));
        assert(bytes.subrange(pos, pos + a) =~= pairs_bytes(t)) by {
            assert(bytes.subrange(pos, pos + a) =~= window.subrange(0, a));
            assert(whole.subrange(0, a) =~= pairs_bytes(t));
        }
        lemma_parse_pairs(bytes, pos, t);
        let p = pos + a;
        assert(bytes.subrange(p, p + 8) =~= be64(s.last().0)) by {
            assert(bytes.subrange(p, p + 8) =~= window.subrange(a, a + 8));
            assert(whole.subrange(a, a + 8) =~= be64(s.last().0));
        }
        assert(bytes.subrange(p + 8, p + 16) =~= be64(s.last().1)) by {
            assert(bytes.subrange(p + 8, p + 16) =~= window.subrange(a + 8, a + 16));
            assert(whole.subrange(a + 8, a + 16) =~= be64(s.last().1));
        }
        lemma_be64_round_trip(s.last().0);
        lemma_be64_round_trip(s.last().1);
        assert(t.push((s.last().0, s.last().1)) =~= s);
    }
}

/// Chunk entries are read back from their bytes, wherever the bytes stand.
pub proof fn lemma_parse_chunks(bytes: Seq<u8>, pos: int, s: ChunkSeq)
    requires
        0 <= pos,
        forall|i: int| 0 <= i < s.len() ==> (#[trigger] s[i]).1.1.len() <= u64::MAX,
        pos + chunks_size(s) <= bytes.len(),
        bytes.subrange(pos, pos + chunks_size(s)) == chunks_bytes(s),
    ensures
        parse_chunks(bytes, pos, s.len()) == Some((s, pos + chunks_size(s))),
    decreases s.len(),
{
    lemma_chunks_len(s);
    if s.len() > 0 {
        let t = s.drop_last();
        let e = s.last();
        assert forall|i: int| 0 <= i < t.len() implies (#[trigger] t[i]).1.1.len() <= u64::MAX by {
            assert(t[i] == s[i]);
        }
        lemma_chunks_len(t);
        let whole = chunks_bytes(s);
        let a: int = chunks_size(t);
        let n = e.1.1.len() as int;
        assert(whole == chunks_bytes(t) + chunk_bytes(e));
        let window = bytes.subrange(pos, pos + chunks_size(s));
        assert(bytes.subrange(pos, pos + a) =~= chunks_bytes(t)) by {
            assert(bytes.subrange(pos, pos + a) =~= window.subrange(0, a));
            assert(whole.subrange(0, a) =~= chunks_bytes(t));
        }
        lemma_parse_chunks(bytes, pos, t);
        let p = pos + a;
        let one = chunk_bytes(e);
        assert(one.len() == 24 + n);
        assert(whole.subrange(a, a + 24 + n) =~= one);
        assert(bytes.subrange(p, p + 8) =~= be64(e.0)) by {
            assert(bytes.subrange(p, p + 8) =~= window.subrange(a, a + 8));
            assert(one.subrange(0, 8) =~= be64(e.0));
            assert(whole.subrange(a, a + 8) =~= one.subrange(0, 8));
        }
        assert(bytes.subrange(p + 8, p + 16) =~= be64(e.1.0)) by {
            assert(bytes.subrange(p + 8, p + 16) =~= window.subrange(a + 8, a + 16));
            assert(one.subrange(8, 16) =~= be64(e.1.0));
            assert(whole.subrange(a + 8, a + 16) =~= one.subrange(8, 16));
        }
        assert(bytes.subrange(p + 16, p + 24) =~= be64(n as u64)) by {
            assert(bytes.subrange(p + 16, p + 24) =~= window.subrange(a + 16, a + 24));
            assert(one.subrange(16, 24) =~= be64(n as u64));
            assert(whole.subrange(a + 16, a + 24) =~= one.subrange(16, 24));
        }
        assert(bytes.subrange(p + 24, p + 24 + n) =~= e.1.1) by {
            assert(bytes.subrange(p + 24, p + 24 + n) =~= window.subrange(a + 24, a + 24 + n));
            assert(one.subrange(24, 24 + n) =~= e.1.1);
            assert(whole.subrange(a + 24, a + 24 + n) =~= one.subrange(24, 24 + n));
        }
        lemma_be64_round_trip(e.0);
        lemma_be64_round_trip(e.1.0);
        lemma_be64_round_trip(n as u64);
        assert(parse_chunk(bytes, p) == Some((e, p + 24 + n)));
        assert(t.push(e) =~= s);
    }
}

/// A data page is read back from its bytes, padded or not.
pub proof fn lemma_parse_data_page(s: ChunkSeq, size: int)
    requires
        s.len() <= u64::MAX,
        forall|i: int| 0 <= i < s.len() ==> (#[trigger] s[i]).1.1.len() <= u64::MAX,
    ensures
        data_page_bytes(s).len() == data_page_size(s),
        parse_data_page(padded(data_page_bytes(s), size)) == Some(s),
{
    lemma_chunks_len(s);
    let raw = data_page_bytes(s);
    let bytes = padded(raw, size);
    lemma_be64_round_trip(s.len() as u64);
    assert(bytes.subrange(0, 8) =~= be64(s.len() as u64));
    assert(bytes.subrange(8, 8 + chunks_size(s)) =~= chunks_bytes(s));
    lemma_parse_chunks(bytes, 8, s);
}

/// The middle of three joined byte strings is found where the first ends.
pub proof fn lemma_window(a: Seq<u8>, b: Seq<u8>, c: Seq<u8>)
    ensures
        (a + b + c).subrange(a.len() as int, (a.len() + b.len()) as int) == b,
{
    assert((a + b + c).subrange(a.len() as int, (a.len() + b.len()) as int) =~= b);
}

/// Where the parts of a meta page stand in its bytes, padded or not.
proof fn lemma_meta_page_parts(next: u64, index: PairSeq, sizes: PairSeq, size: int)
    requires
        index.len() <= u64::MAX,
        sizes.len() <= u64::MAX,
    ensures
        meta_page_bytes(next, index, sizes).len() == meta_page_size(index, sizes),
        ({
            let bytes = padded(meta_page_bytes(next, index, sizes), size);
            let a: int = 16 * (index.len() as int);
            let b: int = 16 * (sizes.len() as int);
            &&& bytes.len() >= 24 + a + b
            &&& bytes.subrange(0, 8) == be64(next)
            &&& bytes.subrange(8, 16) == be64(index.len() as u64)
            &&& bytes.subrange(16, 16 + a) == pairs_bytes(index)
            &&& bytes.subrange(16 + a, 24 + a) == be64(sizes.len() as u64)
            &&& bytes.subrange(24 + a, 24 + a + b) == pairs_bytes(sizes)
        }),
{
    lemma_pairs_len(index);
    lemma_pairs_len(sizes);
    let h1 = be64(next);
    let h2 = be64(index.len() as u64);
    let pi = pairs_bytes(index);
    let h3 = be64(sizes.len() as u64);
    let ps = pairs_bytes(sizes);
    let raw = meta_page_bytes(next, index, sizes);
    let zeros = Seq::new((size - raw.len()) as nat, |i: int| 0u8);
    let bytes = padded(raw, size);
    let a: int = 16 * (index.len() as int);
    let b: int = 16 * (sizes.len() as int);
    assert(bytes.subrange(0, 8) == h1) by {
        assert(bytes =~= Seq::<u8>::empty() + h1 + (h2 + pi + h3 + ps + zeros));
        lemma_window(Seq::<u8>::empty(), h1, h2 + pi + h3 + ps + zeros);
    }
    assert(bytes.subrange(8, 16) == h2) by {
        assert(bytes =~= h1 + h2 + (pi + h3 + ps + zeros));
        lemma_window(h1, h2, pi + h3 + ps + zeros);
    }
    assert(bytes.subrange(16, 16 + a) == pi) by {
        assert(bytes =~= (h1 + h2) + pi + (h3 + ps + zeros));
        lemma_window(h1 + h2, pi, h3 + ps + zeros);
    }
    assert(bytes.subrange(16 + a, 24 + a) == h3) by {
        assert(bytes =~= (h1 + h2 + pi) + h3 + (ps + zeros));
        lemma_window(h1 + h2 + pi, h3, ps + zeros);
    }
    assert(bytes.subrange(24 + a, 24 + a + b) == ps) by {
        assert(bytes =~= (h1 + h2 + pi + h3) + ps + zeros);
        lemma_window(h1 + h2 + pi + h3, ps, zeros);
    }
}

/// A meta page is read back from its bytes, padded or not.
pub proof fn lemma_parse_meta_page(next: u64, index: PairSeq, sizes: PairSeq, size: int)
    requires
        index.len() <= u64::MAX,
        sizes.len() <= u64::MAX,
    ensures
        meta_page_bytes(next, index, sizes).len() == meta_page_size(index, sizes),
        parse_meta_page(padded(meta_page_bytes(next, index, sizes), size)) == Some(
            (next, index, sizes),
        ),
{
    lemma_meta_page_parts(next, index, sizes, size);
    let bytes = padded(meta_page_bytes(next, index, sizes), size);
    let a: int = 16 * (index.len() as int);
    let b: int = 16 * (sizes.len() as int);
    lemma_be64_round_trip(next);
    lemma_be64_round_trip(index.len() as u64);
    lemma_be64_round_trip(sizes.len() as u64);
    lemma_parse_pairs(bytes, 16, index);
    lemma_parse_pairs(bytes, 24 + a, sizes);
    assert(parse_u64(bytes, 0) == Some(next));
    assert(parse_u64(bytes, 8) == Some(index.len() as u64));
    assert(parse_pairs(bytes, 16, index.len()) == Some((index, 16 + a)));
    assert(parse_u64(bytes, 16 + a) == Some(sizes.len() as u64));
    assert(parse_pairs(bytes, 24 + a, sizes.len()) == Some((sizes, 24 + a + b)));
}

} // verus!
