//! The paging layer as mathematics: what the pages hold, which chain of
//! pages carries each logical value, and when all of it is consistent.
use crate::page_format::{ChunkSeq, ChunkView, data_page_size, parse_data_page};
use crate::sorted_map::{has_key, sorted, to_map};
use vstd::prelude::*;

verus! {

/// The chunks of one logical index, by the data page that holds each.
pub type Column = Map<u64, ChunkView>;

/// The state of a paging layer.
pub struct PageModel {
    /// The size of every stored page.
    pub page_size: u64,
    /// The pages that held the meta pages at the last flush, in order.
    pub meta: Seq<u64>,
    /// Data page to the size of what it holds.
    pub sizes: Map<u64, u64>,
    /// The data pages that are changed and not yet stored.
    pub dirty: Map<u64, ChunkSeq>,
    /// Logical index to first data page.
    pub index: Map<u64, u64>,
    /// The blocks of the store below.
    pub lower: Map<usize, Seq<u8>>,
    /// Logical index to the pages that hold its value, in order.
    pub chains: Map<u64, Seq<u64>>,
    /// Whether the layer is held to be tidy: nothing is below but its pages.
    pub tidy: bool,
}

/// The entries of data page `p`: the changed ones if it is dirty, else the stored ones.
pub open spec fn page_of(m: PageModel, p: u64) -> ChunkSeq {
    if m.dirty.contains_key(p) {
        m.dirty[p]
    } else {
        parse_data_page(m.lower[p as usize]).unwrap()
    }
}

/// The chunks of logical index `l` over all data pages.
pub open spec fn column(m: PageModel, l: u64) -> Column {
    Map::new(
        |p: u64| m.sizes.contains_key(p) && has_key(page_of(m, p), l),
        |p: u64| to_map(page_of(m, p))[l],
    )
}

/// The page after position `j` of a chain (0 after the last).
pub open spec fn next_in(chain: Seq<u64>, j: int) -> u64 {
    if j + 1 < chain.len() {
        chain[j + 1]
    } else {
        0
    }
}

/// The chunks of a column are exactly those of the pages of `chain`, each
/// linked to the next, from `head` to a last one that links to 0.
pub closed spec fn chain_ok(c: Column, head: u64, chain: Seq<u64>) -> bool {
    &&& chain.len() >= 1
    &&& chain[0] == head
    &&& chain.no_duplicates()
    &&& forall|p: u64| #[trigger] c.contains_key(p) ==> chain.contains(p)
    &&& forall|j: int|
        0 <= j < chain.len() ==> c.contains_key(#[trigger] chain[j]) && chain[j] != 0 && c[chain[j]].0
            == next_in(chain, j)
}

/// The bytes that the chunks of the pages of `chain` spell, in order.
pub open spec fn value_along(c: Column, chain: Seq<u64>) -> Seq<u8>
    decreases chain.len(),
{
    if chain.len() == 0 {
        Seq::empty()
    } else {
        value_along(c, chain.drop_last()) + c[chain.last()].1
    }
}

/// Data page `p` is recorded with its true size, fits a page, and is stored
/// below unless it is dirty.
pub open spec fn page_ok(m: PageModel, p: u64) -> bool {
    &&& p != 0
    &&& p <= usize::MAX
    &&& sorted(page_of(m, p))
    &&& m.sizes[p] == data_page_size(page_of(m, p))
    &&& m.sizes[p] <= m.page_size
    &&& !m.dirty.contains_key(p) ==> {
        &&& m.lower.contains_key(p as usize)
        &&& parse_data_page(m.lower[p as usize]) is Some
        &&& m.lower[p as usize].len() == m.page_size
    }
}

/// Every data page that is not dirty holds a chunk: it is recorded with
/// more than the 8 bytes of a page without chunks.
pub open spec fn stocked(m: PageModel) -> bool {
    forall|p: u64| #[trigger] m.sizes.contains_key(p) && !m.dirty.contains_key(p) ==> m.sizes[p] > 8
}

/// The pages are consistent, whatever the chains are.
pub closed spec fn base_ok(m: PageModel) -> bool {
    &&& m.page_size <= usize::MAX
    &&& forall|p: u64| #[trigger] m.dirty.contains_key(p) ==> m.sizes.contains_key(p)
    &&& forall|p: u64| #[trigger] m.sizes.contains_key(p) ==> page_ok(m, p)
    &&& stocked(m)
    &&& m.meta.no_duplicates()
    &&& forall|i: int|
        0 <= i < m.meta.len() ==> !m.sizes.contains_key(#[trigger] m.meta[i]) && m.meta[i]
            <= usize::MAX
    &&& m.meta.len() > 0 ==> m.meta[0] == 0
}

/// Logical index `l` is either absent, with no chunk anywhere, or has a
/// chain from its first page that accounts for each of its chunks.
pub closed spec fn key_ok(m: PageModel, l: u64) -> bool {
    if m.index.contains_key(l) {
        l <= usize::MAX && m.chains.contains_key(l) && chain_ok(
            column(m, l),
            m.index[l],
            m.chains[l],
        )
    } else {
        forall|p: u64| !(#[trigger] column(m, l).contains_key(p))
    }
}

/// The value of logical index `l`.
pub open spec fn value_of(m: PageModel, l: u64) -> Seq<u8> {
    value_along(column(m, l), m.chains[l])
}

/// The logical index that stands for block `i`.
pub open spec fn key_of(i: usize) -> u64 {
    i as u64
}

/// The blocks that the layer holds.
pub open spec fn model_blocks(m: PageModel) -> Map<usize, Seq<u8>> {
    Map::new(|i: usize| m.index.contains_key(key_of(i)), |i: usize| value_of(m, key_of(i)))
}

/// `b` has the logical indexes of `a` with their values, but for `l`.
pub closed spec fn others_kept(a: PageModel, b: PageModel, l: u64) -> bool {
    &&& b.tidy == a.tidy
    &&& b.lower == a.lower
    &&& forall|k: u64|
        k != l ==> (#[trigger] b.index.contains_key(k) == a.index.contains_key(k)) && value_of(b, k)
            == value_of(a, k)
}

/// Two states hold the same pages, recorded alike; only which of them are
/// dirty, and the blocks below at other places, may differ.
pub open spec fn same_pages(a: PageModel, b: PageModel) -> bool {
    &&& a.tidy == b.tidy
    &&& a.page_size == b.page_size
    &&& a.meta == b.meta
    &&& a.sizes == b.sizes
    &&& a.index == b.index
    &&& a.chains == b.chains
    &&& forall|p: u64| a.sizes.contains_key(p) ==> #[trigger] page_of(a, p) == page_of(b, p)
}

/// States with the same pages have the same columns, chains and values.
pub proof fn lemma_same_pages(a: PageModel, b: PageModel)
    requires
        same_pages(a, b),
    ensures
        forall|l: u64| #[trigger] column(a, l) == column(b, l),
        forall|l: u64| #[trigger] key_ok(a, l) == key_ok(b, l),
        forall|l: u64| #[trigger] value_of(a, l) == value_of(b, l),
        b.lower == a.lower ==> forall|l: u64| others_kept(a, b, l),
        model_blocks(a) == model_blocks(b),
{
    assert forall|l: u64| #[trigger] column(a, l) == column(b, l) by {
        assert forall|p: u64| column(a, l).contains_key(p) == column(b, l).contains_key(p) by {
            if a.sizes.contains_key(p) {
                assert(page_of(a, p) == page_of(b, p));
            }
        }
        assert forall|p: u64| column(a, l).contains_key(p) implies column(a, l)[p] == column(
            b,
            l,
        )[p] by {
            assert(page_of(a, p) == page_of(b, p));
        }
        assert(column(a, l) =~= column(b, l));
    }
    assert forall|l: u64| #[trigger] key_ok(a, l) == key_ok(b, l) by {
        assert(column(a, l) == column(b, l));
    }
    assert forall|l: u64| #[trigger] value_of(a, l) == value_of(b, l) by {
        assert(column(a, l) == column(b, l));
    }
    assert forall|i: usize| a.index.contains_key(#[trigger] key_of(i)) implies value_of(
        a,
        key_of(i),
    ) == value_of(b, key_of(i)) by {
        assert(column(a, key_of(i)) == column(b, key_of(i)));
    }
    assert(model_blocks(a) =~= model_blocks(b));
}

/// Columns that agree on the pages of a chain spell the same bytes along it.
pub proof fn lemma_value_agrees(c: Column, d: Column, chain: Seq<u64>)
    requires
        forall|j: int| 0 <= j < chain.len() ==> c[#[trigger] chain[j]] == d[chain[j]],
    ensures
        value_along(c, chain) == value_along(d, chain),
    decreases chain.len(),
{
    if chain.len() > 0 {
        let t = chain.drop_last();
        assert forall|j: int| 0 <= j < t.len() implies c[#[trigger] t[j]] == d[t[j]] by {
            assert(t[j] == chain[j]);
        }
        lemma_value_agrees(c, d, t);
        assert(chain.last() == chain[chain.len() - 1]);
    }
}

/// The bytes along a chain that grew by one page.
pub proof fn lemma_value_push(c: Column, chain: Seq<u64>, p: u64)
    ensures
        value_along(c, chain.push(p)) == value_along(c, chain) + c[p].1,
{
    assert(chain.push(p).drop_last() =~= chain);
}

/// The bytes along a chain without its first page.
pub proof fn lemma_value_first(c: Column, chain: Seq<u64>)
    requires
        chain.len() >= 1,
    ensures
        value_along(c, chain) == c[chain[0]].1 + value_along(c, chain.drop_first()),
    decreases chain.len(),
{
    if chain.len() == 1 {
        assert(chain.drop_last() =~= Seq::<u64>::empty());
        assert(chain.drop_first() =~= Seq::<u64>::empty());
        assert(value_along(c, chain) =~= c[chain[0]].1 + value_along(c, chain.drop_first()));
    } else {
        lemma_value_first(c, chain.drop_last());
        assert(chain.drop_last().drop_first() =~= chain.drop_first().drop_last());
        assert(chain.drop_first().last() == chain.last());
        assert(value_along(c, chain) =~= c[chain[0]].1 + value_along(c, chain.drop_first()));
    }
}

/// The bytes along a chain without the page at position `j`.
pub proof fn lemma_value_remove(c: Column, chain: Seq<u64>, j: int)
    requires
        0 <= j < chain.len(),
    ensures
        value_along(c, chain) == value_along(c, chain.take(j)) + c[chain[j]].1 + value_along(
            c,
            chain.skip(j + 1),
        ),
    decreases chain.len(),
{
    if j == chain.len() - 1 {
        assert(chain.take(j) =~= chain.drop_last());
        assert(chain.skip(j + 1) =~= Seq::<u64>::empty());
        assert(value_along(c, chain) =~= value_along(c, chain.take(j)) + c[chain[j]].1
            + value_along(c, chain.skip(j + 1)));
    } else {
        lemma_value_remove(c, chain.drop_last(), j);
        assert(chain.drop_last().take(j) =~= chain.take(j));
        assert(chain.drop_last().skip(j + 1) =~= chain.skip(j + 1).drop_last());
        assert(chain.skip(j + 1).last() == chain.last());
        assert(value_along(c, chain) =~= value_along(c, chain.take(j)) + c[chain[j]].1
            + value_along(c, chain.skip(j + 1)));
    }
}

/// The chunks of page `p` by logical index, none if the page is not recorded.
pub open spec fn chunks_at(m: PageModel, p: u64) -> Map<u64, ChunkView> {
    if m.sizes.contains_key(p) {
        to_map(page_of(m, p))
    } else {
        Map::empty()
    }
}

/// `b` is `a` but for the dirty data page `p`, which is there with new contents.
pub open spec fn page_changed(a: PageModel, b: PageModel, p: u64) -> bool {
    &&& b.tidy == a.tidy
    &&& b.page_size == a.page_size
    &&& b.meta == a.meta
    &&& b.index == a.index
    &&& b.lower == a.lower
    &&& b.chains == a.chains
    &&& b.sizes == a.sizes.insert(p, b.sizes[p])
    &&& b.dirty == a.dirty.insert(p, b.dirty[p])
}

/// `b` is `a` but for the chunk of logical index `l` in the dirty data page `p`.
pub open spec fn chunk_changed(a: PageModel, b: PageModel, p: u64, l: u64) -> bool {
    &&& page_changed(a, b, p)
    &&& forall|k: u64|
        k != l ==> (#[trigger] chunks_at(b, p).contains_key(k) == chunks_at(a, p).contains_key(k))
    &&& forall|k: u64|
        k != l && #[trigger] chunks_at(a, p).contains_key(k) ==> chunks_at(b, p)[k] == chunks_at(
            a,
            p,
        )[k]
}

/// A change to one chunk leaves the pages consistent if the changed page is.
pub proof fn lemma_page_changed_base(a: PageModel, b: PageModel, p: u64)
    requires
        base_ok(a),
        page_changed(a, b, p),
        page_ok(b, p),
        forall|i: int| 0 <= i < a.meta.len() ==> #[trigger] a.meta[i] != p,
    ensures
        base_ok(b),
        forall|q: u64| q != p ==> #[trigger] page_of(b, q) == page_of(a, q),
{
    assert(b.dirty.contains_key(p));
    assert(b.sizes.contains_key(p));
    assert forall|q: u64| q != p implies #[trigger] page_of(b, q) == page_of(a, q) by {
        assert(b.dirty.contains_key(q) == a.dirty.contains_key(q));
    }
    assert forall|q: u64| #[trigger] b.sizes.contains_key(q) implies page_ok(b, q) by {
        if q != p {
            assert(a.sizes.contains_key(q));
            assert(page_ok(a, q));
            assert(page_of(b, q) == page_of(a, q));
            assert(b.dirty.contains_key(q) == a.dirty.contains_key(q));
        }
    }
    assert forall|q: u64| #[trigger] b.dirty.contains_key(q) implies b.sizes.contains_key(q) by {
        if q != p {
            assert(a.dirty.contains_key(q));
        }
    }
    assert forall|i: int| 0 <= i < b.meta.len() implies !b.sizes.contains_key(#[trigger] b.meta[i])
        && b.meta[i] <= usize::MAX by {
        assert(a.meta[i] != p);
        assert(!a.sizes.contains_key(a.meta[i]));
    }
}

/// A change to the chunk of `l` in page `p` changes the column of `l` at `p`
/// and nothing else.
pub proof fn lemma_chunk_changed(a: PageModel, b: PageModel, p: u64, l: u64)
    requires
        chunk_changed(a, b, p, l),
    ensures
        forall|k: u64| k != l ==> #[trigger] column(b, k) == column(a, k),
        forall|k: u64| k != l ==> #[trigger] key_ok(b, k) == key_ok(a, k),
        forall|k: u64| k != l ==> #[trigger] value_of(b, k) == value_of(a, k),
        chunks_at(b, p).contains_key(l) ==> column(b, l) == column(a, l).insert(
            p,
            chunks_at(b, p)[l],
        ),
        !chunks_at(b, p).contains_key(l) ==> column(b, l) == column(a, l).remove(p),
{
    assert(b.dirty.contains_key(p));
    assert(b.sizes.contains_key(p));
    assert forall|q: u64| q != p implies #[trigger] page_of(b, q) == page_of(a, q) by {
        assert(b.dirty.contains_key(q) == a.dirty.contains_key(q));
    }
    assert forall|q: u64| q != p implies b.sizes.contains_key(q) == a.sizes.contains_key(q) by {}
    assert forall|k: u64| k != l implies #[trigger] column(b, k) == column(a, k) by {
        assert forall|q: u64| column(b, k).contains_key(q) == column(a, k).contains_key(q) by {
            if q == p {
                assert(chunks_at(b, p).contains_key(k) == chunks_at(a, p).contains_key(k));
            } else {
                assert(page_of(b, q) == page_of(a, q));
            }
        }
        assert forall|q: u64| column(b, k).contains_key(q) implies column(b, k)[q] == column(
            a,
            k,
        )[q] by {
            if q == p {
                assert(chunks_at(a, p).contains_key(k));
            } else {
                assert(page_of(b, q) == page_of(a, q));
            }
        }
        assert(column(b, k) =~= column(a, k));
    }
    assert forall|k: u64| k != l implies #[trigger] key_ok(b, k) == key_ok(a, k) by {
        assert(column(b, k) == column(a, k));
    }
    assert forall|k: u64| k != l implies #[trigger] value_of(b, k) == value_of(a, k) by {
        assert(column(b, k) == column(a, k));
    }
    if chunks_at(b, p).contains_key(l) {
        let c = column(a, l).insert(p, chunks_at(b, p)[l]);
        assert forall|q: u64| column(b, l).contains_key(q) == c.contains_key(q) by {
            if q != p {
                assert(page_of(b, q) == page_of(a, q));
            }
        }
        assert forall|q: u64| column(b, l).contains_key(q) implies column(b, l)[q] == c[q] by {
            if q != p {
                assert(page_of(b, q) == page_of(a, q));
            }
        }
        assert(column(b, l) =~= c);
    } else {
        let c = column(a, l).remove(p);
        assert forall|q: u64| column(b, l).contains_key(q) == c.contains_key(q) by {
            if q != p {
                assert(page_of(b, q) == page_of(a, q));
            }
        }
        assert forall|q: u64| column(b, l).contains_key(q) implies column(b, l)[q] == c[q] by {
            if q != p {
                assert(page_of(b, q) == page_of(a, q));
            }
        }
        assert(column(b, l) =~= c);
    }
}

/// Keeping all but one logical index carries over from step to step.
pub proof fn lemma_others_kept_step(a: PageModel, b: PageModel, c: PageModel, l: u64)
    requires
        others_kept(a, b, l),
        others_kept(b, c, l),
    ensures
        others_kept(a, c, l),
{
    assert forall|k: u64| k != l implies (#[trigger] c.index.contains_key(k) == a.index.contains_key(
        k,
    )) && value_of(c, k) == value_of(a, k) by {
        assert(b.index.contains_key(k) == a.index.contains_key(k));
    }
}

/// States that keep all but one logical index hold the same blocks but for that one.
pub proof fn lemma_others_kept_blocks(a: PageModel, b: PageModel, i: usize)
    requires
        others_kept(a, b, key_of(i)),
    ensures
        b.tidy == a.tidy,
        model_blocks(b).remove(i) == model_blocks(a).remove(i),
        b.index.contains_key(key_of(i)) ==> model_blocks(b) == model_blocks(a).insert(
            i,
            value_of(b, key_of(i)),
        ),
        !b.index.contains_key(key_of(i)) ==> model_blocks(b) == model_blocks(a).remove(i),
{
    assert forall|j: usize| j != i implies key_of(j) != key_of(i) by {}
    assert forall|j: usize| j != i implies (model_blocks(b).contains_key(j) == model_blocks(
        a,
    ).contains_key(j)) by {
        assert(b.index.contains_key(key_of(j)) == a.index.contains_key(key_of(j)));
    }
    assert forall|j: usize| j != i && model_blocks(b).contains_key(j) implies model_blocks(b)[j]
        == model_blocks(a)[j] by {
        assert(b.index.contains_key(key_of(j)) == a.index.contains_key(key_of(j)));
    }
    assert(model_blocks(b).remove(i) =~= model_blocks(a).remove(i));
    if b.index.contains_key(key_of(i)) {
        assert(model_blocks(b) =~= model_blocks(a).insert(i, value_of(b, key_of(i))));
    } else {
        assert(model_blocks(b) =~= model_blocks(a).remove(i));
    }
}

/// `b` is `a` but for where `l` starts and which chain it has.
pub open spec fn rekeyed(a: PageModel, b: PageModel, l: u64) -> bool {
    &&& b.tidy == a.tidy
    &&& b.page_size == a.page_size
    &&& b.meta == a.meta
    &&& b.sizes == a.sizes
    &&& b.dirty == a.dirty
    &&& b.lower == a.lower
    &&& forall|k: u64| k != l ==> (#[trigger] b.index.contains_key(k) == a.index.contains_key(k))
    &&& forall|k: u64| k != l && #[trigger] a.index.contains_key(k) ==> b.index[k] == a.index[k]
    &&& forall|k: u64| k != l ==> (#[trigger] b.chains.contains_key(k) == a.chains.contains_key(k))
    &&& forall|k: u64| k != l ==> #[trigger] b.chains[k] == a.chains[k]
}

/// A change of where `l` starts touches no page and no other logical index.
pub proof fn lemma_rekeyed(a: PageModel, b: PageModel, l: u64)
    requires
        rekeyed(a, b, l),
    ensures
        base_ok(a) ==> base_ok(b),
        forall|k: u64| #[trigger] column(b, k) == column(a, k),
        forall|k: u64| k != l ==> #[trigger] key_ok(b, k) == key_ok(a, k),
        forall|k: u64| k != l ==> #[trigger] value_of(b, k) == value_of(a, k),
{
    assert forall|p: u64| page_of(b, p) == page_of(a, p) by {}
    assert forall|k: u64| #[trigger] column(b, k) == column(a, k) by {
        assert(column(b, k) =~= column(a, k));
    }
    if base_ok(a) {
        assert forall|q: u64| #[trigger] b.sizes.contains_key(q) implies page_ok(b, q) by {
            assert(page_ok(a, q));
            assert(page_of(b, q) == page_of(a, q));
        }
    }
    assert forall|k: u64| k != l implies #[trigger] key_ok(b, k) == key_ok(a, k) by {
        assert(column(b, k) == column(a, k));
        assert(b.index.contains_key(k) == a.index.contains_key(k));
        assert(b.chains.contains_key(k) == a.chains.contains_key(k));
        assert(b.chains[k] == a.chains[k]);
    }
    assert forall|k: u64| k != l implies #[trigger] value_of(b, k) == value_of(a, k) by {
        assert(column(b, k) == column(a, k));
        assert(b.chains[k] == a.chains[k]);
    }
}

/// A single page with an empty chunk is a chain, and spells no bytes.
pub proof fn lemma_chain_single(c: Column, p: u64)
    requires
        p != 0,
        forall|q: u64| !(#[trigger] c.contains_key(q)),
    ensures
        chain_ok(c.insert(p, (0u64, Seq::<u8>::empty())), p, seq![p]),
        value_along(c.insert(p, (0u64, Seq::<u8>::empty())), seq![p]) == Seq::<u8>::empty(),
{
    let d = c.insert(p, (0u64, Seq::<u8>::empty()));
    let chain = seq![p];
    assert forall|q: u64| #[trigger] d.contains_key(q) implies chain.contains(q) by {
        assert(q == p);
        assert(chain[0] == q);
    }
    assert(chain =~= Seq::<u64>::empty().push(p));
    lemma_value_push(d, Seq::<u64>::empty(), p);
    assert(value_along(d, Seq::<u64>::empty()) =~= Seq::<u8>::empty());
    assert(value_along(d, chain) =~= Seq::<u8>::empty());
}

/// New bytes in the chunk of the page at position `j`, with the same link,
/// leave the chain as it is.
pub proof fn lemma_chain_rewrite(c: Column, head: u64, chain: Seq<u64>, j: int, d: ChunkView)
    requires
        chain_ok(c, head, chain),
        0 <= j < chain.len(),
        d.0 == c[chain[j]].0,
    ensures
        chain_ok(c.insert(chain[j], d), head, chain),
        value_along(c.insert(chain[j], d), chain.take(j + 1)) == value_along(c, chain.take(j))
            + d.1,
{
    let e = c.insert(chain[j], d);
    assert forall|q: u64| #[trigger] e.contains_key(q) implies chain.contains(q) by {
        if q != chain[j] {
            assert(c.contains_key(q));
        }
    }
    let t = chain.take(j);
    assert forall|i: int| 0 <= i < t.len() implies c[#[trigger] t[i]] == e[t[i]] by {
        assert(t[i] == chain[i]);
    }
    lemma_value_agrees(c, e, t);
    assert(chain.take(j + 1) =~= t.push(chain[j]));
    lemma_value_push(e, t, chain[j]);
}

/// A fresh page with an empty chunk, linked from the last page, lengthens the chain.
pub proof fn lemma_chain_extend(c: Column, head: u64, chain: Seq<u64>, f: u64, part: Seq<u8>)
    requires
        chain_ok(c, head, chain),
        !c.contains_key(f),
        f != 0,
    ensures
        ({
            let e = c.insert(f, (0u64, Seq::<u8>::empty())).insert(chain.last(), (f, part));
            &&& chain_ok(e, head, chain.push(f))
            &&& value_along(e, chain) == value_along(c, chain.drop_last()) + part
            &&& e[f] == (0u64, Seq::<u8>::empty())
        }),
{
    let last = chain.last();
    let e = c.insert(f, (0u64, Seq::<u8>::empty())).insert(last, (f, part));
    let grown = chain.push(f);
    let n = chain.len() as int;
    assert(c.contains_key(chain[n - 1]));
    assert(last != f);
    assert(grown.no_duplicates()) by {
        assert forall|i: int, k: int| 0 <= i < grown.len() && 0 <= k < grown.len() && i != k implies grown[i] != grown[k] by {
            if i < n && k < n {
                assert(chain[i] != chain[k]);
            } else if i < n {
                assert(c.contains_key(chain[i]));
            } else {
                assert(c.contains_key(chain[k]));
            }
        }
    }
    assert forall|q: u64| #[trigger] e.contains_key(q) implies grown.contains(q) by {
        if q == f {
            assert(grown[n] == f);
        } else {
            assert(c.contains_key(q));
            assert(chain.contains(q));
            let i = choose|i: int| 0 <= i < chain.len() && chain[i] == q;
            assert(grown[i] == q);
        }
    }
    assert forall|i: int| 0 <= i < grown.len() implies e.contains_key(#[trigger] grown[i])
        && grown[i] != 0 && e[grown[i]].0 == next_in(grown, i) by {
        if i < n - 1 {
            assert(c.contains_key(chain[i]));
            assert(chain[i] != chain[n - 1]);
            assert(next_in(chain, i) == next_in(grown, i));
        } else if i == n - 1 {
        } else {
        }
    }
    let t = chain.drop_last();
    assert forall|i: int| 0 <= i < t.len() implies c[#[trigger] t[i]] == e[t[i]] by {
        assert(t[i] == chain[i]);
        assert(c.contains_key(chain[i]));
        assert(chain[i] != chain[n - 1]);
    }
    lemma_value_agrees(c, e, t);
}

/// A chain without a page that comes twice has none after a page is cut out.
proof fn lemma_cut_distinct(chain: Seq<u64>, j: int)
    requires
        chain.no_duplicates(),
        0 <= j,
        j + 1 < chain.len(),
    ensures
        chain.remove(j + 1).no_duplicates(),
{
    let cut = chain.remove(j + 1);
    assert forall|i: int, k: int| 0 <= i < cut.len() && 0 <= k < cut.len() && i != k implies cut[i]
        != cut[k] by {
        let a = if i <= j { i } else { i + 1 };
        let b = if k <= j { k } else { k + 1 };
        assert(chain[a] != chain[b]);
    }
}

/// A chain that a page is cut out of passes each chunk that is left.
proof fn lemma_cut_covers(c: Column, e: Column, chain: Seq<u64>, j: int)
    requires
        0 <= j,
        j + 1 < chain.len(),
        forall|p: u64| #[trigger] c.contains_key(p) ==> chain.contains(p),
        forall|q: u64| #[trigger] e.contains_key(q) ==> q != chain[j + 1] && (c.contains_key(q) || q == chain[j]),
    ensures
        forall|q: u64| #[trigger] e.contains_key(q) ==> chain.remove(j + 1).contains(q),
{
    let cut = chain.remove(j + 1);
    assert forall|q: u64| #[trigger] e.contains_key(q) implies cut.contains(q) by {
        if q == chain[j] {
            assert(cut[j] == q);
        } else {
            assert(c.contains_key(q));
            assert(chain.contains(q));
            let i = choose|i: int| 0 <= i < chain.len() && chain[i] == q;
            if i <= j {
                assert(cut[i] == q);
            } else {
                assert(cut[i - 1] == q);
            }
        }
    }
}

/// In a chain that a page is cut out of, each chunk is linked to the next page.
proof fn lemma_cut_links(c: Column, e: Column, chain: Seq<u64>, j: int, i: int)
    requires
        0 <= j,
        j + 1 < chain.len(),
        0 <= i < chain.len() - 1,
        ({
            let a = if i <= j { i } else { i + 1 };
            &&& a != j ==> chain[a] != chain[j]
            &&& a != j + 1 ==> chain[a] != chain[j + 1]
            &&& c.contains_key(chain[a])
            &&& chain[a] != 0
            &&& c[chain[a]].0 == next_in(chain, a)
        }),
        c.contains_key(chain[j + 1]),
        c[chain[j + 1]].0 == next_in(chain, j + 1),
        e == c.remove(chain[j + 1]).insert(chain[j], (c[chain[j + 1]].0, c[chain[j]].1)),
    ensures
        e.contains_key(chain.remove(j + 1)[i]),
        chain.remove(j + 1)[i] != 0,
        e[chain.remove(j + 1)[i]].0 == next_in(chain.remove(j + 1), i),
{
    let cut = chain.remove(j + 1);
    if i < j {
        assert(cut[i] == chain[i]);
        assert(cut[i + 1] == chain[i + 1]);
    } else if i == j {
        assert(cut[j] == chain[j]);
        if j + 2 < chain.len() {
            assert(cut[j + 1] == chain[j + 2]);
        }
    } else {
        assert(cut[i] == chain[i + 1]);
        if i + 1 < cut.len() {
            assert(cut[i + 1] == chain[i + 2]);
        }
    }
}

/// Taking the page after position `j` out of the chain, and linking the page
/// at `j` to what came after it, shortens the chain.
pub proof fn lemma_chain_unlink(c: Column, head: u64, chain: Seq<u64>, j: int)
    requires
        chain_ok(c, head, chain),
        0 <= j,
        j + 1 < chain.len(),
    ensures
        ({
            let t = chain[j + 1];
            let e = c.remove(t).insert(chain[j], (c[t].0, c[chain[j]].1));
            &&& chain_ok(e, head, chain.remove(j + 1))
            &&& value_along(e, chain.remove(j + 1).take(j + 1)) == value_along(c, chain.take(j + 1))
            &&& e[chain[j]].0 == next_in(chain.remove(j + 1), j)
        }),
{
    let t = chain[j + 1];
    let cur = chain[j];
    let e = c.remove(t).insert(cur, (c[t].0, c[cur].1));
    let cut = chain.remove(j + 1);
    lemma_cut_distinct(chain, j);
    lemma_cut_covers(c, e, chain, j);
    assert(c.contains_key(chain[j + 1]));
    assert forall|i: int| 0 <= i < cut.len() implies e.contains_key(#[trigger] cut[i]) && cut[i]
        != 0 && e[cut[i]].0 == next_in(cut, i) by {
        let a = if i <= j { i } else { i + 1 };
        assert(c.contains_key(chain[a]));
        lemma_cut_links(c, e, chain, j, i);
    }
    assert(cut[0] == chain[0]);
    assert(c.contains_key(chain[j]));
    lemma_cut_links(c, e, chain, j, j);
    assert(cut[j] == chain[j]);
    let pre = chain.take(j + 1);
    assert(cut.take(j + 1) =~= pre);
    assert forall|i: int| 0 <= i < pre.len() implies c[#[trigger] pre[i]].1 == e[pre[i]].1 by {
        assert(pre[i] == chain[i]);
        assert(chain[i] != chain[j + 1]);
    }
    lemma_value_agrees_data(c, e, pre);
}

/// Columns with the same bytes on the pages of a chain spell the same bytes along it.
pub proof fn lemma_value_agrees_data(c: Column, d: Column, chain: Seq<u64>)
    requires
        forall|j: int| 0 <= j < chain.len() ==> c[#[trigger] chain[j]].1 == d[chain[j]].1,
    ensures
        value_along(c, chain) == value_along(d, chain),
    decreases chain.len(),
{
    if chain.len() > 0 {
        let t = chain.drop_last();
        assert forall|j: int| 0 <= j < t.len() implies c[#[trigger] t[j]].1 == d[t[j]].1 by {
            assert(t[j] == chain[j]);
        }
        lemma_value_agrees_data(c, d, t);
        assert(chain.last() == chain[chain.len() - 1]);
    }
}

/// Without the chunk of its first page, a chain starts at its second page;
/// a chain of one page leaves nothing.
pub proof fn lemma_chain_behead(c: Column, head: u64, chain: Seq<u64>)
    requires
        chain_ok(c, head, chain),
    ensures
        c.contains_key(head),
        c[head].0 == next_in(chain, 0),
        chain.len() == 1 ==> forall|q: u64| !(#[trigger] c.remove(head).contains_key(q)),
        chain.len() > 1 ==> chain_ok(c.remove(head), chain[1], chain.drop_first()),
{
    assert(c.contains_key(chain[0]));
    let e = c.remove(head);
    if chain.len() == 1 {
        assert forall|q: u64| !(#[trigger] e.contains_key(q)) by {
            if c.contains_key(q) {
                assert(chain.contains(q));
            }
        }
    } else {
        let rest = chain.drop_first();
        assert(rest.no_duplicates()) by {
            assert forall|i: int, k: int| 0 <= i < rest.len() && 0 <= k < rest.len() && i != k implies rest[i] != rest[k] by {
                assert(chain[i + 1] != chain[k + 1]);
            }
        }
        assert forall|q: u64| #[trigger] e.contains_key(q) implies rest.contains(q) by {
            assert(c.contains_key(q));
            assert(chain.contains(q));
            let i = choose|i: int| 0 <= i < chain.len() && chain[i] == q;
            assert(rest[i - 1] == q);
        }
        assert forall|i: int| 0 <= i < rest.len() implies e.contains_key(#[trigger] rest[i])
            && rest[i] != 0 && e[rest[i]].0 == next_in(rest, i) by {
            assert(c.contains_key(chain[i + 1]));
            assert(chain[i + 1] != chain[0]);
            assert(next_in(chain, i + 1) == next_in(rest, i));
        }
    }
}

/// The position of the least size in `s`, the first one if several are least.
pub open spec fn least_pos(s: Seq<(u64, u64)>) -> int
    decreases s.len(),
{
    if s.len() <= 1 {
        0
    } else {
        let b = least_pos(s.drop_last());
        if s.last().1 < s[b].1 {
            s.len() - 1
        } else {
            b
        }
    }
}

/// The first position of `s` whose size is at most `room`, or the length of `s`.
pub open spec fn first_fit(s: Seq<(u64, u64)>, room: int) -> int
    decreases s.len(),
{
    if s.len() == 0 {
        0
    } else {
        let b = first_fit(s.drop_last(), room);
        if b < s.len() - 1 {
            b
        } else if s.last().1 <= room {
            s.len() - 1
        } else {
            s.len() as int
        }
    }
}

/// The existing data page that takes the first chunk of a new value of
/// `size` bytes. A value that fills more than a page starts in the page that
/// holds least, if that one has room for more than a chunk's overhead; any
/// other value, and a large one where that page is full, starts in the
/// first page, by page number, that has room for all of it.
pub open spec fn first_page_choice(s: Seq<(u64, u64)>, page_size: u64, size: u64) -> Option<u64> {
    let needed = size + 24;
    if needed > page_size && s.len() > 0 && s[least_pos(s)].1 + 24 < page_size {
        Some(s[least_pos(s)].0)
    } else {
        let i = first_fit(s, page_size - needed);
        if i < s.len() {
            Some(s[i].0)
        } else {
            None
        }
    }
}

/// The position of the page that holds least is a position of the list.
pub proof fn lemma_least_pos_in_range(s: Seq<(u64, u64)>)
    ensures
        0 <= least_pos(s),
        s.len() > 0 ==> least_pos(s) < s.len(),
    decreases s.len(),
{
    if s.len() > 1 {
        lemma_least_pos_in_range(s.drop_last());
    }
}

/// The first page that fits, if there is one, fits.
pub proof fn lemma_first_fit_in_range(s: Seq<(u64, u64)>, room: int)
    ensures
        0 <= first_fit(s, room) <= s.len(),
        first_fit(s, room) < s.len() ==> s[first_fit(s, room)].1 <= room,
    decreases s.len(),
{
    if s.len() > 0 {
        lemma_first_fit_in_range(s.drop_last(), room);
    }
}

/// Every logical index but `l` is consistent.
pub closed spec fn others_ok(m: PageModel, l: u64) -> bool {
    forall|k: u64| k != l ==> #[trigger] key_ok(m, k)
}

/// A change to a chunk of `l` leaves the other logical indexes as they were.
pub proof fn lemma_chunk_changed_kept(a: PageModel, b: PageModel, c: PageModel, p: u64, l: u64)
    requires
        others_kept(a, b, l),
        chunk_changed(b, c, p, l),
    ensures
        others_kept(a, c, l),
        others_ok(b, l) ==> others_ok(c, l),
{
    lemma_chunk_changed(b, c, p, l);
    assert(others_kept(b, c, l));
    lemma_others_kept_step(a, b, c, l);
    if others_ok(b, l) {
        assert forall|k: u64| k != l implies #[trigger] key_ok(c, k) by {
            assert(key_ok(b, k));
            assert(key_ok(c, k) == key_ok(b, k));
        }
    }
}

/// A change of where `l` starts leaves the other logical indexes as they were.
pub proof fn lemma_rekeyed_kept(a: PageModel, b: PageModel, c: PageModel, l: u64)
    requires
        others_kept(a, b, l),
        rekeyed(b, c, l),
    ensures
        others_kept(a, c, l),
        others_ok(b, l) ==> others_ok(c, l),
        base_ok(b) ==> base_ok(c),
        column(c, l) == column(b, l),
{
    lemma_rekeyed(b, c, l);
    assert(others_kept(b, c, l));
    lemma_others_kept_step(a, b, c, l);
    if others_ok(b, l) {
        assert forall|k: u64| k != l implies #[trigger] key_ok(c, k) by {
            assert(key_ok(b, k));
            assert(key_ok(c, k) == key_ok(b, k));
        }
    }
}

/// States with the same pages keep every logical index.
pub proof fn lemma_same_pages_kept(a: PageModel, b: PageModel, c: PageModel, l: u64)
    requires
        others_kept(a, b, l),
        same_pages(b, c),
        c.lower == b.lower,
    ensures
        others_kept(a, c, l),
        others_ok(b, l) ==> others_ok(c, l),
        key_ok(c, l) == key_ok(b, l),
        column(c, l) == column(b, l),
{
    lemma_same_pages(b, c);
    assert(others_kept(b, c, l));
    lemma_others_kept_step(a, b, c, l);
    if others_ok(b, l) {
        assert forall|k: u64| k != l implies #[trigger] key_ok(c, k) by {
            assert(key_ok(b, k));
            assert(key_ok(c, k) == key_ok(b, k));
        }
    }
}

/// States that keep all but one logical index have the same blocks below.
pub proof fn lemma_others_kept_lower(a: PageModel, b: PageModel, l: u64)
    requires
        others_kept(a, b, l),
    ensures
        b.lower == a.lower,
{
}

/// A state keeps its own logical indexes.
pub proof fn lemma_others_kept_self(a: PageModel, l: u64)
    ensures
        others_kept(a, a, l),
{
}

/// How much a step that writes at page `p` is sure to gain: a page that
/// holds nothing but an empty chunk takes at least one byte.
pub closed spec fn credit(m: PageModel, p: u64, l: u64) -> int {
    if m.sizes[p] == 32 && column(m, l)[p].1.len() == 0 {
        0
    } else {
        1
    }
}

/// What is left to do when `offset` bytes of `len` are written and the
/// page at position `j` of the chain is next.
pub closed spec fn work_left(m: PageModel, l: u64, len: int, offset: int, j: int, p: u64) -> int {
    2 * (len - offset) + (m.chains[l].len() - j) + credit(m, p, l)
}

/// Every logical index is consistent.
pub closed spec fn keys_ok(m: PageModel) -> bool {
    forall|l: u64| #[trigger] key_ok(m, l)
}

/// The step that puts new bytes into the chunk of `l` in the page at
/// position `j` of its chain, and keeps the link of the chunk.
pub proof fn lemma_step_rewrite(
    m0: PageModel,
    m1: PageModel,
    m2: PageModel,
    l: u64,
    p: u64,
    j: int,
    d: ChunkView,
)
    requires
        keys_ok(m0),
        m0.index.contains_key(l),
        0 <= j < m0.chains[l].len(),
        m0.chains[l][j] == p,
        same_pages(m0, m1),
        m1.lower == m0.lower,
        chunk_changed(m1, m2, p, l),
        chunks_at(m2, p).contains_key(l),
        chunks_at(m2, p)[l] == d,
        d.0 == column(m0, l)[p].0,
    ensures
        keys_ok(m2),
        others_kept(m0, m2, l),
        m2.index == m0.index,
        m2.chains == m0.chains,
        column(m2, l) == column(m0, l).insert(p, d),
        value_along(column(m2, l), m0.chains[l].take(j + 1)) == value_along(
            column(m0, l),
            m0.chains[l].take(j),
        ) + d.1,
{
    lemma_others_kept_self(m0, l);
    lemma_same_pages_kept(m0, m0, m1, l);
    lemma_chunk_changed(m1, m2, p, l);
    lemma_chunk_changed_kept(m0, m1, m2, p, l);
    assert(key_ok(m0, l));
    lemma_chain_rewrite(column(m0, l), m0.index[l], m0.chains[l], j, d);
    assert(others_ok(m0, l));
    assert forall|k: u64| #[trigger] key_ok(m2, k) by {
        if k != l {
            assert(others_ok(m2, l));
        }
    }
}

/// The step that links the last page of the chain of `l` to a new page
/// `f`, which holds an empty chunk, and puts new bytes into that last page.
pub proof fn lemma_step_extend(
    m0: PageModel,
    m1: PageModel,
    m2: PageModel,
    m3: PageModel,
    m4: PageModel,
    l: u64,
    p: u64,
    f: u64,
    part: Seq<u8>,
)
    requires
        keys_ok(m0),
        m0.index.contains_key(l),
        m0.chains[l].last() == p,
        same_pages(m0, m1),
        m1.lower == m0.lower,
        f != 0,
        !m1.sizes.contains_key(f),
        chunk_changed(m1, m2, f, l),
        chunks_at(m2, f).contains_key(l),
        chunks_at(m2, f)[l] == (0u64, Seq::<u8>::empty()),
        chunk_changed(m2, m3, p, l),
        chunks_at(m3, p).contains_key(l),
        chunks_at(m3, p)[l] == (f, part),
        rekeyed(m3, m4, l),
        m4.index == m3.index,
        m4.chains == m3.chains.insert(l, m0.chains[l].push(f)),
    ensures
        keys_ok(m4),
        others_kept(m0, m4, l),
        m4.index == m0.index,
        column(m4, l)[f] == (0u64, Seq::<u8>::empty()),
        value_along(column(m4, l), m0.chains[l]) == value_along(
            column(m0, l),
            m0.chains[l].drop_last(),
        ) + part,
{
    let chain = m0.chains[l];
    lemma_others_kept_self(m0, l);
    lemma_same_pages_kept(m0, m0, m1, l);
    lemma_chunk_changed(m1, m2, f, l);
    lemma_chunk_changed_kept(m0, m1, m2, f, l);
    lemma_chunk_changed(m2, m3, p, l);
    lemma_chunk_changed_kept(m0, m2, m3, p, l);
    lemma_rekeyed_kept(m0, m3, m4, l);
    assert(key_ok(m0, l));
    assert(!column(m0, l).contains_key(f));
    lemma_chain_extend(column(m0, l), m0.index[l], chain, f, part);
    assert(others_ok(m0, l));
    assert(column(m4, l) == column(m0, l).insert(f, (0u64, Seq::<u8>::empty())).insert(
        p,
        (f, part),
    ));
    assert forall|k: u64| #[trigger] key_ok(m4, k) by {
        if k != l {
            assert(others_ok(m4, l));
        }
    }
}

/// The step that takes the page after position `j` out of the chain of `l`.
pub proof fn lemma_step_unlink(
    m0: PageModel,
    m1: PageModel,
    m2: PageModel,
    m3: PageModel,
    m4: PageModel,
    m5: PageModel,
    l: u64,
    j: int,
)
    requires
        keys_ok(m0),
        m0.index.contains_key(l),
        0 <= j,
        j + 1 < m0.chains[l].len(),
        same_pages(m0, m1),
        m1.lower == m0.lower,
        chunk_changed(m1, m2, m0.chains[l][j + 1], l),
        !chunks_at(m2, m0.chains[l][j + 1]).contains_key(l),
        chunk_changed(m2, m3, m0.chains[l][j], l),
        !chunks_at(m3, m0.chains[l][j]).contains_key(l),
        chunk_changed(m3, m4, m0.chains[l][j], l),
        chunks_at(m4, m0.chains[l][j]).contains_key(l),
        chunks_at(m4, m0.chains[l][j])[l] == (
            column(m0, l)[m0.chains[l][j + 1]].0,
            column(m0, l)[m0.chains[l][j]].1,
        ),
        rekeyed(m4, m5, l),
        m5.index == m4.index,
        m5.chains == m4.chains.insert(l, m0.chains[l].remove(j + 1)),
    ensures
        keys_ok(m5),
        others_kept(m0, m5, l),
        m5.index == m0.index,
        value_along(column(m5, l), m5.chains[l].take(j + 1)) == value_along(
            column(m0, l),
            m0.chains[l].take(j + 1),
        ),
        column(m5, l)[m0.chains[l][j]].0 == next_in(m5.chains[l], j),
{
    let chain = m0.chains[l];
    let t = chain[j + 1];
    let cur = chain[j];
    lemma_others_kept_self(m0, l);
    lemma_same_pages_kept(m0, m0, m1, l);
    lemma_chunk_changed(m1, m2, t, l);
    lemma_chunk_changed_kept(m0, m1, m2, t, l);
    lemma_chunk_changed(m2, m3, cur, l);
    lemma_chunk_changed_kept(m0, m2, m3, cur, l);
    lemma_chunk_changed(m3, m4, cur, l);
    lemma_chunk_changed_kept(m0, m3, m4, cur, l);
    lemma_rekeyed_kept(m0, m4, m5, l);
    assert(key_ok(m0, l));
    lemma_chain_unlink(column(m0, l), m0.index[l], chain, j);
    assert(others_ok(m0, l));
    let c0 = column(m0, l);
    assert(column(m5, l) =~= c0.remove(t).insert(cur, (c0[t].0, c0[cur].1)));
    assert forall|k: u64| #[trigger] key_ok(m5, k) by {
        if k != l {
            assert(others_ok(m5, l));
        }
    }
}

/// A state without logical indexes and without data pages is consistent.
pub proof fn lemma_empty_keys_ok(m: PageModel)
    requires
        forall|l: u64| !m.index.contains_key(l),
        forall|p: u64| !m.sizes.contains_key(p),
    ensures
        keys_ok(m),
{
    assert forall|l: u64| #[trigger] key_ok(m, l) by {}
}

/// The step that takes the chunk of `l` out of the first page of its chain.
pub proof fn lemma_step_behead(
    m0: PageModel,
    m1: PageModel,
    m2: PageModel,
    m3: PageModel,
    l: u64,
)
    requires
        keys_ok(m0),
        m0.index.contains_key(l),
        same_pages(m0, m1),
        m1.lower == m0.lower,
        chunk_changed(m1, m2, m0.index[l], l),
        !chunks_at(m2, m0.index[l]).contains_key(l),
        rekeyed(m2, m3, l),
        column(m0, l)[m0.index[l]].0 == 0 ==> !m3.index.contains_key(l),
        column(m0, l)[m0.index[l]].0 != 0 ==> m3.index.contains_key(l) && m3.index[l] == column(
            m0,
            l,
        )[m0.index[l]].0 && m3.chains.contains_key(l) && m3.chains[l]
            == m0.chains[l].drop_first(),
    ensures
        keys_ok(m3),
        others_kept(m0, m3, l),
        base_ok(m2) ==> base_ok(m3),
{
    let head = m0.index[l];
    lemma_others_kept_self(m0, l);
    lemma_same_pages_kept(m0, m0, m1, l);
    lemma_chunk_changed(m1, m2, head, l);
    lemma_chunk_changed_kept(m0, m1, m2, head, l);
    lemma_rekeyed_kept(m0, m2, m3, l);
    assert(key_ok(m0, l));
    lemma_chain_behead(column(m0, l), head, m0.chains[l]);
    assert(others_ok(m0, l));
    assert(column(m3, l) == column(m0, l).remove(head));
    assert forall|k: u64| #[trigger] key_ok(m3, k) by {
        if k != l {
            assert(others_ok(m3, l));
        }
    }
}

/// The step that gives `l`, which has no value, an empty chunk in page `head`.
pub proof fn lemma_step_start(
    m0: PageModel,
    m1: PageModel,
    m2: PageModel,
    m3: PageModel,
    l: u64,
    head: u64,
)
    requires
        l <= usize::MAX,
        keys_ok(m0),
        !m0.index.contains_key(l),
        same_pages(m0, m1),
        m1.lower == m0.lower,
        chunk_changed(m1, m2, head, l),
        head != 0,
        chunks_at(m2, head).contains_key(l),
        chunks_at(m2, head)[l] == (0u64, Seq::<u8>::empty()),
        rekeyed(m2, m3, l),
        m3.index == m2.index.insert(l, head),
        m3.chains == m2.chains.insert(l, seq![head]),
    ensures
        keys_ok(m3),
        others_kept(m0, m3, l),
        base_ok(m2) ==> base_ok(m3),
        value_of(m3, l) == Seq::<u8>::empty(),
{
    lemma_others_kept_self(m0, l);
    lemma_same_pages_kept(m0, m0, m1, l);
    lemma_chunk_changed(m1, m2, head, l);
    lemma_chunk_changed_kept(m0, m1, m2, head, l);
    lemma_rekeyed_kept(m0, m2, m3, l);
    assert(key_ok(m0, l));
    lemma_chain_single(column(m0, l), head);
    assert(others_ok(m0, l));
    assert(column(m3, l) == column(m0, l).insert(head, (0u64, Seq::<u8>::empty())));
    assert forall|k: u64| #[trigger] key_ok(m3, k) by {
        if k != l {
            assert(others_ok(m3, l));
        }
    }
}

/// States with the same pages are consistent together.
pub proof fn lemma_same_pages_keys_ok(a: PageModel, b: PageModel)
    requires
        same_pages(a, b),
        keys_ok(a),
    ensures
        keys_ok(b),
        b.lower == a.lower ==> forall|l: u64| others_kept(a, b, l),
        forall|l: u64| #[trigger] column(a, l) == column(b, l),
{
    lemma_same_pages(a, b);
    assert forall|l: u64| #[trigger] key_ok(b, l) by {
        assert(key_ok(a, l));
    }
}

/// `b` is `a` but for the blocks below.
pub open spec fn lower_changed(a: PageModel, b: PageModel) -> bool {
    &&& b.tidy == a.tidy
    &&& b.page_size == a.page_size
    &&& b.meta == a.meta
    &&& b.sizes == a.sizes
    &&& b.dirty == a.dirty
    &&& b.index == a.index
    &&& b.chains == a.chains
}

/// A change below at a place that holds no stored data page changes no page.
pub proof fn lemma_lower_changed(a: PageModel, b: PageModel, i: usize)
    requires
        base_ok(a),
        lower_changed(a, b),
        b.lower.remove(i) == a.lower.remove(i),
        !a.sizes.contains_key(i as u64) || a.dirty.contains_key(i as u64),
    ensures
        base_ok(b),
        same_pages(a, b),
{
    assert forall|p: u64| a.sizes.contains_key(p) implies #[trigger] page_of(a, p) == page_of(
        b,
        p,
    ) && page_ok(b, p) by {
        assert(page_ok(a, p));
        if !a.dirty.contains_key(p) {
            assert(p as usize != i);
            assert(a.lower.remove(i).contains_key(p as usize) == a.lower.contains_key(p as usize));
            assert(b.lower.remove(i).contains_key(p as usize) == b.lower.contains_key(p as usize));
            assert(a.lower.remove(i)[p as usize] == a.lower[p as usize]);
            assert(b.lower.remove(i)[p as usize] == b.lower[p as usize]);
        }
    }
}

/// The size of a page is at least that of each chunk in it.
pub proof fn lemma_chunk_fits(s: ChunkSeq, i: int)
    requires
        0 <= i < s.len(),
    ensures
        crate::page_format::chunks_size(s) >= 24 + s[i].1.1.len(),
        crate::page_format::chunks_size(s) >= 24 * s.len(),
{
    crate::page_format::lemma_chunks_size_remove(s, i);
    crate::page_format::lemma_chunks_size_nonneg(s.remove(i));
    crate::page_format::lemma_chunks_size_nonneg(s);
}

/// A page that fits is read back from its padded bytes, which fill a page.
pub proof fn lemma_stored_page(s: ChunkSeq, page_size: u64)
    requires
        data_page_size(s) <= page_size,
    ensures
        parse_data_page(crate::page_format::padded(crate::page_format::data_page_bytes(s), page_size as int))
            == Some(s),
        crate::page_format::padded(crate::page_format::data_page_bytes(s), page_size as int).len()
            == page_size,
{
    crate::page_format::lemma_chunks_size_nonneg(s);
    assert forall|i: int| 0 <= i < s.len() implies (#[trigger] s[i]).1.1.len() <= u64::MAX by {
        lemma_chunk_fits(s, i);
    }
    crate::page_format::lemma_parse_data_page(s, page_size as int);
}

/// `b` is `a` after its dirty pages were stored below: those that hold
/// chunks are read from below, those that hold none are no longer recorded.
pub open spec fn dirty_forgotten(a: PageModel, b: PageModel) -> bool {
    &&& b.tidy == a.tidy
    &&& b.page_size == a.page_size
    &&& b.meta == a.meta
    &&& b.index == a.index
    &&& b.chains == a.chains
    &&& b.lower == a.lower
    &&& forall|p: u64| !b.dirty.contains_key(p)
    &&& forall|p: u64| #[trigger]
        b.sizes.contains_key(p) == (a.sizes.contains_key(p) && !(a.dirty.contains_key(p)
            && a.dirty[p].len() == 0))
    &&& forall|p: u64| #[trigger] b.sizes.contains_key(p) ==> b.sizes[p] == a.sizes[p]
}

/// Data page `p`, if it is dirty and holds chunks, is stored below as it is.
pub open spec fn page_stored(m: PageModel, p: u64) -> bool {
    m.dirty.contains_key(p) && m.dirty[p].len() > 0 ==> m.lower.contains_key(p as usize)
        && m.lower[p as usize] == crate::page_format::padded(
        crate::page_format::data_page_bytes(m.dirty[p]),
        m.page_size as int,
    )
}

/// Forgetting dirty pages that are stored below changes no value.
pub proof fn lemma_forget_dirty(a: PageModel, b: PageModel)
    requires
        base_ok(a),
        keys_ok(a),
        dirty_forgotten(a, b),
        forall|p: u64| page_stored(a, p),
    ensures
        base_ok(b),
        keys_ok(b),
        model_blocks(b) == model_blocks(a),
        forall|p: u64| #[trigger] b.sizes.contains_key(p) ==> b.lower[p as usize].len() == b.page_size,
{
    assert forall|p: u64| #[trigger] b.sizes.contains_key(p) implies page_of(b, p) == page_of(a, p)
        && page_ok(b, p) && b.sizes[p] > 8 by {
        assert(a.sizes.contains_key(p));
        assert(page_ok(a, p));
        if a.dirty.contains_key(p) {
            assert(page_stored(a, p));
            lemma_stored_page(a.dirty[p], a.page_size);
            crate::page_format::lemma_chunks_size_nonneg(a.dirty[p]);
        }
    }
    assert forall|l: u64| #[trigger] column(b, l) == column(a, l) by {
        assert forall|p: u64| column(b, l).contains_key(p) == column(a, l).contains_key(p) by {
            if a.sizes.contains_key(p) {
                if b.sizes.contains_key(p) {
                    assert(page_of(b, p) == page_of(a, p));
                } else {
                    assert(a.dirty[p].len() == 0);
                    assert(!has_key(page_of(a, p), l)) by {
                        if has_key(page_of(a, p), l) {
                            let i = crate::sorted_map::position_of(page_of(a, p), l);
                            assert(crate::sorted_map::holds_at(page_of(a, p), l, i));
                        }
                    }
                }
            } else {
                assert(!b.sizes.contains_key(p));
            }
        }
        assert forall|p: u64| column(b, l).contains_key(p) implies column(b, l)[p] == column(
            a,
            l,
        )[p] by {
            assert(b.sizes.contains_key(p));
            assert(page_of(b, p) == page_of(a, p));
        }
        assert(column(b, l) =~= column(a, l));
    }
    assert forall|l: u64| #[trigger] key_ok(b, l) by {
        assert(key_ok(a, l));
        assert(column(b, l) == column(a, l));
    }
    assert forall|i: usize| b.index.contains_key(#[trigger] key_of(i)) implies value_of(
        b,
        key_of(i),
    ) == value_of(a, key_of(i)) by {
        assert(column(b, key_of(i)) == column(a, key_of(i)));
    }
    assert(model_blocks(b) =~= model_blocks(a));
    assert forall|i: int| 0 <= i < b.meta.len() implies !b.sizes.contains_key(#[trigger] b.meta[i])
        && b.meta[i] <= usize::MAX by {
        assert(!a.sizes.contains_key(a.meta[i]));
    }
}

/// Having the same pages carries over from step to step.
pub proof fn lemma_same_pages_trans(a: PageModel, b: PageModel, c: PageModel)
    requires
        same_pages(a, b),
        same_pages(b, c),
    ensures
        same_pages(a, c),
{
    assert forall|p: u64| a.sizes.contains_key(p) implies #[trigger] page_of(a, p) == page_of(
        c,
        p,
    ) by {
        assert(page_of(a, p) == page_of(b, p));
        assert(page_of(b, p) == page_of(c, p));
    }
}

/// A state has the same pages as itself.
pub proof fn lemma_same_pages_self(a: PageModel)
    ensures
        same_pages(a, a),
{
}

/// What is left to do is never negative while the position is in the chain.
pub proof fn lemma_work_left_bound(m: PageModel, l: u64, len: int, offset: int, j: int, p: u64)
    requires
        offset <= len,
        j <= m.chains[l].len(),
    ensures
        work_left(m, l, len, offset, j, p) >= 0,
{
}

/// A step to the next page of the chain leaves less to do, if it wrote a
/// byte or left a page that holds more than an empty chunk.
pub proof fn lemma_work_left_next(
    a: PageModel,
    b: PageModel,
    l: u64,
    len: int,
    offset: int,
    n: int,
    j: int,
    p: u64,
    q: u64,
)
    requires
        b.chains[l] == a.chains[l],
        n >= 0,
        n >= 1 || !(a.sizes[p] == 32 && column(a, l)[p].1.len() == 0),
    ensures
        work_left(b, l, len, offset + n, j + 1, q) < work_left(a, l, len, offset, j, p),
{
}

/// A step to a new page at the end of the chain leaves less to do, if it
/// wrote a byte or left a page that holds more than an empty chunk.
pub proof fn lemma_work_left_new(
    a: PageModel,
    b: PageModel,
    l: u64,
    len: int,
    offset: int,
    n: int,
    j: int,
    p: u64,
    f: u64,
)
    requires
        b.chains[l] == a.chains[l].push(f),
        n >= 0,
        n >= 1 || !(a.sizes[p] == 32 && column(a, l)[p].1.len() == 0),
        b.sizes[f] == 32,
        column(b, l)[f].1.len() == 0,
    ensures
        work_left(b, l, len, offset + n, j + 1, f) < work_left(a, l, len, offset, j, p),
{
}

/// What a step of writing leaves: the chain up to the page written spells
/// the bytes written so far, and a step that goes on to a next page leaves
/// less to do.
pub open spec fn step_done(
    a: PageModel,
    b: PageModel,
    l: u64,
    data: Seq<u8>,
    offset: int,
    j: int,
    cur: u64,
    next: Option<u64>,
    reached: int,
) -> bool {
    let chain = b.chains[l];
    &&& offset <= reached <= data.len()
    &&& j < chain.len()
    &&& chain[j] == cur
    &&& b.dirty.contains_key(cur)
    &&& value_along(column(b, l), chain.take(j + 1)) == data.take(reached)
    &&& next is Some ==> j + 1 < chain.len() && chain[j + 1] == next->0 && work_left(
        b,
        l,
        data.len() as int,
        reached,
        j + 1,
        next->0,
    ) < work_left(a, l, data.len() as int, offset, j, cur)
    &&& next is None ==> reached == data.len()
}

/// States with the same pages leave the same to do.
pub proof fn lemma_same_step(a: PageModel, b: PageModel, l: u64, len: int, offset: int, j: int, p: u64)
    requires
        same_pages(a, b),
    ensures
        work_left(a, l, len, offset, j, p) == work_left(b, l, len, offset, j, p),
{
    lemma_same_pages(a, b);
    assert(column(a, l) == column(b, l));
}

/// In a consistent state every recorded data page is in order, and every
/// dirty page is recorded.
pub proof fn lemma_base_page(m: PageModel, p: u64)
    requires
        base_ok(m),
        m.sizes.contains_key(p) || m.dirty.contains_key(p),
    ensures
        m.sizes.contains_key(p),
        page_ok(m, p),
        m.page_size <= usize::MAX,
        forall|i: int| 0 <= i < m.meta.len() ==> #[trigger] m.meta[i] != p,
{
    assert forall|i: int| 0 <= i < m.meta.len() implies #[trigger] m.meta[i] != p by {
        assert(!m.sizes.contains_key(m.meta[i]));
    }
}

/// In a consistent state the meta pages are distinct places that fit the
/// store below and hold no data page; the first one is place 0.
pub proof fn lemma_base_meta(m: PageModel)
    requires
        base_ok(m),
    ensures
        m.page_size <= usize::MAX,
        m.meta.no_duplicates(),
        forall|i: int|
            0 <= i < m.meta.len() ==> !m.sizes.contains_key(#[trigger] m.meta[i]) && m.meta[i]
                <= usize::MAX,
        m.meta.len() > 0 ==> m.meta[0] == 0,
{
}

/// In a consistent state every data page that is not dirty holds a chunk.
pub proof fn lemma_base_stocked(m: PageModel)
    requires
        base_ok(m),
    ensures
        stocked(m),
        forall|p: u64| #[trigger]
            m.sizes.contains_key(p) && !m.dirty.contains_key(p) ==> page_of(m, p).len() > 0,
{
    assert forall|p: u64| #[trigger] m.sizes.contains_key(p) && !m.dirty.contains_key(
        p,
    ) implies page_of(m, p).len() > 0 by {
        assert(page_ok(m, p));
    }
}

/// A state is consistent if its pages are in order, its dirty pages are
/// recorded, those that are not dirty hold a chunk, and its meta pages
/// are distinct places apart from the data pages.
pub proof fn lemma_base_intro(m: PageModel)
    requires
        stocked(m),
        m.page_size <= usize::MAX,
        forall|p: u64| #[trigger] m.dirty.contains_key(p) ==> m.sizes.contains_key(p),
        forall|p: u64| #[trigger] m.sizes.contains_key(p) ==> page_ok(m, p),
        m.meta.no_duplicates(),
        forall|i: int|
            0 <= i < m.meta.len() ==> !m.sizes.contains_key(#[trigger] m.meta[i]) && m.meta[i]
                <= usize::MAX,
        m.meta.len() > 0 ==> m.meta[0] == 0,
    ensures
        base_ok(m),
{
}

/// A state with the same pages and the same blocks below, in which more
/// pages may be dirty, is consistent too.
pub proof fn lemma_same_pages_base(a: PageModel, b: PageModel)
    requires
        base_ok(a),
        same_pages(a, b),
        b.lower == a.lower,
        forall|q: u64| #[trigger] b.dirty.contains_key(q) ==> b.sizes.contains_key(q),
        forall|q: u64| #[trigger] a.dirty.contains_key(q) ==> b.dirty.contains_key(q),
    ensures
        base_ok(b),
{
    assert forall|q: u64| #[trigger] b.sizes.contains_key(q) implies page_ok(b, q) by {
        assert(page_ok(a, q));
        assert(page_of(a, q) == page_of(b, q));
    }
}

/// A change to page `p` leaves every other page as it was.
pub proof fn lemma_other_pages(a: PageModel, b: PageModel, p: u64, q: u64)
    requires
        page_changed(a, b, p),
        q != p,
    ensures
        page_of(b, q) == page_of(a, q),
        chunks_at(b, q) == chunks_at(a, q),
        b.sizes.contains_key(q) == a.sizes.contains_key(q),
        b.sizes[q] == a.sizes[q],
        b.dirty.contains_key(q) == a.dirty.contains_key(q),
{
    assert(b.dirty.contains_key(q) == a.dirty.contains_key(q));
}

/// How much the chunk of `l` adds to the size of page `p` (0 if there is none).
pub open spec fn weight(m: PageModel, p: u64, l: u64) -> int {
    if chunks_at(m, p).contains_key(l) {
        24 + (chunks_at(m, p)[l].1.len() as int)
    } else {
        0
    }
}

/// How many bytes the chunk of `l` in page `p` can hold: what the page
/// has left when that chunk holds none.
pub open spec fn chunk_room(m: PageModel, p: u64, l: u64) -> int {
    m.page_size - (m.sizes[p] - weight(m, p, l)) - 24
}

/// How many of `rest` bytes the chunk of `l` in page `p` takes: all of
/// them, or as many as the page has room for.
pub open spec fn chunk_take(m: PageModel, p: u64, l: u64, rest: int) -> int {
    if rest <= chunk_room(m, p, l) {
        rest
    } else {
        chunk_room(m, p, l)
    }
}

/// A page of `page_size` bytes has no room for a value of `len` bytes: it
/// takes no chunk, or none but an empty one.
pub open spec fn no_room(page_size: u64, len: nat) -> bool {
    page_size < 32 || (page_size < 33 && len > 0)
}

/// No place up to `u32::MAX` can take a new page.
pub open spec fn no_free(m: PageModel) -> bool {
    forall|f: u64| f <= u32::MAX ==> !#[trigger] free_at(m, Seq::<u64>::empty(), f)
}

/// No place up to `u32::MAX` can take a new page beside at most `bound`
/// places that are set aside.
pub open spec fn meta_lacks(m: PageModel, bound: int) -> bool {
    exists|reserved: Seq<u64>|
        reserved.len() <= bound && forall|f: u64|
            f <= u32::MAX ==> !#[trigger] free_at(m, reserved, f)
}

/// A state that leaves no place free beside the places set aside lacks
/// places.
pub proof fn lemma_meta_lacks(m: PageModel, reserved: Seq<u64>, bound: int)
    requires
        reserved.len() <= bound,
        forall|f: u64| f <= u32::MAX ==> !#[trigger] free_at(m, reserved, f),
    ensures
        meta_lacks(m, bound),
{
}

/// A state that lacks places beside some lacks them beside more.
pub proof fn lemma_meta_lacks_more(m: PageModel, few: int, more: int)
    requires
        meta_lacks(m, few),
        few <= more,
    ensures
        meta_lacks(m, more),
{
    let reserved = choose|reserved: Seq<u64>|
        reserved.len() <= few && forall|f: u64|
            f <= u32::MAX ==> !#[trigger] free_at(m, reserved, f);
    lemma_meta_lacks(m, reserved, more);
}

/// Whether `f` can take a new page: it is not 0, holds no page of this
/// layer, is not set aside, and holds no block below.
pub open spec fn free_at(m: PageModel, reserved: Seq<u64>, f: u64) -> bool {
    &&& f != 0
    &&& !m.sizes.contains_key(f)
    &&& !m.meta.contains(f)
    &&& !reserved.contains(f)
    &&& !m.lower.contains_key(f as usize)
}

/// The page size, the meta pages, the index and the chains are the same.
pub open spec fn same_index(a: PageModel, b: PageModel) -> bool {
    &&& b.tidy == a.tidy
    &&& b.page_size == a.page_size
    &&& b.meta == a.meta
    &&& b.index == a.index
    &&& b.chains == a.chains
}

/// `b` is `a` but for the places of the meta pages.
pub open spec fn meta_changed(a: PageModel, b: PageModel) -> bool {
    &&& b.tidy == a.tidy
    &&& b.page_size == a.page_size
    &&& b.sizes == a.sizes
    &&& b.dirty == a.dirty
    &&& b.index == a.index
    &&& b.lower == a.lower
    &&& b.chains == a.chains
}

/// Other places for the meta pages change no value.
pub proof fn lemma_meta_changed(a: PageModel, b: PageModel)
    requires
        base_ok(a),
        keys_ok(a),
        meta_changed(a, b),
        b.meta.no_duplicates(),
        forall|i: int|
            0 <= i < b.meta.len() ==> !b.sizes.contains_key(#[trigger] b.meta[i]) && b.meta[i]
                <= usize::MAX,
        b.meta.len() > 0 ==> b.meta[0] == 0,
    ensures
        base_ok(b),
        keys_ok(b),
        model_blocks(b) == model_blocks(a),
{
    assert forall|p: u64| page_of(b, p) == page_of(a, p) by {}
    assert forall|q: u64| #[trigger] b.sizes.contains_key(q) implies page_ok(b, q) by {
        assert(page_ok(a, q));
        assert(page_of(b, q) == page_of(a, q));
    }
    assert forall|l: u64| #[trigger] column(b, l) == column(a, l) by {
        assert(column(b, l) =~= column(a, l));
    }
    assert forall|l: u64| #[trigger] key_ok(b, l) by {
        assert(key_ok(a, l));
        assert(column(b, l) == column(a, l));
    }
    assert forall|i: usize| b.index.contains_key(#[trigger] key_of(i)) implies value_of(
        b,
        key_of(i),
    ) == value_of(a, key_of(i)) by {
        assert(column(b, key_of(i)) == column(a, key_of(i)));
    }
    assert(model_blocks(b) =~= model_blocks(a));
}

/// Every data page is stored below in a block of the page size.
pub open spec fn data_pages_stored(m: PageModel) -> bool {
    &&& forall|p: u64| !m.dirty.contains_key(p)
    &&& forall|p: u64| #[trigger]
        m.sizes.contains_key(p) ==> m.lower.contains_key(p as usize) && m.lower[p as usize].len()
            == m.page_size
}

/// Every meta page is stored below in a block of the page size.
pub open spec fn meta_pages_stored(m: PageModel) -> bool {
    forall|i: int|
        0 <= i < m.meta.len() ==> m.lower.contains_key(#[trigger] m.meta[i] as usize)
            && m.lower[m.meta[i] as usize].len() == m.page_size
}

/// In a consistent state without dirty pages every data page is stored.
pub proof fn lemma_clean_is_stored(m: PageModel)
    requires
        base_ok(m),
        forall|p: u64| !m.dirty.contains_key(p),
    ensures
        data_pages_stored(m),
{
    assert forall|p: u64| #[trigger] m.sizes.contains_key(p) implies m.lower.contains_key(
        p as usize,
    ) && m.lower[p as usize].len() == m.page_size by {
        assert(page_ok(m, p));
    }
}

/// A change below at a place that holds no data page leaves the data pages stored.
pub proof fn lemma_stored_after_lower(a: PageModel, b: PageModel, place: u64)
    requires
        base_ok(a),
        data_pages_stored(a),
        lower_changed(a, b),
        !a.sizes.contains_key(place),
        place <= usize::MAX,
        b.lower.remove(place as usize) == a.lower.remove(place as usize),
    ensures
        data_pages_stored(b),
{
    assert forall|p: u64| #[trigger] b.sizes.contains_key(p) implies b.lower.contains_key(
        p as usize,
    ) && b.lower[p as usize].len() == b.page_size by {
        assert(page_ok(a, p));
        assert(p as usize != place as usize);
        assert(a.lower.remove(place as usize).contains_key(p as usize));
        assert(b.lower.remove(place as usize).contains_key(p as usize));
        assert(a.lower.remove(place as usize)[p as usize] == a.lower[p as usize]);
        assert(b.lower.remove(place as usize)[p as usize] == b.lower[p as usize]);
    }
}

/// What a consistent state says of the chain of a logical index that has
/// a value: it starts where the index says and has at least one page.
pub proof fn lemma_chain_head(m: PageModel, l: u64)
    requires
        keys_ok(m),
        m.index.contains_key(l),
    ensures
        m.chains.contains_key(l),
        m.chains[l].len() >= 1,
        m.chains[l][0] == m.index[l],
{
    assert(key_ok(m, l));
}

/// What a consistent state says of the page at position `j` of a chain: it
/// is a recorded data page other than 0, it holds a chunk of the logical
/// index, and the chunk is linked to the next page of the chain, or to 0
/// at the end; no page occurs twice.
pub proof fn lemma_chain_at(m: PageModel, l: u64, j: int)
    requires
        keys_ok(m),
        m.index.contains_key(l),
        0 <= j < m.chains[l].len(),
    ensures
        m.chains.contains_key(l),
        m.chains[l][0] == m.index[l],
        m.chains[l][j] != 0,
        m.sizes.contains_key(m.chains[l][j]),
        column(m, l).contains_key(m.chains[l][j]),
        chunks_at(m, m.chains[l][j]).contains_key(l),
        chunks_at(m, m.chains[l][j])[l] == column(m, l)[m.chains[l][j]],
        column(m, l)[m.chains[l][j]].0 == next_in(m.chains[l], j),
        column(m, l)[m.chains[l][j]].0 != 0 <==> j + 1 < m.chains[l].len(),
        forall|k: int| 0 <= k < m.chains[l].len() && k != j ==> #[trigger] m.chains[l][k] != m.chains[l][j],
{
    assert(key_ok(m, l));
    let chain = m.chains[l];
    assert(column(m, l).contains_key(chain[j]));
    if j + 1 < chain.len() {
        assert(column(m, l).contains_key(chain[j + 1]));
    }
}

/// In a consistent state a logical index without a value has no chunk.
pub proof fn lemma_no_chunk(m: PageModel, l: u64, p: u64)
    requires
        keys_ok(m),
        !m.index.contains_key(l),
        m.sizes.contains_key(p),
    ensures
        !column(m, l).contains_key(p),
        !chunks_at(m, p).contains_key(l),
{
    assert(key_ok(m, l));
    assert(!column(m, l).contains_key(p));
    if chunks_at(m, p).contains_key(l) {
        assert(has_key(page_of(m, p), l));
    }
}

/// The value of a logical index is what its chain spells.
pub proof fn lemma_whole_chain(m: PageModel, l: u64, j: int)
    requires
        j + 1 == m.chains[l].len(),
    ensures
        value_along(column(m, l), m.chains[l].take(j + 1)) == value_of(m, l),
{
    assert(m.chains[l].take(j + 1) =~= m.chains[l]);
}

/// The links of the chunks of logical index `l`, by data page.
pub open spec fn links_of(m: PageModel, l: u64) -> Map<u64, u64> {
    Map::new(|p: u64| column(m, l).contains_key(p), |p: u64| column(m, l)[p].0)
}

/// `links` holds the links of the chunks in the data pages below
/// `page_bound`, and in the page `page_bound` those of the logical indexes
/// below `key_bound`.
pub open spec fn links_cover(
    m: PageModel,
    links: Map<u64, Map<u64, u64>>,
    page_bound: int,
    key_bound: int,
) -> bool {
    &&& forall|l: u64, q: u64|
        #![trigger links[l].contains_key(q)]
        #![trigger column(m, l).contains_key(q)]
        (links.contains_key(l) && links[l].contains_key(q)) <==> (column(m, l).contains_key(q) && (q
            < page_bound || (q == page_bound && l < key_bound)))
    &&& forall|l: u64, q: u64|
        links.contains_key(l) && #[trigger] links[l].contains_key(q) ==> links[l][q] == column(
            m,
            l,
        )[q].0
}

/// Links that cover every page are the links of each logical index.
pub proof fn lemma_links_complete(m: PageModel, links: Map<u64, Map<u64, u64>>, l: u64)
    requires
        links_cover(m, links, u64::MAX + 1, 0),
    ensures
        links.contains_key(l) ==> links[l] == links_of(m, l),
        !links.contains_key(l) ==> forall|p: u64| !(#[trigger] column(m, l).contains_key(p)),
{
    if links.contains_key(l) {
        assert forall|q: u64| links[l].contains_key(q) == links_of(m, l).contains_key(q) by {}
        assert(links[l] =~= links_of(m, l));
    } else {
        assert forall|p: u64| !(#[trigger] column(m, l).contains_key(p)) by {
            if column(m, l).contains_key(p) {
                assert(links.contains_key(l) && links[l].contains_key(p));
            }
        }
    }
}

/// A walk along the links from `head`: `chain` holds the pages passed,
/// `rest` the links not yet passed, and `cur` is the page to pass next.
pub open spec fn walked(
    c: Map<u64, u64>,
    rest: Map<u64, u64>,
    head: u64,
    chain: Seq<u64>,
    cur: u64,
) -> bool {
    &&& chain.no_duplicates()
    &&& forall|q: u64| #[trigger] rest.contains_key(q) <==> c.contains_key(q) && !chain.contains(q)
    &&& forall|q: u64| #[trigger] rest.contains_key(q) ==> rest[q] == c[q]
    &&& forall|j: int|
        0 <= j < chain.len() ==> c.contains_key(#[trigger] chain[j]) && c[chain[j]] == (if j + 1
            < chain.len() {
            chain[j + 1]
        } else {
            cur
        })
    &&& chain.len() == 0 ==> cur == head
    &&& chain.len() > 0 ==> chain[0] == head
}

/// A walk starts with nothing passed.
pub proof fn lemma_walk_start(c: Map<u64, u64>, head: u64)
    ensures
        walked(c, c, head, Seq::<u64>::empty(), head),
{
}

/// A walk goes on over the page that is next, if a link of it is left.
pub proof fn lemma_walk_step(
    c: Map<u64, u64>,
    rest: Map<u64, u64>,
    head: u64,
    chain: Seq<u64>,
    cur: u64,
)
    requires
        walked(c, rest, head, chain, cur),
        rest.contains_key(cur),
    ensures
        walked(c, rest.remove(cur), head, chain.push(cur), rest[cur]),
{
    let grown = chain.push(cur);
    let left = rest.remove(cur);
    assert(grown.no_duplicates()) by {
        assert forall|i: int, k: int|
            0 <= i < grown.len() && 0 <= k < grown.len() && i != k implies grown[i] != grown[k] by {
            if i < chain.len() && k < chain.len() {
                assert(chain[i] != chain[k]);
            } else if i < chain.len() {
                assert(chain.contains(chain[i]));
            } else {
                assert(chain.contains(chain[k]));
            }
        }
    }
    assert forall|q: u64| #[trigger] left.contains_key(q) <==> c.contains_key(q)
        && !grown.contains(q) by {
        if left.contains_key(q) {
            assert(rest.contains_key(q));
            if grown.contains(q) {
                let i = choose|i: int| 0 <= i < grown.len() && grown[i] == q;
                if i < chain.len() {
                    assert(chain.contains(q));
                }
            }
        }
        if c.contains_key(q) && !grown.contains(q) {
            assert(q != cur) by {
                if q == cur {
                    assert(grown[chain.len() as int] == q);
                }
            }
            assert(!chain.contains(q)) by {
                if chain.contains(q) {
                    let i = choose|i: int| 0 <= i < chain.len() && chain[i] == q;
                    assert(grown[i] == q);
                }
            }
            assert(rest.contains_key(q));
        }
    }
    assert forall|j: int| 0 <= j < grown.len() implies c.contains_key(#[trigger] grown[j])
        && c[grown[j]] == (if j + 1 < grown.len() {
        grown[j + 1]
    } else {
        rest[cur]
    }) by {
        if j < chain.len() {
            assert(c.contains_key(chain[j]));
        }
    }
}

/// A walk that ends at a link to 0 with no link left has passed a chain.
pub proof fn lemma_walk_done(m: PageModel, l: u64, head: u64, chain: Seq<u64>)
    requires
        base_ok(m),
        chain.len() > 0,
        walked(links_of(m, l), Map::<u64, u64>::empty(), head, chain, 0),
    ensures
        chain_ok(column(m, l), head, chain),
{
    let c = links_of(m, l);
    let col = column(m, l);
    assert forall|p: u64| #[trigger] col.contains_key(p) implies chain.contains(p) by {
        assert(c.contains_key(p));
        assert(!Map::<u64, u64>::empty().contains_key(p));
    }
    assert forall|j: int| 0 <= j < chain.len() implies col.contains_key(#[trigger] chain[j])
        && chain[j] != 0 && col[chain[j]].0 == next_in(chain, j) by {
        assert(c.contains_key(chain[j]));
        assert(m.sizes.contains_key(chain[j]));
        assert(page_ok(m, chain[j]));
    }
}

/// A logical index with a chain is consistent.
pub proof fn lemma_key_intro(m: PageModel, l: u64)
    requires
        l <= usize::MAX,
        m.index.contains_key(l),
        m.chains.contains_key(l),
        chain_ok(column(m, l), m.index[l], m.chains[l]),
    ensures
        key_ok(m, l),
{
}

/// In a consistent state every logical index fits the store, so that a
/// layer that holds no block has no logical index.
pub proof fn lemma_index_fits(m: PageModel)
    requires
        keys_ok(m),
    ensures
        forall|l: u64| #[trigger] m.index.contains_key(l) ==> l <= usize::MAX,
        (forall|i: usize| !model_blocks(m).contains_key(i)) ==> forall|l: u64|
            !m.index.contains_key(l),
{
    assert forall|l: u64| #[trigger] m.index.contains_key(l) implies l <= usize::MAX by {
        assert(key_ok(m, l));
    }
    if forall|i: usize| !model_blocks(m).contains_key(i) {
        assert forall|l: u64| !m.index.contains_key(l) by {
            if m.index.contains_key(l) {
                assert(key_ok(m, l));
                let i = l as usize;
                assert(key_of(i) == l);
                assert(model_blocks(m).contains_key(i));
            }
        }
    }
}

/// A logical index without a value and without chunks is consistent.
pub proof fn lemma_key_intro_absent(m: PageModel, l: u64)
    requires
        !m.index.contains_key(l),
        forall|p: u64| !(#[trigger] column(m, l).contains_key(p)),
    ensures
        key_ok(m, l),
{
}

/// A state in which each logical index is consistent is consistent.
pub proof fn lemma_keys_intro(m: PageModel)
    requires
        forall|l: u64| key_ok(m, l),
    ensures
        keys_ok(m),
{
}

/// `b` is `a` but for the chains.
pub open spec fn chains_changed(a: PageModel, b: PageModel) -> bool {
    &&& b.page_size == a.page_size
    &&& b.meta == a.meta
    &&& b.sizes == a.sizes
    &&& b.dirty == a.dirty
    &&& b.index == a.index
    &&& b.lower == a.lower
}

/// Other chains change no page and no column.
pub proof fn lemma_chains_changed(a: PageModel, b: PageModel)
    requires
        chains_changed(a, b),
    ensures
        base_ok(a) ==> base_ok(b),
        forall|l: u64| #[trigger] column(b, l) == column(a, l),
        forall|l: u64| #[trigger] links_of(b, l) == links_of(a, l),
        forall|l: u64|
            b.chains.contains_key(l) == a.chains.contains_key(l) && b.chains[l] == a.chains[l]
                ==> #[trigger] key_ok(b, l) == key_ok(a, l),
{
    assert forall|p: u64| page_of(b, p) == page_of(a, p) by {}
    assert forall|l: u64| #[trigger] column(b, l) == column(a, l) by {
        assert(column(b, l) =~= column(a, l));
    }
    if base_ok(a) {
        assert forall|q: u64| #[trigger] b.sizes.contains_key(q) implies page_ok(b, q) by {
            assert(page_ok(a, q));
            assert(page_of(b, q) == page_of(a, q));
        }
    }
    assert forall|l: u64| #[trigger] links_of(b, l) == links_of(a, l) by {
        assert(column(b, l) == column(a, l));
        assert(links_of(b, l) =~= links_of(a, l));
    }
    assert forall|l: u64|
        b.chains.contains_key(l) == a.chains.contains_key(l) && b.chains[l]
            == a.chains[l] implies #[trigger] key_ok(b, l) == key_ok(a, l) by {
        assert(column(b, l) == column(a, l));
    }
}

/// The key at position `j` of a page, or more than any key at the end.
pub open spec fn key_bound(s: ChunkSeq, j: int) -> int {
    if 0 <= j < s.len() {
        s[j].0 as int
    } else {
        u64::MAX + 1
    }
}

/// The page at position `i` of the recorded sizes, or more than any page at the end.
pub open spec fn page_bound(s: Seq<(u64, u64)>, i: int) -> int {
    if 0 <= i < s.len() {
        s[i].0 as int
    } else {
        u64::MAX + 1
    }
}

/// The links still cover the pages after the link of the chunk at
/// position `j` of page `p` is added.
pub proof fn lemma_links_add(
    m: PageModel,
    links: Map<u64, Map<u64, u64>>,
    grown: Map<u64, Map<u64, u64>>,
    p: u64,
    j: int,
)
    requires
        m.sizes.contains_key(p),
        sorted(page_of(m, p)),
        0 <= j < page_of(m, p).len(),
        links_cover(m, links, p as int, key_bound(page_of(m, p), j)),
        grown == links.insert(
            page_of(m, p)[j].0,
            (if links.contains_key(page_of(m, p)[j].0) {
                links[page_of(m, p)[j].0]
            } else {
                Map::<u64, u64>::empty()
            }).insert(p, page_of(m, p)[j].1.0),
        ),
    ensures
        links_cover(m, grown, p as int, key_bound(page_of(m, p), j + 1)),
{
    let s = page_of(m, p);
    let l = s[j].0;
    crate::sorted_map::lemma_entry_in_map(s, j);
    assert(column(m, l).contains_key(p));
    assert forall|k: u64, q: u64|
        #![trigger grown[k].contains_key(q)]
        #![trigger column(m, k).contains_key(q)]
        (grown.contains_key(k) && grown[k].contains_key(q)) <==> (column(m, k).contains_key(q)
            && (q < p as int || (q == p as int && k < key_bound(s, j + 1)))) by {
        let was = links.contains_key(k) && links[k].contains_key(q);
        assert(was <==> (column(m, k).contains_key(q) && (q < p as int || (q == p as int && k
            < key_bound(s, j)))));
        if q == p {
            if column(m, k).contains_key(p) && k != l {
                assert(has_key(s, k));
                let i = crate::sorted_map::position_of(s, k);
                assert(crate::sorted_map::holds_at(s, k, i));
                if i < j {
                    assert(s[i].0 < s[j].0);
                } else {
                    assert(i > j);
                    if j + 1 < s.len() {
                        if i > j + 1 {
                            assert(s[j + 1].0 < s[i].0);
                        }
                    }
                }
            }
            if j + 1 < s.len() {
                assert(s[j].0 < s[j + 1].0);
            }
        }
    }
    assert forall|k: u64, q: u64|
        grown.contains_key(k) && #[trigger] grown[k].contains_key(q) implies grown[k][q] == column(
            m,
            k,
        )[q].0 by {
        if !(k == l && q == p) {
            assert(links.contains_key(k) && links[k].contains_key(q));
        }
    }
}

/// Links that cover all of page `p` cover the pages below the next one.
pub proof fn lemma_links_page_done(m: PageModel, links: Map<u64, Map<u64, u64>>, p: u64)
    requires
        links_cover(m, links, p as int, u64::MAX + 1),
    ensures
        links_cover(m, links, p + 1, 0),
{
    assert forall|k: u64, q: u64|
        #![trigger links[k].contains_key(q)]
        #![trigger column(m, k).contains_key(q)]
        (links.contains_key(k) && links[k].contains_key(q)) <==> (column(m, k).contains_key(q) && (q
            < p + 1 || (q == p + 1 && k < 0))) by {
        assert((links.contains_key(k) && links[k].contains_key(q)) <==> (column(m, k).contains_key(q)
            && (q < p as int || (q == p as int && k < u64::MAX + 1))));
    }
}

/// Links that cover the pages below `from` cover those below `to`, if no
/// page between them is recorded.
pub proof fn lemma_links_gap(m: PageModel, links: Map<u64, Map<u64, u64>>, from: int, to: int)
    requires
        links_cover(m, links, from, 0),
        from <= to,
        forall|q: u64| from <= q < to ==> !m.sizes.contains_key(q),
    ensures
        links_cover(m, links, to, 0),
{
    assert forall|k: u64, q: u64|
        #![trigger links[k].contains_key(q)]
        #![trigger column(m, k).contains_key(q)]
        (links.contains_key(k) && links[k].contains_key(q)) <==> (column(m, k).contains_key(q) && (q
            < to || (q == to && k < 0))) by {
        assert((links.contains_key(k) && links[k].contains_key(q)) <==> (column(m, k).contains_key(q)
            && (q < from || (q == from && k < 0))));
        if column(m, k).contains_key(q) {
            assert(m.sizes.contains_key(q));
        }
    }
}

/// A sorted sequence has no key strictly between two neighbours, below its
/// first key, or above its last key.
pub proof fn lemma_no_key_between<V>(s: Seq<(u64, V)>, i: int, q: u64)
    requires
        sorted(s),
        -1 <= i < s.len(),
        i >= 0 ==> s[i].0 < q,
        i + 1 < s.len() ==> q < s[i + 1].0,
    ensures
        !to_map(s).contains_key(q),
{
    if has_key(s, q) {
        let k = crate::sorted_map::position_of(s, q);
        assert(crate::sorted_map::holds_at(s, q, k));
        if k <= i {
            if k < i {
                assert(s[k].0 < s[i].0);
            }
        } else if i + 1 < s.len() {
            if k > i + 1 {
                assert(s[i + 1].0 < s[k].0);
            }
        }
    }
}

/// The links of a column allow one chain only.
pub proof fn lemma_chain_unique(c: Column, head: u64, one: Seq<u64>, other: Seq<u64>)
    requires
        chain_ok(c, head, one),
        chain_ok(c, head, other),
    ensures
        one == other,
{
    lemma_chain_agrees(c, head, one, other, 0);
    lemma_chain_agrees(c, head, other, one, 0);
    if one.len() < other.len() {
        lemma_chain_agrees(c, head, one, other, one.len() - 1);
        assert(c[one[one.len() - 1]].0 == 0);
        assert(other[one.len() as int] != 0);
    }
    if other.len() < one.len() {
        lemma_chain_agrees(c, head, other, one, other.len() - 1);
        assert(c[other[other.len() - 1]].0 == 0);
        assert(one[other.len() as int] != 0);
    }
    assert forall|i: int| 0 <= i < one.len() implies one[i] == other[i] by {
        lemma_chain_agrees(c, head, one, other, i);
    }
    assert(one =~= other);
}

/// Two chains of the same chunks from the same first page pass the same pages.
proof fn lemma_chain_agrees(c: Column, head: u64, one: Seq<u64>, other: Seq<u64>, i: int)
    requires
        chain_ok(c, head, one),
        chain_ok(c, head, other),
        0 <= i < one.len(),
        i < other.len(),
    ensures
        one[i] == other[i],
    decreases i,
{
    if i > 0 {
        lemma_chain_agrees(c, head, one, other, i - 1);
        assert(c[one[i - 1]].0 == next_in(one, i - 1));
        assert(c[other[i - 1]].0 == next_in(other, i - 1));
    }
}

/// No data page is dirty.
pub open spec fn clean(m: PageModel) -> bool {
    forall|p: u64| !m.dirty.contains_key(p)
}

/// Two consistent states without dirty pages over the same blocks, with
/// the same index and the same recorded pages, hold the same blocks.
pub proof fn lemma_reopened(a: PageModel, b: PageModel)
    requires
        keys_ok(a),
        keys_ok(b),
        clean(a),
        clean(b),
        a.lower == b.lower,
        a.index == b.index,
        a.sizes == b.sizes,
    ensures
        model_blocks(a) == model_blocks(b),
{
    assert forall|p: u64| page_of(a, p) == page_of(b, p) by {}
    assert forall|l: u64| #[trigger] column(a, l) == column(b, l) by {
        assert(column(a, l) =~= column(b, l));
    }
    assert forall|i: usize| a.index.contains_key(#[trigger] key_of(i)) implies value_of(
        a,
        key_of(i),
    ) == value_of(b, key_of(i)) by {
        let l = key_of(i);
        assert(key_ok(a, l));
        assert(key_ok(b, l));
        assert(column(a, l) == column(b, l));
        lemma_chain_unique(column(a, l), a.index[l], a.chains[l], b.chains[l]);
    }
    assert(model_blocks(a) =~= model_blocks(b));
}

/// The state `m` with the chains `chains`.
pub open spec fn with_chains(m: PageModel, chains: Map<u64, Seq<u64>>) -> PageModel {
    PageModel { chains, ..m }
}

/// The pages are consistent, and there are chains with which every
/// logical index is consistent.
pub open spec fn checkable(m: PageModel) -> bool {
    base_ok(m) && exists|chains: Map<u64, Seq<u64>>| keys_ok(#[trigger] with_chains(m, chains))
}

/// The chain of a logical index is a walk along its links that passes them all.
pub proof fn lemma_chain_walked(m: PageModel, l: u64)
    requires
        base_ok(m),
        keys_ok(m),
        m.index.contains_key(l),
    ensures
        m.chains[l].len() > 0,
        walked(links_of(m, l), Map::<u64, u64>::empty(), m.index[l], m.chains[l], 0),
        !links_of(m, l).contains_key(0),
        links_of(m, l).contains_key(m.index[l]),
        leads(links_of(m, l), m.index[l], m.chains[l]),
{
    assert(key_ok(m, l));
    let c = links_of(m, l);
    let chain = m.chains[l];
    assert forall|j: int| 0 <= j < chain.len() implies c.contains_key(#[trigger] chain[j])
        && c[chain[j]] == (if j + 1 < chain.len() {
        chain[j + 1]
    } else {
        0
    }) by {
        assert(column(m, l).contains_key(chain[j]));
    }
    assert(column(m, l).contains_key(chain[0]));
    if c.contains_key(0) {
        assert(m.sizes.contains_key(0));
        assert(page_ok(m, 0));
    }
}

/// A logical index without a value has no links.
pub proof fn lemma_no_links(m: PageModel, l: u64)
    requires
        keys_ok(m),
        !m.index.contains_key(l),
    ensures
        links_of(m, l) == Map::<u64, u64>::empty(),
{
    assert(key_ok(m, l));
    assert(links_of(m, l) =~= Map::<u64, u64>::empty());
}

/// Consistent states that differ in their chains only hold the same blocks.
pub proof fn lemma_rechained(a: PageModel, b: PageModel)
    requires
        chains_changed(a, b),
        keys_ok(a),
        keys_ok(b),
    ensures
        model_blocks(a) == model_blocks(b),
{
    lemma_chains_changed(a, b);
    assert forall|i: usize| a.index.contains_key(#[trigger] key_of(i)) implies value_of(
        a,
        key_of(i),
    ) == value_of(b, key_of(i)) by {
        let l = key_of(i);
        assert(key_ok(a, l));
        assert(key_ok(b, l));
        assert(column(a, l) == column(b, l));
        lemma_chain_unique(column(a, l), a.index[l], a.chains[l], b.chains[l]);
    }
    assert(model_blocks(a) =~= model_blocks(b));
}

/// A consistent state can be checked.
pub proof fn lemma_checkable(m: PageModel)
    requires
        base_ok(m),
        keys_ok(m),
    ensures
        checkable(m),
{
    assert(with_chains(m, m.chains) == m);
}

/// `w` is a chain over the links `c` from `head`: a walk can follow it.
pub closed spec fn leads(c: Map<u64, u64>, head: u64, w: Seq<u64>) -> bool {
    w.len() > 0 && walked(c, Map::<u64, u64>::empty(), head, w, 0) && !c.contains_key(0)
}

/// The walk `chain`, with `cur` next, has followed `w` so far.
pub closed spec fn following(
    c: Map<u64, u64>,
    rest: Map<u64, u64>,
    head: u64,
    chain: Seq<u64>,
    cur: u64,
    w: Seq<u64>,
) -> bool {
    &&& walked(c, rest, head, chain, cur)
    &&& leads(c, head, w)
    &&& chain.len() < w.len()
    &&& chain == w.take(chain.len() as int)
    &&& cur == w[chain.len() as int]
}

/// A walk that is led starts by following.
pub proof fn lemma_follow_start(c: Map<u64, u64>, head: u64, w: Seq<u64>)
    requires
        leads(c, head, w),
    ensures
        following(c, c, head, Seq::<u64>::empty(), head, w),
{
    lemma_walk_start(c, head);
    assert(w.take(0) =~= Seq::<u64>::empty());
}

/// A walk that has followed a chain so far goes on along it: the page
/// that is next has a link left, which leads to the next page of the
/// chain, or is 0 where the walk has passed all of it and no link is left.
pub proof fn lemma_follow_step(
    c: Map<u64, u64>,
    rest: Map<u64, u64>,
    head: u64,
    chain: Seq<u64>,
    cur: u64,
    w: Seq<u64>,
)
    requires
        following(c, rest, head, chain, cur, w),
    ensures
        rest.contains_key(cur),
        rest[cur] != 0 ==> following(c, rest.remove(cur), head, chain.push(cur), rest[cur], w),
        rest[cur] == 0 ==> forall|q: u64| !rest.remove(cur).contains_key(q),
{
    let j = chain.len() as int;
    assert(c.contains_key(w[j]));
    assert(!chain.contains(cur)) by {
        if chain.contains(cur) {
            let a = choose|a: int| 0 <= a < chain.len() && chain[a] == cur;
            assert(w[a] == chain[a]);
            assert(w[a] == w[j]);
        }
    }
    assert(rest.contains_key(cur));
    assert(chain.push(cur) =~= w.take(j + 1));
    lemma_walk_step(c, rest, head, chain, cur);
    if j + 1 < w.len() {
        assert(c.contains_key(w[j + 1]));
        assert(rest[cur] == w[j + 1]);
        assert(rest[cur] != 0);
    } else {
        assert(rest[cur] == 0);
        assert(w.take(j + 1) =~= w);
        let left = rest.remove(cur);
        assert forall|q: u64| !left.contains_key(q) by {
            if left.contains_key(q) {
                assert(c.contains_key(q) && !w.contains(q));
                assert(!Map::<u64, u64>::empty().contains_key(q));
            }
        }
    }
}

/// Nothing is below but the pages of the layer.
pub closed spec fn tidy_ok(m: PageModel) -> bool {
    forall|q: usize| #[trigger]
        m.lower.contains_key(q) ==> m.sizes.contains_key(key_of(q)) || m.meta.contains(key_of(q))
}

/// `b` is `a` but for whether it is held to be tidy.
pub open spec fn retidied(a: PageModel, b: PageModel) -> bool {
    &&& b.page_size == a.page_size
    &&& b.meta == a.meta
    &&& b.sizes == a.sizes
    &&& b.dirty == a.dirty
    &&& b.index == a.index
    &&& b.lower == a.lower
    &&& b.chains == a.chains
}

/// Whether a state is held to be tidy changes nothing of what it holds.
pub proof fn lemma_retidied(a: PageModel, b: PageModel)
    requires
        retidied(a, b),
    ensures
        base_ok(b) == base_ok(a),
        keys_ok(b) == keys_ok(a),
        model_blocks(b) == model_blocks(a),
        tidy_ok(b) == tidy_ok(a),
{
    lemma_chains_changed(a, b);
    lemma_chains_changed(b, a);
    if keys_ok(a) {
        assert forall|l: u64| #[trigger] key_ok(b, l) by {
            assert(key_ok(a, l));
        }
    }
    if keys_ok(b) {
        assert forall|l: u64| #[trigger] key_ok(a, l) by {
            assert(key_ok(b, l));
        }
    }
    assert forall|i: usize| value_of(b, #[trigger] key_of(i)) == value_of(a, key_of(i)) by {
        assert(column(b, key_of(i)) == column(a, key_of(i)));
    }
    assert(model_blocks(b) =~= model_blocks(a));
}

/// A state stays tidy where nothing changes below and every page that is
/// new or changed is dirty.
pub proof fn lemma_tidy_kept(a: PageModel, b: PageModel)
    requires
        tidy_ok(a),
        b.lower == a.lower,
        b.meta == a.meta,
        forall|p: u64| #[trigger] a.sizes.contains_key(p) ==> b.sizes.contains_key(p),
    ensures
        tidy_ok(b),
{
}

/// A state stays tidy where a dirty data page changes.
pub proof fn lemma_tidy_page_changed(a: PageModel, b: PageModel, p: u64)
    requires
        a.tidy ==> tidy_ok(a),
        page_changed(a, b, p),
    ensures
        b.tidy ==> tidy_ok(b),
{
    if a.tidy {
        assert(b.dirty.contains_key(p));
        assert(b.sizes.contains_key(p));
        lemma_tidy_kept(a, b);
    }
}

/// A state stays tidy where only the start and the chain of a logical
/// index change.
pub proof fn lemma_tidy_rekeyed(a: PageModel, b: PageModel, l: u64)
    requires
        a.tidy ==> tidy_ok(a),
        rekeyed(a, b, l),
    ensures
        b.tidy ==> tidy_ok(b),
{
    if a.tidy {
        lemma_tidy_kept(a, b);
    }
}

/// A state stays tidy where a dirty data page is stored below or removed
/// from there.
pub proof fn lemma_tidy_stored(a: PageModel, b: PageModel, p: u64)
    requires
        base_ok(a),
        tidy_ok(a),
        lower_changed(a, b),
        b.lower.remove(p as usize) == a.lower.remove(p as usize),
        a.dirty.contains_key(p),
    ensures
        tidy_ok(b),
{
    assert(a.sizes.contains_key(p));
    assert(page_ok(a, p));
    assert forall|q: usize| #[trigger] b.lower.contains_key(q) implies b.sizes.contains_key(
        key_of(q),
    ) || b.meta.contains(key_of(q)) by {
        if q != p as usize {
            assert(b.lower.remove(p as usize).contains_key(q));
            assert(a.lower.remove(p as usize).contains_key(q));
            assert(a.lower.contains_key(q));
        }
    }
}

/// Data page `p`, if it is dirty and holds no chunk, is not below.
pub open spec fn page_erased(m: PageModel, p: u64) -> bool {
    m.dirty.contains_key(p) && m.dirty[p].len() == 0 ==> !m.lower.contains_key(p as usize)
}

/// A tidy state is tidy after its dirty pages are forgotten, if those
/// that hold chunks are stored below and the others are not there.
pub proof fn lemma_tidy_forgotten(a: PageModel, b: PageModel)
    requires
        base_ok(a),
        tidy_ok(a),
        dirty_forgotten(a, b),
        forall|p: u64| page_erased(a, p),
    ensures
        tidy_ok(b),
{
    assert forall|q: usize| #[trigger] b.lower.contains_key(q) implies b.sizes.contains_key(
        key_of(q),
    ) || b.meta.contains(key_of(q)) by {
        let k = key_of(q);
        assert(k as usize == q);
        if a.sizes.contains_key(k) && !b.sizes.contains_key(k) {
            assert(page_erased(a, k));
        }
    }
}

/// `b` is `a` after its meta pages were stored anew: every block below is
/// a meta page of `b`, or was below `a` at a place that held no meta page.
pub open spec fn meta_rewritten(a: PageModel, b: PageModel) -> bool {
    &&& b.sizes == a.sizes
    &&& b.dirty == a.dirty
    &&& forall|q: usize| #[trigger]
        b.lower.contains_key(q) ==> b.meta.contains(key_of(q)) || (a.lower.contains_key(q)
            && !a.meta.contains(key_of(q)))
}

/// Meta pages are stored anew where they are written to `places`, which
/// begin with the places of before, and the places of before that are
/// no longer used are removed.
pub proof fn lemma_meta_rewritten(
    a: PageModel,
    w: PageModel,
    e: PageModel,
    b: PageModel,
    places: Seq<u64>,
)
    requires
        forall|k: int| 0 <= k < a.meta.len() ==> #[trigger] a.meta[k] <= usize::MAX,
        forall|k: int| 0 <= k < places.len() && k < a.meta.len() ==> #[trigger] places[k] == a.meta[k],
        forall|q: usize|
            !places.contains(key_of(q)) ==> (#[trigger] w.lower.contains_key(q)
                == a.lower.contains_key(q)),
        forall|q: usize| #[trigger] e.lower.contains_key(q) ==> w.lower.contains_key(q),
        forall|k: int|
            places.len() <= k < a.meta.len() ==> !e.lower.contains_key(
                (#[trigger] a.meta[k]) as usize,
            ),
        b.lower == e.lower,
        b.meta == places,
        b.sizes == a.sizes,
        b.dirty == a.dirty,
    ensures
        meta_rewritten(a, b),
{
    assert forall|q: usize| #[trigger] b.lower.contains_key(q) implies b.meta.contains(key_of(q))
        || (a.lower.contains_key(q) && !a.meta.contains(key_of(q))) by {
        if !places.contains(key_of(q)) {
            assert(w.lower.contains_key(q));
            assert(a.lower.contains_key(q));
            if a.meta.contains(key_of(q)) {
                let k = choose|k: int| 0 <= k < a.meta.len() && a.meta[k] == key_of(q);
                if k < places.len() {
                    assert(places[k] == a.meta[k]);
                } else {
                    assert(a.meta[k] as usize == q);
                }
            }
        }
    }
}

/// A tidy state is tidy after its meta pages are stored anew.
pub proof fn lemma_tidy_meta(a: PageModel, b: PageModel)
    requires
        tidy_ok(a),
        meta_rewritten(a, b),
    ensures
        tidy_ok(b),
{
}

/// In a tidy and consistent state without dirty pages that holds no
/// block, there is no data page, and nothing is below but meta pages.
pub proof fn lemma_tidy_empty(m: PageModel)
    requires
        base_ok(m),
        keys_ok(m),
        tidy_ok(m),
        clean(m),
        forall|l: u64| !m.index.contains_key(l),
    ensures
        forall|p: u64| !m.sizes.contains_key(p),
        forall|q: usize| #[trigger] m.lower.contains_key(q) ==> m.meta.contains(key_of(q)),
{
    assert forall|p: u64| !m.sizes.contains_key(p) by {
        if m.sizes.contains_key(p) {
            let page = page_of(m, p);
            assert(page_ok(m, p));
            assert(page.len() > 0);
            let l = page[0].0;
            assert(crate::sorted_map::holds_at(page, l, 0));
            assert(has_key(page, l));
            assert(column(m, l).contains_key(p));
            assert(key_ok(m, l));
        }
    }
}

/// Below a tidy state whose data pages and meta pages are stored, every
/// block has the size of a page.
pub proof fn lemma_tidy_blocks(m: PageModel)
    requires
        tidy_ok(m),
        data_pages_stored(m),
        meta_pages_stored(m),
    ensures
        forall|q: usize| #[trigger] m.lower.contains_key(q) ==> m.lower[q].len() == m.page_size,
{
    assert forall|q: usize| #[trigger] m.lower.contains_key(q) implies m.lower[q].len()
        == m.page_size by {
        let k = key_of(q);
        assert(k as usize == q);
        if !m.sizes.contains_key(k) {
            let i = choose|i: int| 0 <= i < m.meta.len() && m.meta[i] == k;
            assert(m.lower[m.meta[i] as usize].len() == m.page_size);
        }
    }
}

/// Below a tidy and consistent state without dirty pages that holds no
/// block and has one meta page, nothing is left but that page at place 0.
pub proof fn lemma_tidy_emptied(m: PageModel)
    requires
        base_ok(m),
        keys_ok(m),
        tidy_ok(m),
        clean(m),
        forall|l: u64| !m.index.contains_key(l),
        m.meta.len() == 1,
    ensures
        forall|q: usize| #[trigger] m.lower.contains_key(q) ==> q == 0,
{
    lemma_tidy_empty(m);
    assert forall|q: usize| #[trigger] m.lower.contains_key(q) implies q == 0 by {
        let k = key_of(q);
        assert(k as usize == q);
        let i = choose|i: int| 0 <= i < m.meta.len() && m.meta[i] == k;
        assert(m.meta[0] == 0);
    }
}

/// A state with nothing below and no data page is tidy.
pub proof fn lemma_tidy_nothing(m: PageModel)
    requires
        forall|q: usize| !m.lower.contains_key(q),
        forall|p: u64| !m.sizes.contains_key(p),
    ensures
        tidy_ok(m),
{
}

/// Whether a state is tidy rests on its pages and on the blocks below alone.
pub proof fn lemma_tidy_same(a: PageModel, b: PageModel)
    requires
        b.lower == a.lower,
        b.meta == a.meta,
        b.sizes == a.sizes,
        b.dirty == a.dirty,
    ensures
        tidy_ok(b) == tidy_ok(a),
{
}

} // verus!
