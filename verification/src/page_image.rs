//! What the store below holds of a paging layer after a flush, and that a
//! layer that is opened on it holds the same blocks.
use crate::page_check::{merged_index, merged_sizes, meta_walk};
use crate::page_codec::MetaPage;
use crate::page_format::{PairSeq, parse_meta_page};
use crate::page_model::{
    base_ok, checkable, clean, keys_ok, lemma_base_intro, lemma_chains_changed, lemma_empty_keys_ok,
    lemma_reopened, lemma_retidied, lemma_tidy_nothing, lemma_tidy_same, meta_pages_stored,
    model_blocks, next_in, PageModel, tidy_ok, with_chains,
};
use crate::page_store::{joined_index, joined_sizes};
use crate::sorted_map::{collect, lemma_collect_sorted, sorted, to_map};
use vstd::prelude::*;

verus! {

/// The meta pages below hold the index and the sizes of the layer: there
/// is a meta page in block 0, from which the links lead through all meta
/// pages, and the entries of all of them together are the index and the
/// sizes. Where block 0 is absent, the layer holds nothing.
pub open spec fn image_ok(m: PageModel) -> bool {
    if m.lower.contains_key(0) {
        &&& m.meta.len() > 0
        &&& m.meta[0] == 0
        &&& m.meta.no_duplicates()
        &&& meta_walk(m.lower, m.meta)
        &&& merged_index(m.lower, m.meta, m.meta.len() as int) == m.index
        &&& merged_sizes(m.lower, m.meta, m.meta.len() as int) == m.sizes
    } else {
        &&& m.meta.len() == 0
        &&& m.index == Map::<u64, u64>::empty()
        &&& m.sizes == Map::<u64, u64>::empty()
    }
}

/// `a` is a consistent state of a layer with pages of `page_size` bytes
/// that has stored all it holds in the blocks `lower`.
pub open spec fn stored_image(page_size: u64, lower: Map<usize, Seq<u8>>, a: PageModel) -> bool {
    &&& a.page_size == page_size
    &&& a.lower == lower
    &&& a.meta.len() <= usize::MAX
    &&& base_ok(a)
    &&& keys_ok(a)
    &&& clean(a)
    &&& image_ok(a)
    &&& meta_pages_stored(a)
}

/// The blocks `lower` are what some consistent layer with pages of
/// `page_size` bytes has stored.
pub closed spec fn has_image(page_size: u64, lower: Map<usize, Seq<u8>>) -> bool {
    exists|a: PageModel| stored_image(page_size, lower, a)
}

/// Blocks that a consistent layer has stored are such blocks.
pub proof fn lemma_has_image(page_size: u64, lower: Map<usize, Seq<u8>>, a: PageModel)
    requires
        stored_image(page_size, lower, a),
    ensures
        has_image(page_size, lower),
{
}

/// `w` are the places of the meta pages in `blocks`: a walk from block 0,
/// if there is one, through meta pages that can be read to a link to 0,
/// in which no place comes twice.
pub closed spec fn meta_chain(blocks: Map<usize, Seq<u8>>, w: Seq<u64>) -> bool {
    &&& meta_walk(blocks, w)
    &&& w.no_duplicates()
    &&& w.len() <= usize::MAX
    &&& w.len() > 0 ==> w[0] == 0
    &&& blocks.contains_key(0) ==> w.len() > 0
}

/// The meta pages in `blocks` can be walked through.
pub closed spec fn has_meta_chain(blocks: Map<usize, Seq<u8>>) -> bool {
    exists|w: Seq<u64>| meta_chain(blocks, w)
}

/// The places of the meta pages in `blocks`, where they can be walked through.
pub closed spec fn found_meta_chain(blocks: Map<usize, Seq<u8>>) -> Seq<u64> {
    choose|w: Seq<u64>| meta_chain(blocks, w)
}

/// Blocks with the places of their meta pages can be walked through.
pub proof fn lemma_meta_chain(blocks: Map<usize, Seq<u8>>, w: Seq<u64>)
    requires
        meta_walk(blocks, w),
        w.no_duplicates(),
        w.len() <= usize::MAX,
        w.len() > 0 ==> w[0] == 0,
        blocks.contains_key(0) ==> w.len() > 0,
    ensures
        meta_chain(blocks, w),
        has_meta_chain(blocks),
{
    assert(meta_chain(blocks, w));
    assert(exists|c: Seq<u64>| meta_chain(blocks, c));
    assert(has_meta_chain(blocks));
}

/// The walk `meta`, with `place` next, has followed the places `w` so far.
pub closed spec fn loading(
    blocks: Map<usize, Seq<u8>>,
    w: Seq<u64>,
    meta: Seq<u64>,
    place: u64,
) -> bool {
    &&& meta_chain(blocks, w)
    &&& meta.len() < w.len()
    &&& meta == w.take(meta.len() as int)
    &&& place == w[meta.len() as int]
}

/// A walk through the meta pages starts at block 0.
pub proof fn lemma_loading_start(blocks: Map<usize, Seq<u8>>)
    requires
        has_meta_chain(blocks),
        blocks.contains_key(0),
    ensures
        loading(blocks, found_meta_chain(blocks), Seq::<u64>::empty(), 0),
{
    let w = found_meta_chain(blocks);
    assert(w.take(0) =~= Seq::<u64>::empty());
}

/// A walk that has followed the places so far finds the next meta page,
/// at a place that it has not passed, and goes on along them.
pub proof fn lemma_loading_step(blocks: Map<usize, Seq<u8>>, w: Seq<u64>, before: Seq<u64>, place: u64)
    requires
        loading(blocks, w, before, place),
    ensures
        !before.contains(place),
        before.len() < usize::MAX,
        place <= usize::MAX,
        blocks.contains_key(place as usize),
        parse_meta_page(blocks[place as usize]) is Some,
        ({
            let next = parse_meta_page(blocks[place as usize]).unwrap().0;
            next != 0 ==> next <= usize::MAX && loading(blocks, w, before.push(place), next)
        }),
{
    let n = before.len() as int;
    assert(w[n] == place);
    if before.contains(place) {
        let a = choose|a: int| 0 <= a < before.len() && before[a] == place;
        assert(w[a] == before[a]);
    }
    assert(parse_meta_page(blocks[w[n] as usize]).unwrap().0 == next_in(w, n));
    let next = parse_meta_page(blocks[place as usize]).unwrap().0;
    if next != 0 {
        assert(parse_meta_page(blocks[w[n + 1] as usize]).unwrap().0 == next_in(w, n + 1));
        assert(before.push(place) =~= w.take(n + 1));
    }
}

/// The meta pages `pages` are stored at `places`, each linked to the next.
pub open spec fn meta_stored(lower: Map<usize, Seq<u8>>, places: Seq<u64>, pages: Seq<MetaPage>) -> bool {
    &&& places.len() == pages.len()
    &&& forall|k: int|
        0 <= k < places.len() ==> {
            &&& (#[trigger] places[k]) <= usize::MAX
            &&& lower.contains_key(places[k] as usize)
            &&& parse_meta_page(lower[places[k] as usize]) == Some(
                (next_in(places, k), pages[k].map_index@, pages[k].data_size_indexes@),
            )
        }
}

/// Entries put in turn build the map of the first ones, over which the
/// later ones stand.
pub proof fn lemma_collect_concat<V>(a: Seq<(u64, V)>, b: Seq<(u64, V)>)
    ensures
        collect(a + b) == collect(a).union_prefer_right(collect(b)),
    decreases b.len(),
{
    if b.len() == 0 {
        assert(a + b =~= a);
        assert(collect(a).union_prefer_right(collect(b)) =~= collect(a));
    } else {
        let whole = a + b;
        assert(whole.drop_last() =~= a + b.drop_last());
        assert(whole.last() == b.last());
        lemma_collect_concat(a, b.drop_last());
        assert(collect(whole) =~= collect(a).union_prefer_right(collect(b)));
    }
}

/// The entries of the first `k` stored meta pages together are the
/// entries of those pages in a row.
pub proof fn lemma_merged_joined(
    lower: Map<usize, Seq<u8>>,
    places: Seq<u64>,
    pages: Seq<MetaPage>,
    k: int,
)
    requires
        meta_stored(lower, places, pages),
        0 <= k <= pages.len(),
    ensures
        merged_index(lower, places, k) == collect(joined_index(pages.take(k))),
        merged_sizes(lower, places, k) == collect(joined_sizes(pages.take(k))),
    decreases k,
{
    if k == 0 {
        assert(pages.take(0) =~= Seq::<MetaPage>::empty());
    } else {
        lemma_merged_joined(lower, places, pages, k - 1);
        let before = pages.take(k - 1);
        let upto = pages.take(k);
        assert(upto.drop_last() =~= before);
        assert(upto.last() == pages[k - 1]);
        assert(places[k - 1] <= usize::MAX);
        lemma_collect_concat(joined_index(before), pages[k - 1].map_index@);
        lemma_collect_concat(joined_sizes(before), pages[k - 1].data_size_indexes@);
    }
}

/// Meta pages that are stored with the index and the sizes of a layer in
/// a row make the image of the layer.
pub proof fn lemma_image(m: PageModel, pages: Seq<MetaPage>, index: PairSeq, sizes: PairSeq)
    requires
        m.meta.len() > 0,
        m.meta[0] == 0,
        m.meta.no_duplicates(),
        meta_stored(m.lower, m.meta, pages),
        sorted(index),
        sorted(sizes),
        joined_index(pages) == index,
        joined_sizes(pages) == sizes,
        m.index == to_map(index),
        m.sizes == to_map(sizes),
    ensures
        image_ok(m),
{
    assert(m.meta[0] <= usize::MAX);
    lemma_merged_joined(m.lower, m.meta, pages, pages.len() as int);
    assert(pages.take(pages.len() as int) =~= pages);
    lemma_collect_sorted(index);
    lemma_collect_sorted(sizes);
    assert forall|i: int| 0 <= i < m.meta.len() implies {
        &&& m.meta[i] <= usize::MAX
        &&& m.lower.contains_key(m.meta[i] as usize)
        &&& parse_meta_page(m.lower[m.meta[i] as usize]) is Some
        &&& parse_meta_page(m.lower[m.meta[i] as usize]).unwrap().0 == #[trigger] next_in(m.meta, i)
    } by {
        assert(m.meta[i] <= usize::MAX);
    }
}

/// Two walks through the meta pages of the same blocks are the same walk.
pub proof fn lemma_meta_walk_unique(lower: Map<usize, Seq<u8>>, one: Seq<u64>, other: Seq<u64>)
    requires
        one.len() > 0,
        other.len() > 0,
        one[0] == 0,
        other[0] == 0,
        one.no_duplicates(),
        other.no_duplicates(),
        meta_walk(lower, one),
        meta_walk(lower, other),
    ensures
        one == other,
{
    if one.len() < other.len() {
        lemma_meta_walk_agrees(lower, one, other, one.len() - 1);
        let n = one.len() as int;
        assert(one[n - 1] == other[n - 1]);
        assert(parse_meta_page(lower[one[n - 1] as usize]).unwrap().0 == next_in(one, n - 1));
        assert(parse_meta_page(lower[other[n - 1] as usize]).unwrap().0 == next_in(other, n - 1));
        assert(other[n] != other[0]);
    }
    if other.len() < one.len() {
        lemma_meta_walk_agrees(lower, other, one, other.len() - 1);
        let n = other.len() as int;
        assert(one[n - 1] == other[n - 1]);
        assert(parse_meta_page(lower[one[n - 1] as usize]).unwrap().0 == next_in(one, n - 1));
        assert(parse_meta_page(lower[other[n - 1] as usize]).unwrap().0 == next_in(other, n - 1));
        assert(one[n] != one[0]);
    }
    assert forall|i: int| 0 <= i < one.len() implies one[i] == other[i] by {
        lemma_meta_walk_agrees(lower, one, other, i);
    }
    assert(one =~= other);
}

/// Two walks through the meta pages of the same blocks pass the same places.
proof fn lemma_meta_walk_agrees(lower: Map<usize, Seq<u8>>, one: Seq<u64>, other: Seq<u64>, i: int)
    requires
        one[0] == 0,
        other[0] == 0,
        meta_walk(lower, one),
        meta_walk(lower, other),
        0 <= i < one.len(),
        i < other.len(),
    ensures
        one[i] == other[i],
    decreases i,
{
    if i > 0 {
        lemma_meta_walk_agrees(lower, one, other, i - 1);
        assert(parse_meta_page(lower[one[i - 1] as usize]).unwrap().0 == next_in(one, i - 1));
        assert(parse_meta_page(lower[other[i - 1] as usize]).unwrap().0 == next_in(other, i - 1));
    }
}

/// The meta pages in the blocks that a layer has stored can be walked through.
pub proof fn lemma_image_walk(page_size: u64, lower: Map<usize, Seq<u8>>)
    requires
        has_image(page_size, lower),
    ensures
        has_meta_chain(lower),
{
    let a = choose|a: PageModel| stored_image(page_size, lower, a);
    if !lower.contains_key(0) {
        assert(a.meta =~= Seq::<u64>::empty());
    }
    lemma_meta_chain(lower, a.meta);
}

/// What is read from the blocks that a layer has stored is the state of
/// that layer, but for its chains: it passes the check.
pub proof fn lemma_image_loaded(page_size: u64, lower: Map<usize, Seq<u8>>, m: PageModel)
    requires
        has_image(page_size, lower),
        m.page_size == page_size,
        m.lower == lower,
        clean(m),
        m.meta.no_duplicates(),
        meta_walk(lower, m.meta),
        lower.contains_key(0) ==> m.meta.len() > 0 && m.meta[0] == 0,
        !lower.contains_key(0) ==> m.meta.len() == 0,
        m.index == merged_index(lower, m.meta, m.meta.len() as int),
        m.sizes == merged_sizes(lower, m.meta, m.meta.len() as int),
    ensures
        checkable(m),
        meta_pages_stored(m),
{
    let a = choose|a: PageModel| stored_image(page_size, lower, a);
    if lower.contains_key(0) {
        lemma_meta_walk_unique(lower, a.meta, m.meta);
    } else {
        assert(a.meta =~= m.meta);
    }
    assert(a.dirty =~= m.dirty);
    lemma_retidied(a, with_chains(m, a.chains));
    lemma_chains_changed(a, m);
}

/// A store without blocks is what the layer without blocks has stored,
/// so a layer can be opened on it.
pub proof fn lemma_empty_image(page_size: u64)
    requires
        page_size <= usize::MAX,
    ensures
        has_image(page_size, Map::<usize, Seq<u8>>::empty()),
{
    let a = PageModel {
        page_size,
        meta: Seq::empty(),
        sizes: Map::empty(),
        dirty: Map::empty(),
        index: Map::empty(),
        lower: Map::empty(),
        chains: Map::empty(),
        tidy: true,
    };
    lemma_base_intro(a);
    lemma_empty_keys_ok(a);
    assert(stored_image(page_size, Map::<usize, Seq<u8>>::empty(), a));
}

/// A layer on a store without a block at place 0 holds no block.
pub proof fn lemma_empty_store(page_size: u64, lower: Map<usize, Seq<u8>>, a: PageModel)
    requires
        stored_image(page_size, lower, a),
        !lower.contains_key(0),
    ensures
        model_blocks(a) == Map::<usize, Seq<u8>>::empty(),
{
    assert(model_blocks(a) =~= Map::<usize, Seq<u8>>::empty());
}

/// A layer on a store without blocks is tidy.
pub proof fn lemma_fresh_store(page_size: u64, lower: Map<usize, Seq<u8>>, a: PageModel)
    requires
        stored_image(page_size, lower, a),
        forall|q: usize| !lower.contains_key(q),
    ensures
        tidy_ok(a),
{
    lemma_tidy_nothing(a);
}

/// A layer that is opened on the blocks that another layer has stored
/// holds the blocks of that layer: two consistent states that have stored
/// all they hold in the same blocks hold the same.
pub proof fn lemma_restart(page_size: u64, lower: Map<usize, Seq<u8>>, a: PageModel, b: PageModel)
    requires
        stored_image(page_size, lower, a),
        stored_image(page_size, lower, b),
    ensures
        model_blocks(a) == model_blocks(b),
        a.index == b.index,
        a.sizes == b.sizes,
        a.meta == b.meta,
        tidy_ok(a) == tidy_ok(b),
{
    if lower.contains_key(0) {
        lemma_meta_walk_unique(lower, a.meta, b.meta);
    } else {
        assert(a.meta =~= b.meta);
    }
    lemma_reopened(a, b);
    assert(a.dirty =~= b.dirty);
    lemma_tidy_same(a, b);
}

} // verus!
