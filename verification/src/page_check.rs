//! The check that a paging layer is consistent: it reads every data page
//! and follows every chain.
use crate::error::{fails_with, KvError};
use crate::kv::IntKv;
use crate::page_codec::{DataPage, MetaPage};
use crate::page_format::parse_meta_page;
use crate::page_image::{
    found_meta_chain, has_image, has_meta_chain, lemma_has_image, lemma_image_loaded,
    lemma_image_walk, lemma_loading_start, lemma_loading_step, lemma_meta_chain, loading,
    stored_image,
};
use crate::page_model::{
    base_ok, chain_ok, chains_changed, checkable, column, following, key_bound, key_ok, keys_ok,
    leads, lemma_base_intro, lemma_base_meta, lemma_base_page, lemma_base_stocked,
    lemma_chain_walked, lemma_chains_changed, lemma_checkable, lemma_follow_start,
    lemma_follow_step, lemma_index_fits, lemma_key_intro, lemma_key_intro_absent, lemma_keys_intro,
    lemma_links_add, lemma_links_complete, lemma_links_gap, lemma_links_page_done,
    lemma_no_key_between, lemma_no_links, lemma_rechained, lemma_tidy_same, lemma_walk_done,
    lemma_walk_start, lemma_walk_step, links_cover, links_of, meta_pages_stored, model_blocks,
    next_in, page_bound, page_of, page_ok, PageModel, stocked, tidy_ok, walked, with_chains,
};
use crate::page_store::{dirty_view, PageIntKv};
use crate::sorted_map::{
    collect, has_key, holds_at, lemma_entry_in_map, lemma_key_has_position, position_of, sorted,
    SortedMap,
};
use vstd::prelude::*;

verus! {

/// For each logical index, the link of its chunk in each data page.
pub type Links = SortedMap<SortedMap<u64>>;

/// The links are in order.
pub open spec fn links_wf(links: Links) -> bool {
    links.wf() && forall|l: u64| #[trigger] links.map().contains_key(l) ==> links.map()[l].wf()
}

/// The links as the contracts see them.
pub open spec fn links_view(links: Links) -> Map<u64, Map<u64, u64>> {
    Map::new(|l: u64| links.map().contains_key(l), |l: u64| links.map()[l].map())
}

/// The links of `l` in `v`, none if `l` has no entry.
pub open spec fn links_at(v: Map<u64, Map<u64, u64>>, l: u64) -> Map<u64, u64> {
    if v.contains_key(l) {
        v[l]
    } else {
        Map::empty()
    }
}

/// Records that the chunk of `l` in data page `p` is linked to `next`.
fn add_link(links: &mut Links, l: u64, p: u64, next: u64)
    requires
        links_wf(*old(links)),
    ensures
        links_wf(*final(links)),
        links_view(*final(links)) == links_view(*old(links)).insert(
            l,
            links_at(links_view(*old(links)), l).insert(p, next),
        ),
{
    let ghost v0 = links_view(*links);
    let ghost inner0 = links_at(v0, l);
    let mut inner = match links.insert(l, SortedMap::new()) {
        Some(inner) => inner,
        None => SortedMap::new(),
    };
    assert(inner.map() == inner0);
    inner.insert(p, next);
    let ghost grown = inner;
    links.insert(l, inner);
    proof {
        assert(links.map() =~= old(links).map().insert(l, grown));
        assert(links_view(*links) =~= v0.insert(l, inner0.insert(p, next)));
        assert forall|k: u64| #[trigger] links.map().contains_key(k) implies links.map()[k].wf() by {
            if k != l {
                assert(old(links).map().contains_key(k));
            }
        }
    }
}

/// Records the links of the chunks of data page `p`.
fn add_page_links(links: &mut Links, p: u64, page: &DataPage, Ghost(m): Ghost<PageModel>)
    requires
        links_wf(*old(links)),
        page.wf(),
        m.sizes.contains_key(p),
        page_of(m, p) == page@,
        links_cover(m, links_view(*old(links)), p as int, 0),
    ensures
        links_wf(*final(links)),
        links_cover(m, links_view(*final(links)), p + 1, 0),
{
    let n = page.len();
    let mut j: usize = 0;
    proof {
        page.lemma_view();
        if n > 0 {
            assert(links_cover(m, links_view(*links), p as int, key_bound(page@, 0))) by {
                assert forall|k: u64| k < page@[0].0 implies !#[trigger] column(m, k).contains_key(
                    p,
                ) by {
                    lemma_no_key_between(page@, -1, k);
                }
            }
        } else {
            assert(links_cover(m, links_view(*links), p as int, key_bound(page@, 0))) by {
                assert forall|k: u64| !#[trigger] column(m, k).contains_key(p) by {
                    if has_key(page@, k) {
                        assert(holds_at(page@, k, position_of(page@, k)));
                    }
                }
            }
        }
    }
    while j < n
        invariant
            j <= n,
            n == page@.len(),
            page.wf(),
            sorted(page@),
            links_wf(*links),
            m.sizes.contains_key(p),
            page_of(m, p) == page@,
            links_cover(m, links_view(*links), p as int, key_bound(page@, j as int)),
        decreases n - j,
    {
        let l = page.key_at(j);
        let next = page.chunk_at(j).next_page_index;
        let ghost v0 = links_view(*links);
        add_link(links, l, p, next);
        proof {
            lemma_links_add(m, v0, links_view(*links), p, j as int);
        }
        j = j + 1;
    }
    proof {
        lemma_links_page_done(m, links_view(*links), p);
    }
}

/// Follows the links in `col` from `head` to a link to 0, and says whether
/// each link was there and none is left over. The walk succeeds where
/// there is a chain `w` to follow.
fn follow_chain(col: SortedMap<u64>, head: u64, Ghost(w): Ghost<Seq<u64>>) -> (r: (
    bool,
    Ghost<Seq<u64>>,
))
    requires
        col.wf(),
    ensures
        r.0 ==> r.1@.len() > 0 && walked(col.map(), Map::<u64, u64>::empty(), head, r.1@, 0),
        leads(col.map(), head, w) ==> r.0,
{
    let ghost c = col.map();
    let mut rest = col;
    let mut cur = head;
    let ghost mut chain: Seq<u64> = Seq::empty();
    proof {
        lemma_walk_start(c, head);
        if leads(c, head, w) {
            lemma_follow_start(c, head, w);
        }
    }
    loop
        invariant_except_break
            walked(c, rest.map(), head, chain, cur),
            leads(c, head, w) ==> following(c, rest.map(), head, chain, cur, w),
        invariant
            rest.wf(),
            c == col.map(),
        ensures
            chain.len() > 0,
            walked(c, rest.map(), head, chain, 0),
            leads(c, head, w) ==> forall|q: u64| !rest.map().contains_key(q),
        decreases rest@.len(),
    {
        let ghost before = rest.map();
        proof {
            if leads(c, head, w) {
                lemma_follow_step(c, before, head, chain, cur, w);
            }
        }
        match rest.remove(cur) {
            None => {
                return (false, Ghost(chain));
            },
            Some(next) => {
                proof {
                    lemma_walk_step(c, before, head, chain, cur);
                    chain = chain.push(cur);
                }
                if next == 0 {
                    break ;
                }
                cur = next;
            },
        }
    }
    proof {
        if leads(c, head, w) && rest@.len() > 0 {
            lemma_entry_in_map(rest@, 0);
        }
    }
    if !rest.is_empty() {
        return (false, Ghost(chain));
    }
    proof {
        assert(rest.map() =~= Map::<u64, u64>::empty()) by {
            assert forall|q: u64| !rest.map().contains_key(q) by {
                if rest.map().contains_key(q) {
                    lemma_key_has_position(rest@, q);
                }
            }
        }
    }
    (true, Ghost(chain))
}

/// The meta pages at the places `meta` in `blocks` are there, can be read,
/// and each is linked to the next, the last one to 0.
pub open spec fn meta_walk(blocks: Map<usize, Seq<u8>>, meta: Seq<u64>) -> bool {
    forall|i: int|
        0 <= i < meta.len() ==> {
            &&& meta[i] <= usize::MAX
            &&& blocks.contains_key(meta[i] as usize)
            &&& parse_meta_page(blocks[meta[i] as usize]) is Some
            &&& parse_meta_page(blocks[meta[i] as usize]).unwrap().0 == #[trigger] next_in(meta, i)
        }
}

/// The index entries of the first `k` meta pages, later ones over earlier ones.
pub open spec fn merged_index(blocks: Map<usize, Seq<u8>>, meta: Seq<u64>, k: int) -> Map<u64, u64>
    decreases k,
{
    if k <= 0 {
        Map::empty()
    } else {
        merged_index(blocks, meta, k - 1).union_prefer_right(
            collect(parse_meta_page(blocks[meta[k - 1] as usize]).unwrap().1),
        )
    }
}

/// The size entries of the first `k` meta pages, later ones over earlier ones.
pub open spec fn merged_sizes(blocks: Map<usize, Seq<u8>>, meta: Seq<u64>, k: int) -> Map<u64, u64>
    decreases k,
{
    if k <= 0 {
        Map::empty()
    } else {
        merged_sizes(blocks, meta, k - 1).union_prefer_right(
            collect(parse_meta_page(blocks[meta[k - 1] as usize]).unwrap().2),
        )
    }
}

/// Puts every entry of `from` into `into`.
fn merge_into(into: &mut SortedMap<u64>, from: &SortedMap<u64>)
    requires
        old(into).wf(),
        from.wf(),
    ensures
        final(into).wf(),
        final(into).map() == old(into).map().union_prefer_right(from.map()),
{
    let n = from.len();
    let mut i: usize = 0;
    let ghost start = into.map();
    while i < n
        invariant
            i <= n,
            n == from@.len(),
            from.wf(),
            into.wf(),
            forall|k: u64| #[trigger]
                into.map().contains_key(k) <==> start.contains_key(k) || (exists|a: int|
                    0 <= a < i && from@[a].0 == k),
            forall|k: u64| #[trigger]
                into.map().contains_key(k) ==> into.map()[k] == (if exists|a: int|
                    0 <= a < i && from@[a].0 == k {
                    from.map()[k]
                } else {
                    start[k]
                }),
        decreases n - i,
    {
        let k = from.key_at(i);
        let v = *from.value_at(i);
        proof {
            lemma_entry_in_map(from@, i as int);
        }
        let ghost before = into.map();
        into.insert(k, v);
        proof {
            assert forall|q: u64| #[trigger]
                into.map().contains_key(q) <==> start.contains_key(q) || (exists|a: int|
                    0 <= a < i + 1 && from@[a].0 == q) by {
                if q == k {
                    assert(from@[i as int].0 == q);
                }
                if exists|a: int| 0 <= a < i + 1 && from@[a].0 == q {
                    let a = choose|a: int| 0 <= a < i + 1 && from@[a].0 == q;
                    if a < i {
                        assert(before.contains_key(q));
                    }
                }
                if before.contains_key(q) && !start.contains_key(q) {
                    let a = choose|a: int| 0 <= a < i && from@[a].0 == q;
                    assert(0 <= a < i + 1 && from@[a].0 == q);
                }
            }
            assert forall|q: u64| #[trigger] into.map().contains_key(q) implies into.map()[q] == (
            if exists|a: int| 0 <= a < i + 1 && from@[a].0 == q {
                from.map()[q]
            } else {
                start[q]
            }) by {
                if q == k {
                    assert(from@[i as int].0 == q);
                } else {
                    assert(before.contains_key(q));
                    if exists|a: int| 0 <= a < i + 1 && from@[a].0 == q {
                        let a = choose|a: int| 0 <= a < i + 1 && from@[a].0 == q;
                        assert(a < i);
                    }
                    if exists|a: int| 0 <= a < i && from@[a].0 == q {
                        let a = choose|a: int| 0 <= a < i && from@[a].0 == q;
                        assert(0 <= a < i + 1 && from@[a].0 == q);
                    }
                }
            }
        }
        i = i + 1;
    }
    proof {
        let goal = start.union_prefer_right(from.map());
        assert forall|q: u64| into.map().contains_key(q) == goal.contains_key(q) by {
            if from.map().contains_key(q) {
                lemma_key_has_position(from@, q);
                let a = position_of(from@, q);
                assert(0 <= a < n && from@[a].0 == q);
            }
            if exists|a: int| 0 <= a < n && from@[a].0 == q {
                let a = choose|a: int| 0 <= a < n && from@[a].0 == q;
                lemma_entry_in_map(from@, a);
            }
        }
        assert forall|q: u64| into.map().contains_key(q) implies into.map()[q] == goal[q] by {
            if from.map().contains_key(q) {
                lemma_key_has_position(from@, q);
                let a = position_of(from@, q);
                assert(0 <= a < n && from@[a].0 == q);
            } else {
                if exists|a: int| 0 <= a < n && from@[a].0 == q {
                    let a = choose|a: int| 0 <= a < n && from@[a].0 == q;
                    lemma_entry_in_map(from@, a);
                }
            }
        }
        assert(into.map() =~= goal);
    }
}

/// Reads the meta pages from the store: starts at place 0, if there is a
/// block, and follows the links to a link to 0. The entries of all pages
/// are put together, later pages over earlier ones. A place that comes
/// twice, one that does not fit the store, and one at which there is no
/// meta page are invalid data. Over a store that does not fail the pages
/// are read if and only if they can be walked through.
pub fn load_metadata<K: IntKv>(kv: &mut K) -> (r: Result<
    (Vec<u64>, SortedMap<u64>, SortedMap<u64>),
    KvError,
>)
    requires
        old(kv).inv(),
    ensures
        final(kv).inv(),
        final(kv).blocks() == old(kv).blocks(),
        old(kv).reliable() ==> final(kv).reliable(),
        old(kv).roomy() ==> final(kv).roomy(),
        r matches Ok(loaded) ==> {
            let blocks = old(kv).blocks();
            &&& loaded.1.wf()
            &&& loaded.2.wf()
            &&& loaded.0@.no_duplicates()
            &&& blocks.contains_key(0) ==> loaded.0@.len() > 0 && loaded.0@[0] == 0
            &&& !blocks.contains_key(0) ==> loaded.0@.len() == 0
            &&& meta_walk(blocks, loaded.0@)
            &&& loaded.1.map() == merged_index(blocks, loaded.0@, loaded.0@.len() as int)
            &&& loaded.2.map() == merged_sizes(blocks, loaded.0@, loaded.0@.len() as int)
        },
        old(kv).reliable() ==> (r is Ok <==> has_meta_chain(old(kv).blocks())),
        old(kv).reliable() && r is Err ==> fails_with(r, KvError::InvalidData),
{
    let ghost blocks = kv.blocks();
    let ghost w = found_meta_chain(blocks);
    let ghost owed = kv.reliable() && has_meta_chain(blocks);
    let mut meta_pages: Vec<u64> = Vec::new();
    let mut map_index: SortedMap<u64> = SortedMap::new();
    let mut data_page_sizes: SortedMap<u64> = SortedMap::new();
    let present = match kv.has(0) {
        Ok(b) => b,
        Err(e) => {
            return Err(e);
        },
    };
    if !present {
        proof {
            lemma_meta_chain(blocks, meta_pages@);
        }
        return Ok((meta_pages, map_index, data_page_sizes));
    }
    let mut place: usize = 0;
    proof {
        if owed {
            lemma_loading_start(blocks);
        }
    }
    loop
        invariant_except_break
            meta_walk_to(blocks, meta_pages@, place as u64),
            owed ==> loading(blocks, w, meta_pages@, place as u64),
        invariant
            owed == (old(kv).reliable() && has_meta_chain(blocks)),
            kv.inv(),
            kv.blocks() == blocks,
            blocks == old(kv).blocks(),
            blocks.contains_key(0),
            old(kv).reliable() ==> kv.reliable(),
            old(kv).roomy() ==> kv.roomy(),
            map_index.wf(),
            data_page_sizes.wf(),
            meta_pages@.no_duplicates(),
            meta_pages@.len() == 0 ==> place == 0,
            meta_pages@.len() > 0 ==> meta_pages@[0] == 0,
            map_index.map() == merged_index(blocks, meta_pages@, meta_pages@.len() as int),
            data_page_sizes.map() == merged_sizes(blocks, meta_pages@, meta_pages@.len() as int),
        ensures
            meta_pages@.len() > 0,
            meta_walk(blocks, meta_pages@),
        decreases usize::MAX - meta_pages@.len(),
    {
        proof {
            if owed {
                lemma_loading_step(blocks, w, meta_pages@, place as u64);
            }
        }
        if occurs_in(&meta_pages, place as u64) || meta_pages.len() == usize::MAX {
            return Err(KvError::InvalidData);
        }
        let data = match kv.read(place) {
            Ok(data) => data,
            Err(e) => {
                return match e {
                    KvError::NotFound => Err(KvError::InvalidData),
                    _ => Err(e),
                };
            },
        };
        let page = match MetaPage::decode(data.as_slice()) {
            Ok(page) => page,
            Err(e) => {
                return Err(e);
            },
        };
        let ghost before = meta_pages@;
        let ghost index_before = map_index.map();
        let ghost sizes_before = data_page_sizes.map();
        meta_pages.push(place as u64);
        merge_into(&mut map_index, &page.map_index);
        merge_into(&mut data_page_sizes, &page.data_size_indexes);
        proof {
            lemma_load_step(blocks, before, place as u64, page.next_page_index);
            assert(map_index.map() == index_before.union_prefer_right(page.map_index.map()));
            assert(data_page_sizes.map() == sizes_before.union_prefer_right(
                page.data_size_indexes.map(),
            ));
        }
        if page.next_page_index == 0 {
            proof {
                lemma_load_done(blocks, meta_pages@);
            }
            break ;
        }
        if page.next_page_index > usize::MAX as u64 {
            return Err(KvError::InvalidData);
        }
        place = page.next_page_index as usize;
    }
    proof {
        assert(meta_pages.len() == meta_pages@.len());
        lemma_meta_chain(blocks, meta_pages@);
    }
    Ok((meta_pages, map_index, data_page_sizes))
}

/// The meta pages at the places `meta` are there, can be read, and each is
/// linked to the next, the last one to `place`.
pub open spec fn meta_walk_to(blocks: Map<usize, Seq<u8>>, meta: Seq<u64>, place: u64) -> bool {
    forall|i: int|
        0 <= i < meta.len() ==> {
            &&& (#[trigger] meta[i]) <= usize::MAX
            &&& blocks.contains_key(meta[i] as usize)
            &&& parse_meta_page(blocks[meta[i] as usize]) is Some
            &&& parse_meta_page(blocks[meta[i] as usize]).unwrap().0 == (if i + 1 < meta.len() {
                meta[i + 1]
            } else {
                place
            })
        }
}

/// Reading the meta page at `place`, which the walk led to, lengthens the walk.
proof fn lemma_load_step(blocks: Map<usize, Seq<u8>>, before: Seq<u64>, place: u64, next: u64)
    requires
        meta_walk_to(blocks, before, place),
        !before.contains(place),
        before.no_duplicates(),
        place <= usize::MAX,
        blocks.contains_key(place as usize),
        parse_meta_page(blocks[place as usize]) is Some,
        parse_meta_page(blocks[place as usize]).unwrap().0 == next,
    ensures
        meta_walk_to(blocks, before.push(place), next),
        before.push(place).no_duplicates(),
        merged_index(blocks, before.push(place), (before.len() + 1) as int) == merged_index(
            blocks,
            before,
            before.len() as int,
        ).union_prefer_right(collect(parse_meta_page(blocks[place as usize]).unwrap().1)),
        merged_sizes(blocks, before.push(place), (before.len() + 1) as int) == merged_sizes(
            blocks,
            before,
            before.len() as int,
        ).union_prefer_right(collect(parse_meta_page(blocks[place as usize]).unwrap().2)),
{
    let grown = before.push(place);
    let n = before.len() as int;
    assert forall|a: int, b: int|
        0 <= a < grown.len() && 0 <= b < grown.len() && a != b implies grown[a] != grown[b] by {
        if a < n && b < n {
            assert(before[a] != before[b]);
        } else if a < n {
            assert(before.contains(before[a]));
        } else {
            assert(before.contains(before[b]));
        }
    }
    assert forall|i: int| 0 <= i < grown.len() implies {
        &&& (#[trigger] grown[i]) <= usize::MAX
        &&& blocks.contains_key(grown[i] as usize)
        &&& parse_meta_page(blocks[grown[i] as usize]) is Some
        &&& parse_meta_page(blocks[grown[i] as usize]).unwrap().0 == (if i + 1 < grown.len() {
            grown[i + 1]
        } else {
            next
        })
    } by {
        if i < n {
            assert(before[i] == grown[i]);
        }
    }
    lemma_merged_same(blocks, before, grown, n);
    assert(grown[n] == place);
}

/// A walk that ends at a link to 0 is a complete one.
proof fn lemma_load_done(blocks: Map<usize, Seq<u8>>, meta: Seq<u64>)
    requires
        meta_walk_to(blocks, meta, 0),
    ensures
        meta_walk(blocks, meta),
{
    assert forall|i: int| 0 <= i < meta.len() implies {
        &&& meta[i] <= usize::MAX
        &&& blocks.contains_key(meta[i] as usize)
        &&& parse_meta_page(blocks[meta[i] as usize]) is Some
        &&& parse_meta_page(blocks[meta[i] as usize]).unwrap().0 == #[trigger] next_in(meta, i)
    } by {
        assert(meta[i] <= usize::MAX);
    }
}

/// The entries of the first pages do not depend on the pages that follow.
proof fn lemma_merged_same(blocks: Map<usize, Seq<u8>>, a: Seq<u64>, b: Seq<u64>, k: int)
    requires
        0 <= k <= a.len(),
        k <= b.len(),
        forall|i: int| 0 <= i < k ==> a[i] == b[i],
    ensures
        merged_index(blocks, a, k) == merged_index(blocks, b, k),
        merged_sizes(blocks, a, k) == merged_sizes(blocks, b, k),
    decreases k,
{
    if k > 0 {
        lemma_merged_same(blocks, a, b, k - 1);
    }
}

/// Whether `x` occurs in `v`.
fn occurs_in(v: &Vec<u64>, x: u64) -> (b: bool)
    ensures
        b == v@.contains(x),
{
    let mut i: usize = 0;
    while i < v.len()
        invariant
            i <= v@.len(),
            forall|j: int| 0 <= j < i ==> v@[j] != x,
        decreases v@.len() - i,
    {
        if v[i] == x {
            return true;
        }
        i = i + 1;
    }
    false
}

impl<K: IntKv> PageIntKv<K> {
    /// Whether the places of the meta pages are distinct places that fit the
    /// store below and hold no data page, place 0 first.
    fn check_meta(&self) -> (ok: bool)
        requires
            self.shaped(),
        ensures
            ok == ({
                let m = self.model();
                &&& m.meta.no_duplicates()
                &&& forall|i: int|
                    0 <= i < m.meta.len() ==> !m.sizes.contains_key(#[trigger] m.meta[i])
                        && m.meta[i] <= usize::MAX
                &&& m.meta.len() > 0 ==> m.meta[0] == 0
            }),
    {
        proof {
            self.lemma_model();
        }
        let n = self.meta_pages.len();
        if n > 0 && self.meta_pages[0] != 0 {
            return false;
        }
        let mut i: usize = 0;
        while i < n
            invariant
                i <= n,
                n == self.meta_pages@.len(),
                self.data_page_sizes.wf(),
                self.model().meta == self.meta_pages@,
                self.model().sizes == self.data_page_sizes.map(),
                forall|a: int|
                    0 <= a < i ==> !self.data_page_sizes.map().contains_key(
                        #[trigger] self.meta_pages@[a],
                    ) && self.meta_pages@[a] <= usize::MAX,
                forall|a: int, b: int|
                    0 <= a < b < i ==> (#[trigger] self.meta_pages@[a]) != (
                    #[trigger] self.meta_pages@[b]),
            decreases n - i,
        {
            let place = self.meta_pages[i];
            if place > usize::MAX as u64 || self.data_page_sizes.contains_key(place) {
                return false;
            }
            let mut a: usize = 0;
            while a < i
                invariant
                    a <= i,
                    i < n,
                    n == self.meta_pages@.len(),
                    self.model().meta == self.meta_pages@,
                    place == self.meta_pages@[i as int],
                    forall|b: int| 0 <= b < a ==> (#[trigger] self.meta_pages@[b]) != place,
                decreases i - a,
            {
                if self.meta_pages[a] == place {
                    return false;
                }
                a = a + 1;
            }
            i = i + 1;
        }
        true
    }

    /// Whether every dirty data page is recorded.
    fn check_dirty(&self) -> (ok: bool)
        requires
            self.shaped(),
        ensures
            ok == (forall|p: u64| #[trigger]
                self.model().dirty.contains_key(p) ==> self.model().sizes.contains_key(p)),
    {
        proof {
            self.lemma_model();
        }
        let n = self.dirty_data_pages.len();
        let mut i: usize = 0;
        while i < n
            invariant
                i <= n,
                n == self.dirty_data_pages@.len(),
                self.dirty_data_pages.wf(),
                self.data_page_sizes.wf(),
                self.model().dirty == dirty_view(self.dirty_data_pages.map()),
                self.model().sizes == self.data_page_sizes.map(),
                forall|a: int|
                    0 <= a < i ==> self.data_page_sizes.map().contains_key(
                        (#[trigger] self.dirty_data_pages@[a]).0,
                    ),
            decreases n - i,
        {
            if !self.data_page_sizes.contains_key(self.dirty_data_pages.key_at(i)) {
                proof {
                    lemma_entry_in_map(self.dirty_data_pages@, i as int);
                    assert(self.model().dirty.contains_key(self.dirty_data_pages@[i as int].0));
                }
                return false;
            }
            i = i + 1;
        }
        proof {
            assert forall|p: u64| #[trigger]
                self.model().dirty.contains_key(p) implies self.model().sizes.contains_key(p) by {
                lemma_key_has_position(self.dirty_data_pages@, p);
                let a = position_of(self.dirty_data_pages@, p);
                assert(self.data_page_sizes.map().contains_key(self.dirty_data_pages@[a].0));
            }
        }
        true
    }

    /// Whether every meta page is below in a block of the page size.
    fn check_meta_blocks(&mut self) -> (r: Result<bool, KvError>)
        requires
            old(self).shaped(),
            forall|i: int|
                0 <= i < old(self).model().meta.len() ==> (#[trigger] old(self).model().meta[i])
                    <= usize::MAX,
        ensures
            final(self).shaped(),
            final(self).model() == old(self).model(),
            old(self).kv.reliable() ==> final(self).kv.reliable(),
            old(self).kv.roomy() ==> final(self).kv.roomy(),
            r matches Ok(ok) ==> ok == meta_pages_stored(old(self).model()),
            old(self).kv.reliable() ==> r is Ok,
    {
        let ghost m = self.model();
        proof {
            self.lemma_model();
        }
        let n = self.meta_pages.len();
        let mut i: usize = 0;
        while i < n
            invariant
                i <= n,
                n == self.meta_pages@.len(),
                self.shaped(),
                self.model() == m,
                m == old(self).model(),
                m.meta == self.meta_pages@,
                m.lower == self.kv.blocks(),
                m.page_size == self.page_size,
                forall|k: int| 0 <= k < m.meta.len() ==> (#[trigger] m.meta[k]) <= usize::MAX,
                old(self).kv.reliable() ==> self.kv.reliable(),
                old(self).kv.roomy() ==> self.kv.roomy(),
                forall|k: int|
                    0 <= k < i ==> m.lower.contains_key(#[trigger] m.meta[k] as usize)
                        && m.lower[m.meta[k] as usize].len() == m.page_size,
            decreases n - i,
        {
            let place = self.meta_pages[i];
            proof {
                self.lemma_model();
                assert(m.meta[i as int] == place);
            }
            let outcome = self.kv.read(place as usize);
            proof {
                self.lemma_model();
            }
            match outcome {
                Ok(bytes) => {
                    if bytes.len() as u64 != self.page_size {
                        return Ok(false);
                    }
                },
                Err(e) => {
                    return match e {
                        KvError::NotFound => Ok(false),
                        _ => Err(e),
                    };
                },
            }
            i = i + 1;
        }
        Ok(true)
    }

    /// Reads every recorded data page: each must be a page other than 0 that
    /// fits the store below, hold its entries in order, have its recorded
    /// size, and fit a page; one that is not dirty must hold a chunk and be
    /// stored in a block of the page size. Returns the links of all chunks.
    fn collect_links(&mut self) -> (r: Result<Links, KvError>)
        requires
            old(self).shaped(),
            old(self).model().page_size <= usize::MAX,
            forall|p: u64| #[trigger]
                old(self).model().dirty.contains_key(p) ==> old(self).model().sizes.contains_key(p),
        ensures
            final(self).shaped(),
            final(self).model() == old(self).model(),
            old(self).kv.reliable() ==> final(self).kv.reliable(),
            old(self).kv.roomy() ==> final(self).kv.roomy(),
            r matches Ok(links) ==> {
                &&& links_wf(links)
                &&& links_cover(old(self).model(), links_view(links), u64::MAX + 1, 0)
                &&& forall|p: u64| #[trigger]
                    old(self).model().sizes.contains_key(p) ==> page_ok(old(self).model(), p)
                &&& stocked(old(self).model())
            },
            old(self).kv.reliable() && base_ok(old(self).model()) ==> r is Ok,
            old(self).kv.reliable() && r is Err ==> fails_with(r, KvError::InvalidData),
    {
        let ghost m = self.model();
        proof {
            self.lemma_model();
        }
        let mut links: Links = SortedMap::new();
        let n = self.data_page_sizes.len();
        let mut i: usize = 0;
        proof {
            assert(links_view(links) =~= Map::<u64, Map<u64, u64>>::empty());
            assert(links_cover(m, links_view(links), page_bound(self.data_page_sizes@, 0), 0)) by {
                assert forall|k: u64, q: u64| q < page_bound(self.data_page_sizes@, 0) implies !(
                #[trigger] column(m, k).contains_key(q)) by {
                    lemma_no_key_between(self.data_page_sizes@, -1, q);
                }
            }
        }
        while i < n
            invariant
                i <= n,
                n == self.data_page_sizes@.len(),
                self.shaped(),
                self.model() == m,
                m == old(self).model(),
                m.page_size <= usize::MAX,
                forall|p: u64| #[trigger] m.dirty.contains_key(p) ==> m.sizes.contains_key(p),
                old(self).kv.reliable() ==> self.kv.reliable(),
                old(self).kv.roomy() ==> self.kv.roomy(),
                links_wf(links),
                links_cover(m, links_view(links), page_bound(self.data_page_sizes@, i as int), 0),
                forall|a: int|
                    0 <= a < i ==> page_ok(m, (#[trigger] self.data_page_sizes@[a]).0),
                forall|a: int|
                    0 <= a < i ==> m.dirty.contains_key((#[trigger] self.data_page_sizes@[a]).0)
                        || self.data_page_sizes@[a].1 > 8,
            decreases n - i,
        {
            proof {
                self.lemma_model();
                lemma_entry_in_map(self.data_page_sizes@, i as int);
                if base_ok(m) {
                    lemma_base_page(m, self.data_page_sizes@[i as int].0);
                    lemma_base_stocked(m);
                }
            }
            let p = self.data_page_sizes.key_at(i);
            let size = *self.data_page_sizes.value_at(i);
            if p == 0 || p > usize::MAX as u64 || size > self.page_size {
                return Err(KvError::InvalidData);
            }
            if self.dirty_data_pages.contains_key(p) {
                match self.dirty_data_pages.get(p) {
                    Some(page) => {
                        proof {
                            page.lemma_view();
                        }
                        if !page.has_size(size) {
                            return Err(KvError::InvalidData);
                        }
                        proof {
                            assert(m.dirty.contains_key(p));
                            assert(page_of(m, p) == page@);
                            assert(m.sizes[p] == size);
                            assert(page_ok(m, p));
                        }
                        add_page_links(&mut links, p, page, Ghost(m));
                    },
                    None => {
                        return Err(KvError::InvalidData);
                    },
                }
            } else {
                if size <= 8 {
                    return Err(KvError::InvalidData);
                }
                let bytes = match self.kv.read(p as usize) {
                    Ok(bytes) => bytes,
                    Err(e) => {
                        proof {
                            self.lemma_model();
                        }
                        return match e {
                            KvError::NotFound => Err(KvError::InvalidData),
                            _ => Err(e),
                        };
                    },
                };
                proof {
                    self.lemma_model();
                }
                if bytes.len() as u64 != self.page_size {
                    return Err(KvError::InvalidData);
                }
                let found = match DataPage::decode_checked(bytes.as_slice()) {
                    Ok(found) => found,
                    Err(e) => {
                        return Err(e);
                    },
                };
                if !found.1 || !found.0.has_size(size) {
                    return Err(KvError::InvalidData);
                }
                proof {
                    found.0.lemma_view();
                    assert(!m.dirty.contains_key(p));
                    assert(m.lower.contains_key(p as usize));
                    assert(page_of(m, p) == found.0@);
                    assert(m.sizes[p] == size);
                    assert(page_ok(m, p));
                }
                add_page_links(&mut links, p, &found.0, Ghost(m));
            }
            proof {
                let s = self.data_page_sizes@;
                assert forall|q: u64| p + 1 <= q < page_bound(s, i + 1) implies !m.sizes.contains_key(
                    q,
                ) by {
                    lemma_no_key_between(s, i as int, q);
                }
                lemma_links_gap(m, links_view(links), p + 1, page_bound(s, i + 1));
            }
            i = i + 1;
        }
        proof {
            self.lemma_model();
            assert forall|p: u64| #[trigger] m.sizes.contains_key(p) implies page_ok(m, p) by {
                lemma_key_has_position(self.data_page_sizes@, p);
                let a = position_of(self.data_page_sizes@, p);
                assert(page_ok(m, self.data_page_sizes@[a].0));
            }
            assert forall|p: u64| #[trigger] m.sizes.contains_key(p) && !m.dirty.contains_key(
                p,
            ) implies m.sizes[p] > 8 by {
                lemma_key_has_position(self.data_page_sizes@, p);
                let a = position_of(self.data_page_sizes@, p);
                lemma_entry_in_map(self.data_page_sizes@, a);
                assert(m.dirty.contains_key(self.data_page_sizes@[a].0) || self.data_page_sizes@[a].1
                    > 8);
            }
        }
        Ok(links)
    }

    /// Follows the chain of every logical index through the links: each
    /// must lead from the first page of the index to a link to 0 over all
    /// chunks of the index, and no chunk may belong to an index without a
    /// value. Records the chains.
    fn build_chains(&mut self, links: Links, Ghost(w): Ghost<PageModel>) -> (r: Result<
        (),
        KvError,
    >)
        requires
            old(self).shaped(),
            base_ok(old(self).model()),
            links_wf(links),
            links_cover(old(self).model(), links_view(links), u64::MAX + 1, 0),
        ensures
            final(self).shaped(),
            chains_changed(old(self).model(), final(self).model()),
            final(self).model().tidy == old(self).model().tidy,
            old(self).kv.reliable() ==> final(self).kv.reliable(),
            old(self).kv.roomy() ==> final(self).kv.roomy(),
            r is Ok ==> keys_ok(final(self).model()),
            r is Err ==> fails_with(r, KvError::InvalidData),
            chains_changed(old(self).model(), w) && keys_ok(w) ==> r is Ok,
    {
        let ghost m = self.model();
        let ghost follows = chains_changed(m, w) && keys_ok(w);
        proof {
            if follows {
                lemma_chains_changed(m, w);
            }
        }
        let ghost v0 = links_view(links);
        let mut links = links;
        let ghost mut acc: Map<u64, Seq<u64>> = Map::empty();
        let n = self.map_index.len();
        let mut i: usize = 0;
        proof {
            self.lemma_model();
        }
        while i < n
            invariant
                i <= n,
                n == self.map_index@.len(),
                self.shaped(),
                self.model() == m,
                m == old(self).model(),
                m.index == self.map_index.map(),
                base_ok(m),
                follows == (chains_changed(m, w) && keys_ok(w)),
                follows ==> base_ok(w),
                old(self).kv.reliable() ==> self.kv.reliable(),
                old(self).kv.roomy() ==> self.kv.roomy(),
                links_wf(links),
                links_cover(m, v0, u64::MAX + 1, 0),
                forall|k: int| 0 <= k < i ==> (#[trigger] self.map_index@[k]).0 <= usize::MAX,
                forall|l: u64|
                    m.index.contains_key(l) && l < page_bound(self.map_index@, i as int)
                        ==> #[trigger] acc.contains_key(l) && chain_ok(
                        column(m, l),
                        m.index[l],
                        acc[l],
                    ),
                forall|l: u64|
                    !(m.index.contains_key(l) && l < page_bound(self.map_index@, i as int)) ==> (
                    #[trigger] links_at(links_view(links), l)) == links_at(v0, l),
                forall|l: u64|
                    m.index.contains_key(l) && l < page_bound(self.map_index@, i as int) ==> (
                    #[trigger] links_at(links_view(links), l)) == Map::<u64, u64>::empty(),
            decreases n - i,
        {
            let l = self.map_index.key_at(i);
            let head = *self.map_index.value_at(i);
            proof {
                lemma_entry_in_map(self.map_index@, i as int);
                if follows {
                    lemma_index_fits(w);
                }
            }
            if l > usize::MAX as u64 {
                return Err(KvError::InvalidData);
            }
            proof {
                lemma_links_complete(m, v0, l);
                assert(links_at(links_view(links), l) == links_at(v0, l));
            }
            let ghost before = links_view(links);
            proof {
                if follows {
                    lemma_chains_changed(m, w);
                    lemma_chain_walked(w, l);
                    assert(links_of(w, l) == links_of(m, l));
                    assert(links_at(v0, l).contains_key(m.index[l]));
                    assert(links.map().contains_key(l));
                }
            }
            let col = match links.insert(l, SortedMap::new()) {
                Some(col) => col,
                None => {
                    return Err(KvError::InvalidData);
                },
            };
            let walk = follow_chain(col, head, Ghost(w.chains[l]));
            if !walk.0 {
                return Err(KvError::InvalidData);
            }
            proof {
                let chain = walk.1@;
                assert(col.map() == links_of(m, l));
                lemma_walk_done(m, l, head, chain);
                acc = acc.insert(l, chain);
                let s = self.map_index@;
                assert(links_view(links) =~= before.insert(l, Map::<u64, u64>::empty()));
                assert forall|k: u64|
                    m.index.contains_key(k) && k < page_bound(s, i + 1) implies #[trigger] acc.contains_key(
                    k,
                ) && chain_ok(column(m, k), m.index[k], acc[k]) by {
                    if k != l {
                        if k > l {
                            lemma_no_key_between(s, i as int, k);
                        }
                    }
                }
                assert forall|k: u64|
                    !(m.index.contains_key(k) && k < page_bound(s, i + 1)) implies (
                #[trigger] links_at(links_view(links), k)) == links_at(v0, k) by {
                    assert(k != l);
                    assert(links_at(before, k) == links_at(v0, k));
                }
                assert forall|k: u64|
                    m.index.contains_key(k) && k < page_bound(s, i + 1) implies (
                #[trigger] links_at(links_view(links), k)) == Map::<u64, u64>::empty() by {
                    if k != l {
                        if k > l {
                            lemma_no_key_between(s, i as int, k);
                        }
                        assert(links_at(before, k) == Map::<u64, u64>::empty());
                    }
                }
            }
            i = i + 1;
        }
        let count = links.len();
        let mut a: usize = 0;
        proof {
            if follows {
                lemma_chains_changed(m, w);
                assert forall|b: int| 0 <= b < links@.len() implies (#[trigger] links@[b]).1@.len()
                    == 0 by {
                    lemma_entry_in_map(links@, b);
                    let l = links@[b].0;
                    assert(links.map().contains_key(l));
                    assert(links_at(links_view(links), l) == links.map()[l].map());
                    if !m.index.contains_key(l) {
                        lemma_no_links(w, l);
                        lemma_links_complete(m, v0, l);
                        assert(links_of(w, l) == links_of(m, l));
                        assert(links_at(links_view(links), l) == links_at(v0, l));
                        if !v0.contains_key(l) {
                            assert(links_at(v0, l) == Map::<u64, u64>::empty());
                        }
                    }
                    if links@[b].1@.len() > 0 {
                        lemma_entry_in_map(links@[b].1@, 0);
                    }
                }
            }
        }
        while a < count
            invariant
                a <= count,
                count == links@.len(),
                links_wf(links),
                self.shaped(),
                self.model() == m,
                m == old(self).model(),
                m.index == self.map_index.map(),
                forall|k: int|
                    0 <= k < self.map_index@.len() ==> (#[trigger] self.map_index@[k]).0
                        <= usize::MAX,
                old(self).kv.reliable() ==> self.kv.reliable(),
                old(self).kv.roomy() ==> self.kv.roomy(),
                forall|b: int| 0 <= b < a ==> (#[trigger] links@[b]).1@.len() == 0,
                follows == (chains_changed(m, w) && keys_ok(w)),
                follows ==> forall|b: int| 0 <= b < links@.len() ==> (#[trigger] links@[b]).1@.len() == 0,
            decreases count - a,
        {
            if !links.value_at(a).is_empty() {
                return Err(KvError::InvalidData);
            }
            a = a + 1;
        }
        self.chains = Ghost(acc);
        proof {
            self.lemma_model();
            let m1 = self.model();
            lemma_chains_changed(m, m1);
            lemma_tidy_same(m, m1);
            assert forall|l: u64| key_ok(m1, l) by {
                if m1.index.contains_key(l) {
                    assert(acc.contains_key(l));
                    assert(column(m1, l) == column(m, l));
                    lemma_key_has_position(self.map_index@, l);
                    assert(self.map_index@[position_of(self.map_index@, l)].0 <= usize::MAX);
                    lemma_key_intro(m1, l);
                } else {
                    assert(links_at(links_view(links), l) == links_at(v0, l));
                    lemma_links_complete(m, v0, l);
                    if links.map().contains_key(l) {
                        lemma_key_has_position(links@, l);
                        let b = position_of(links@, l);
                        lemma_entry_in_map(links@, b);
                        assert(links@[b].1@.len() == 0);
                        assert(links.map()[l].map() =~= Map::<u64, u64>::empty()) by {
                            assert forall|q: u64| !links.map()[l].map().contains_key(q) by {
                                if links.map()[l].map().contains_key(q) {
                                    lemma_key_has_position(links.map()[l]@, q);
                                }
                            }
                        }
                    }
                    assert(links_at(v0, l) =~= Map::<u64, u64>::empty());
                    assert forall|p: u64| !(#[trigger] column(m1, l).contains_key(p)) by {
                        assert(column(m1, l) == column(m, l));
                        if column(m, l).contains_key(p) {
                            assert(links_of(m, l).contains_key(p));
                        }
                    }
                    lemma_key_intro_absent(m1, l);
                }
            }
            lemma_keys_intro(m1);
        }
        Ok(())
    }

    /// Checks that the layer is consistent: the places of the meta pages
    /// and the size of their blocks, every data page with its size, that
    /// each data page that is not dirty holds a chunk, and the chain of
    /// every logical index.
    /// A layer that passes is consistent, and holds the blocks it held. Over
    /// a store that does not fail, a layer passes if and only if its pages
    /// are consistent and every logical index has a chain; one that does
    /// not pass is invalid data.
    pub fn verify(&mut self) -> (r: Result<(), KvError>)
        requires
            old(self).shaped(),
        ensures
            final(self).shaped(),
            chains_changed(old(self).model(), final(self).model()),
            final(self).model().tidy == old(self).model().tidy,
            old(self).kv.reliable() ==> final(self).kv.reliable(),
            old(self).kv.roomy() ==> final(self).kv.roomy(),
            r is Ok ==> final(self).valid() && meta_pages_stored(final(self).model()),
            old(self).kv.reliable() ==> (r is Ok <==> checkable(old(self).model())
                && meta_pages_stored(old(self).model())),
            old(self).kv.reliable() && r is Err ==> fails_with(r, KvError::InvalidData),
            old(self).valid() ==> model_blocks(final(self).model()) == model_blocks(
                old(self).model(),
            ) || r is Err,
    {
        let ghost m = self.model();
        let ghost w = with_chains(
            m,
            choose|chains: Map<u64, Seq<u64>>| keys_ok(#[trigger] with_chains(m, chains)),
        );
        proof {
            self.lemma_model();
            if base_ok(m) {
                lemma_base_meta(m);
                assert forall|p: u64| #[trigger] m.dirty.contains_key(p) implies m.sizes.contains_key(
                    p,
                ) by {
                    lemma_base_page(m, p);
                }
            }
            if self.valid() {
                lemma_checkable(m);
            }
        }
        if self.page_size > usize::MAX as u64 || !self.check_meta() || !self.check_dirty() {
            return Err(KvError::InvalidData);
        }
        match self.check_meta_blocks() {
            Ok(true) => {},
            Ok(false) => {
                return Err(KvError::InvalidData);
            },
            Err(e) => {
                return Err(e);
            },
        }
        let links = match self.collect_links() {
            Ok(links) => links,
            Err(e) => {
                return Err(e);
            },
        };
        proof {
            lemma_base_intro(m);
        }
        match self.build_chains(links, Ghost(w)) {
            Ok(()) => {},
            Err(e) => {
                return Err(e);
            },
        }
        proof {
            let m1 = self.model();
            lemma_chains_changed(m, m1);
            self.lemma_model();
            assert(with_chains(m, m1.chains) == m1);
            if old(self).valid() {
                lemma_rechained(m, m1);
            }
        }
        Ok(())
    }

    /// A paging layer with pages of `page_size` bytes over the store `kv`.
    /// What the store holds is read and checked as by `verify`. The layer
    /// holds all that is in the store and nothing that is not yet stored.
    /// Over a store that does not fail, the layer can be opened if and only
    /// if the blocks of the store are what a consistent layer has stored;
    /// other blocks are invalid data.
    pub fn new(page_size: u64, kv: K) -> (r: Result<Self, KvError>)
        requires
            kv.inv(),
        ensures
            r matches Ok(layer) ==> {
                &&& layer.valid()
                &&& kv.reliable() ==> layer.kv.reliable()
                &&& kv.roomy() ==> layer.kv.roomy()
                &&& stored_image(page_size, kv.blocks(), layer.model())
                &&& layer.model().tidy == tidy_ok(layer.model())
            },
            kv.reliable() ==> (r is Ok <==> has_image(page_size, kv.blocks())),
            kv.reliable() && r is Err ==> fails_with(r, KvError::InvalidData),
    {
        let ghost lower = kv.blocks();
        let ghost owed = kv.reliable() && has_image(page_size, lower);
        proof {
            if owed {
                lemma_image_walk(page_size, lower);
            }
        }
        let mut kv = kv;
        let loaded = match load_metadata(&mut kv) {
            Ok(loaded) => loaded,
            Err(e) => {
                return Err(e);
            },
        };
        let mut layer = PageIntKv {
            page_size,
            meta_pages: loaded.0,
            data_page_sizes: loaded.2,
            dirty_data_pages: SortedMap::new(),
            map_index: loaded.1,
            kv,
            chains: Ghost(Map::empty()),
            tidy: Ghost(false),
        };
        proof {
            layer.lemma_model();
            if owed {
                lemma_image_loaded(page_size, lower, layer.model());
            }
        }
        match layer.verify() {
            Ok(()) => {},
            Err(e) => {
                return Err(e);
            },
        }
        proof {
            layer.lemma_wf();
        }
        layer.set_tidy(Ghost(tidy_ok(layer.model())));
        proof {
            layer.lemma_model();
            layer.lemma_wf();
            assert(layer.meta_pages.len() == layer.meta_pages@.len());
            lemma_has_image(page_size, lower, layer.model());
        }
        Ok(layer)
    }
}

} // verus!
