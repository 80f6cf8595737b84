//! The pages of the paging layer in memory and in the store below, and the
//! single changes that the layer makes to them.
use crate::bytes::copy_bytes;
use crate::error::{fails_with, KvError};
use crate::kv::IntKv;
use crate::page_codec::{Chunk, DataPage, MetaPage};
use crate::page_format::{
    ChunkSeq, ChunkView, lemma_chunks_size_nonneg, lemma_chunks_size_remove, meta_page_size, padded,
    PairSeq,
};
use crate::page_model::{
    base_ok, chunk_changed, chunk_take, chunks_at, dirty_forgotten, first_fit, first_page_choice,
    free_at, keys_ok, least_pos, lemma_base_page, lemma_first_fit_in_range, lemma_forget_dirty,
    lemma_lower_changed, lemma_meta_changed, lemma_page_changed_base, lemma_rekeyed, lemma_retidied,
    lemma_same_pages_base, lemma_same_pages_keys_ok, lemma_same_pages_self, lemma_same_pages_trans,
    lemma_tidy_forgotten, lemma_tidy_kept, lemma_tidy_page_changed, lemma_tidy_rekeyed,
    lemma_tidy_stored, lower_changed, meta_changed, meta_lacks, model_blocks, page_changed,
    page_erased, page_of, page_ok, page_stored, PageModel, rekeyed, retidied, same_index,
    same_pages, tidy_ok, weight,
};
use crate::sorted_map::{has_key, lemma_entry_in_map, SortedMap};
use vstd::prelude::*;

verus! {

/// A block store that keeps its blocks in pages of one size in the store below.
///
/// A meta page maps each logical index to its first data page and records
/// the size of every data page. A data page holds chunks of logical values;
/// each chunk names the data page that holds the next chunk of its value.
/// Changes are held in memory until `flush`.
pub struct PageIntKv<K: IntKv> {
    /// The size of every stored page.
    pub page_size: u64,
    /// The pages that held the meta pages at the last flush, in order.
    pub meta_pages: Vec<u64>,
    /// Data page to the size of what it holds.
    pub data_page_sizes: SortedMap<u64>,
    /// The data pages that are changed and not yet stored.
    pub dirty_data_pages: SortedMap<DataPage>,
    /// Logical index to first data page.
    pub map_index: SortedMap<u64>,
    /// The store below.
    pub kv: K,
    /// Logical index to the pages that hold its value, in order.
    pub chains: Ghost<Map<u64, Seq<u64>>>,
    /// Whether the layer is held to be tidy: nothing is below but its pages.
    pub tidy: Ghost<bool>,
}

/// How often a page number is drawn at random before the numbers are tried in turn.
pub const RANDOM_DRAWS: u32 = 64;

/// A number between 0 and `u32::MAX` drawn by `rand::random`. Nothing is
/// promised of it: two calls may give any two numbers.
#[verifier::external_body]
pub(crate) fn random_u32() -> u32 {
    rand::random()
}

/// Whether `x` occurs in `v`.
fn occurs(v: &Vec<u64>, x: u64) -> (b: bool)
    ensures
        b == v@.contains(x),
{
    let mut i: usize = 0;
    while i < v.len()
        invariant
            i <= v@.len(),
            forall|j: int| 0 <= j < i ==> v@[j] != x,
        decreases v@.len() - i,
    {
        if v[i] == x {
            return true;
        }
        i = i + 1;
    }
    false
}

/// The existing data page in which a new value of `size` bytes starts, if any.
pub fn choose_first_page(sizes: &SortedMap<u64>, page_size: u64, size: u64) -> (r: Option<u64>)
    ensures
        r == first_page_choice(sizes@, page_size, size),
        r is Some ==> has_key(sizes@, r->0) && exists|i: int|
            0 <= i < sizes@.len() && #[trigger] sizes@[i].0 == r->0 && sizes@[i].1 + 24
                <= page_size,
{
    let n = sizes.len();
    let large = size > u64::MAX - 24 || size + 24 > page_size;
    if large && n > 0 {
        let mut best: usize = 0;
        let mut i: usize = 1;
        assert(sizes@.take(1).drop_last() =~= sizes@.take(0));
        while i < n
            invariant
                1 <= i <= n,
                n == sizes@.len(),
                best < i,
                best == least_pos(sizes@.take(i as int)),
            decreases n - i,
        {
            proof {
                assert(sizes@.take(i + 1).drop_last() =~= sizes@.take(i as int));
                assert(sizes@.take(i + 1).last() == sizes@[i as int]);
                assert(sizes@.take(i as int)[best as int] == sizes@[best as int]);
                assert(sizes@.take(i + 1)[best as int] == sizes@[best as int]);
            }
            if *sizes.value_at(i) < *sizes.value_at(best) {
                best = i;
            }
            i = i + 1;
        }
        assert(sizes@.take(n as int) =~= sizes@);
        let least = *sizes.value_at(best);
        if least < page_size && page_size - least > 24 {
            assert(crate::sorted_map::holds_at(sizes@, sizes@[best as int].0, best as int));
            return Some(sizes.key_at(best));
        }
    }
    if large {
        proof {
            let room = page_size - (size + 24);
            lemma_first_fit_in_range(sizes@, room);
        }
        return None;
    }
    let room: u64 = page_size - (size + 24);
    let mut i: usize = 0;
    while i < n
        invariant
            i <= n,
            n == sizes@.len(),
            size + 24 <= page_size,
            room == page_size - (size + 24),
            first_fit(sizes@.take(i as int), room as int) == i,
        decreases n - i,
    {
        proof {
            assert(sizes@.take(i + 1).drop_last() =~= sizes@.take(i as int));
            assert(sizes@.take(i + 1).last() == sizes@[i as int]);
        }
        if *sizes.value_at(i) <= room {
            proof {
                lemma_first_fit_stays(sizes@, room as int, i as int);
                assert(crate::sorted_map::holds_at(sizes@, sizes@[i as int].0, i as int));
            }
            return Some(sizes.key_at(i));
        }
        i = i + 1;
    }
    assert(sizes@.take(n as int) =~= sizes@);
    None
}

/// A fit found among the first entries is the first fit of all.
pub proof fn lemma_first_fit_stays(s: Seq<(u64, u64)>, room: int, i: int)
    requires
        0 <= i < s.len(),
        first_fit(s.take(i + 1), room) == i,
    ensures
        first_fit(s, room) == i,
    decreases s.len() - i,
{
    if i + 1 < s.len() {
        lemma_first_fit_grows(s, room, i, s.len() as int);
        assert(s.take(s.len() as int) =~= s);
    } else {
        assert(s.take(i + 1) =~= s);
    }
}

/// The first page that fits stays the first where pages follow.
proof fn lemma_first_fit_grows(s: Seq<(u64, u64)>, room: int, i: int, k: int)
    requires
        0 <= i,
        i + 1 <= k <= s.len(),
        first_fit(s.take(i + 1), room) == i,
    ensures
        first_fit(s.take(k), room) == i,
    decreases k,
{
    if k > i + 1 {
        lemma_first_fit_grows(s, room, i, k - 1);
        assert(s.take(k).drop_last() =~= s.take(k - 1));
    }
}

/// The index entries of a row of meta pages, in order.
pub open spec fn joined_index(pages: Seq<MetaPage>) -> PairSeq
    decreases pages.len(),
{
    if pages.len() == 0 {
        Seq::empty()
    } else {
        joined_index(pages.drop_last()) + pages.last().map_index@
    }
}

/// The size entries of a row of meta pages, in order.
pub open spec fn joined_sizes(pages: Seq<MetaPage>) -> PairSeq
    decreases pages.len(),
{
    if pages.len() == 0 {
        Seq::empty()
    } else {
        joined_sizes(pages.drop_last()) + pages.last().data_size_indexes@
    }
}

/// Each page of the row is in order and fits a page of `page_size` bytes.
pub open spec fn meta_pages_fit(pages: Seq<MetaPage>, page_size: u64) -> bool {
    forall|i: int|
        0 <= i < pages.len() ==> (#[trigger] pages[i]).wf() && meta_page_size(
            pages[i].map_index@,
            pages[i].data_size_indexes@,
        ) <= page_size
}

/// How many entries a meta page of `page_size` bytes takes.
pub open spec fn meta_capacity(page_size: u64) -> int {
    if page_size < 24 {
        0
    } else {
        (page_size - 24) / 16
    }
}

/// Packs the entries of the index, then those of the sizes, into meta
/// pages: each page takes as many entries as fit, and the last one what is left.
pub fn pack_meta_pages(index: &SortedMap<u64>, sizes: &SortedMap<u64>, page_size: u64) -> (r:
    Option<Vec<MetaPage>>)
    requires
        index.wf(),
        sizes.wf(),
    ensures
        r is None <==> page_size < 24 || (meta_capacity(page_size) == 0 && index@.len()
            + sizes@.len() > 0),
        r matches Some(pages) ==> {
            &&& 1 <= pages@.len() <= index@.len() + sizes@.len() + 1
            &&& meta_pages_fit(pages@, page_size)
            &&& joined_index(pages@) == index@
            &&& joined_sizes(pages@) == sizes@
        },
{
    let cap: u64 = if page_size < 24 {
        0
    } else {
        (page_size - 24) / 16
    };
    if page_size < 24 || (cap == 0 && (index.len() > 0 || sizes.len() > 0)) {
        return None;
    }
    let mut pages: Vec<MetaPage> = Vec::new();
    let mut current = MetaPage::new();
    let mut count: u64 = 0;
    let n = index.len();
    let mut i: usize = 0;
    proof {
        assert(index@.take(0) =~= PairSeq::empty());
        assert(joined_index(pages@) + current.map_index@ =~= index@.take(0));
    }
    while i < n
        invariant
            i <= n,
            n == index@.len(),
            index.wf(),
            cap == meta_capacity(page_size),
            page_size >= 24,
            cap > 0 || n == 0,
            meta_pages_fit(pages@, page_size),
            current.wf(),
            current.data_size_indexes@ == PairSeq::empty(),
            count == current.map_index@.len(),
            count <= cap,
            joined_index(pages@) + current.map_index@ == index@.take(i as int),
            joined_sizes(pages@) == PairSeq::empty(),
            pages@.len() <= i,
        decreases n - i,
    {
        if count == cap {
            let ghost before = pages@;
            let ghost full = current;
            pages.push(current);
            current = MetaPage::new();
            count = 0;
            proof {
                assert(pages@.drop_last() =~= before);
                assert(pages@.last() == full);
                assert(joined_index(pages@) + current.map_index@ =~= index@.take(i as int));
                assert(joined_sizes(pages@) =~= PairSeq::empty());
            }
        }
        let k = index.key_at(i);
        let v = *index.value_at(i);
        proof {
            let done = joined_index(pages@);
            let cur = current.map_index@;
            assert((done + cur).len() == index@.take(i as int).len());
            assert forall|t: int| 0 <= t < cur.len() implies (#[trigger] cur[t]).0 < k by {
                assert(cur[t] == (done + cur)[done.len() + t]);
                assert(cur[t] == index@.take(i as int)[done.len() + t]);
                assert(index@[done.len() + t].0 < index@[i as int].0);
            }
        }
        current.map_index.insert(k, v);
        count = count + 1;
        proof {
            assert(index@.take(i + 1) =~= index@.take(i as int).push((k, v)));
            assert(joined_index(pages@) + current.map_index@ =~= index@.take(i + 1));
        }
        i = i + 1;
    }
    assert(index@.take(n as int) =~= index@);
    let m = sizes.len();
    let mut j: usize = 0;
    proof {
        assert(sizes@.take(0) =~= PairSeq::empty());
        assert(joined_sizes(pages@) + current.data_size_indexes@ =~= sizes@.take(0));
    }
    while j < m
        invariant
            j <= m,
            m == sizes@.len(),
            sizes.wf(),
            cap == meta_capacity(page_size),
            page_size >= 24,
            cap > 0 || m == 0,
            meta_pages_fit(pages@, page_size),
            current.wf(),
            count == current.map_index@.len() + current.data_size_indexes@.len(),
            count <= cap,
            joined_index(pages@) + current.map_index@ == index@,
            joined_sizes(pages@) + current.data_size_indexes@ == sizes@.take(j as int),
            n == index@.len(),
            pages@.len() <= n + j,
        decreases m - j,
    {
        if count == cap {
            let ghost before = pages@;
            let ghost full = current;
            pages.push(current);
            current = MetaPage::new();
            count = 0;
            proof {
                assert(pages@.drop_last() =~= before);
                assert(pages@.last() == full);
                assert(joined_index(pages@) + current.map_index@ =~= index@);
                assert(joined_sizes(pages@) + current.data_size_indexes@ =~= sizes@.take(
                    j as int,
                ));
            }
        }
        let k = sizes.key_at(j);
        let v = *sizes.value_at(j);
        proof {
            let done = joined_sizes(pages@);
            let cur = current.data_size_indexes@;
            assert((done + cur).len() == sizes@.take(j as int).len());
            assert forall|t: int| 0 <= t < cur.len() implies (#[trigger] cur[t]).0 < k by {
                assert(cur[t] == (done + cur)[done.len() + t]);
                assert(cur[t] == sizes@.take(j as int)[done.len() + t]);
                assert(sizes@[done.len() + t].0 < sizes@[j as int].0);
            }
        }
        current.data_size_indexes.insert(k, v);
        count = count + 1;
        proof {
            assert(sizes@.take(j + 1) =~= sizes@.take(j as int).push((k, v)));
            assert(joined_sizes(pages@) + current.data_size_indexes@ =~= sizes@.take(j + 1));
        }
        j = j + 1;
    }
    assert(sizes@.take(m as int) =~= sizes@);
    let ghost before = pages@;
    let ghost last = current;
    pages.push(current);
    proof {
        assert(pages@.drop_last() =~= before);
        assert(pages@.last() == last);
        assert(joined_index(pages@) == index@);
        assert(joined_sizes(pages@) =~= sizes@);
    }
    Some(pages)
}

/// A copy of a list of numbers.
pub fn copy_u64s(v: &Vec<u64>) -> (out: Vec<u64>)
    ensures
        out@ == v@,
{
    let mut out: Vec<u64> = Vec::new();
    let mut i: usize = 0;
    while i < v.len()
        invariant
            i <= v@.len(),
            out@ == v@.take(i as int),
        decreases v@.len() - i,
    {
        out.push(v[i]);
        i = i + 1;
        assert(out@ =~= v@.take(i as int));
    }
    assert(v@.take(v@.len() as int) =~= v@);
    out
}

/// The dirty pages as the contracts see them.
pub open spec fn dirty_view(d: Map<u64, DataPage>) -> Map<u64, ChunkSeq> {
    Map::new(|p: u64| d.contains_key(p), |p: u64| d[p]@)
}

impl<K: IntKv> PageIntKv<K> {
    /// The state of the layer as mathematics.
    pub closed spec fn model(&self) -> PageModel {
        PageModel {
            page_size: self.page_size,
            meta: self.meta_pages@,
            sizes: self.data_page_sizes.map(),
            dirty: dirty_view(self.dirty_data_pages.map()),
            index: self.map_index.map(),
            lower: self.kv.blocks(),
            chains: self.chains@,
            tidy: self.tidy@,
        }
    }

    /// The maps are in order and the pages are consistent.
    pub closed spec fn wf(&self) -> bool {
        &&& self.kv.inv()
        &&& self.map_index.wf()
        &&& self.data_page_sizes.wf()
        &&& self.dirty_data_pages.wf()
        &&& forall|p: u64| #[trigger]
            self.dirty_data_pages.map().contains_key(p) ==> self.dirty_data_pages.map()[p].wf()
        &&& base_ok(self.model())
        &&& self.tidy@ ==> tidy_ok(self.model())
    }

    /// The pages are consistent, and every logical index has its chain.
    pub open spec fn valid(&self) -> bool {
        self.wf() && keys_ok(self.model())
    }

    /// The maps are in order, whatever they hold.
    pub open spec fn shaped(&self) -> bool {
        &&& self.kv.inv()
        &&& self.map_index.wf()
        &&& self.data_page_sizes.wf()
        &&& self.dirty_data_pages.wf()
        &&& forall|p: u64| #[trigger]
            self.dirty_data_pages.map().contains_key(p) ==> self.dirty_data_pages.map()[p].wf()
        &&& self.tidy@ ==> tidy_ok(self.model())
    }

    /// What the state of the layer is made of.
    pub proof fn lemma_model(&self)
        ensures
            self.model().page_size == self.page_size,
            self.model().meta == self.meta_pages@,
            self.model().sizes == self.data_page_sizes.map(),
            self.model().dirty == dirty_view(self.dirty_data_pages.map()),
            self.model().index == self.map_index.map(),
            self.model().lower == self.kv.blocks(),
            self.model().chains == self.chains@,
            self.model().tidy == self.tidy@,
            self.wf() == (self.shaped() && base_ok(self.model())),
    {
    }

    /// What the state of the layer says of its pages.
    pub proof fn lemma_wf(&self)
        requires
            self.wf(),
        ensures
            base_ok(self.model()),
            self.kv.inv(),
            self.model().lower == self.kv.blocks(),
            self.model().page_size == self.page_size,
            self.model().meta == self.meta_pages@,
            self.model().sizes == self.data_page_sizes.map(),
            self.model().index == self.map_index.map(),
            self.model().tidy ==> tidy_ok(self.model()),
    {
    }

    /// The size of every stored page.
    pub fn page_size(&self) -> (n: u64)
        ensures
            n == self.model().page_size,
    {
        self.page_size
    }

    /// The first data page of `key`, if it has a value.
    pub(crate) fn head_of(&self, key: u64) -> (r: Option<u64>)
        requires
            self.wf(),
        ensures
            r is Some == self.model().index.contains_key(key),
            r is Some ==> r->0 == self.model().index[key],
    {
        match self.map_index.get(key) {
            Some(h) => Some(*h),
            None => None,
        }
    }

    /// Sets where the chain of `key` starts, or that `key` has no value,
    /// and which chain it has.
    pub(crate) fn set_head(&mut self, key: u64, head: Option<u64>, Ghost(chain): Ghost<Seq<u64>>)
        requires
            old(self).wf(),
        ensures
            final(self).wf(),
            rekeyed(old(self).model(), final(self).model(), key),
            old(self).kv.reliable() ==> final(self).kv.reliable(),
            old(self).kv.roomy() ==> final(self).kv.roomy(),
            head is Some ==> final(self).model().index == old(self).model().index.insert(
                key,
                head->0,
            ) && final(self).model().chains == old(self).model().chains.insert(key, chain),
            head is None ==> final(self).model().index == old(self).model().index.remove(key)
                && final(self).model().chains == old(self).model().chains.remove(key),
    {
        let ghost m0 = self.model();
        match head {
            Some(h) => {
                self.map_index.insert(key, h);
                self.chains = Ghost(self.chains@.insert(key, chain));
            },
            None => {
                self.map_index.remove(key);
                self.chains = Ghost(self.chains@.remove(key));
            },
        }
        proof {
            let m1 = self.model();
            assert(rekeyed(m0, m1, key));
            lemma_rekeyed(m0, m1, key);
            lemma_tidy_rekeyed(m0, m1, key);
        }
    }

    /// Records the chain of `key`.
    pub(crate) fn set_chain(&mut self, key: u64, Ghost(chain): Ghost<Seq<u64>>)
        requires
            old(self).wf(),
        ensures
            final(self).wf(),
            rekeyed(old(self).model(), final(self).model(), key),
            old(self).kv.reliable() ==> final(self).kv.reliable(),
            old(self).kv.roomy() ==> final(self).kv.roomy(),
            final(self).model().index == old(self).model().index,
            final(self).model().chains == old(self).model().chains.insert(key, chain),
    {
        let ghost m0 = self.model();
        self.chains = Ghost(self.chains@.insert(key, chain));
        proof {
            let m1 = self.model();
            assert(rekeyed(m0, m1, key));
            lemma_rekeyed(m0, m1, key);
            lemma_tidy_rekeyed(m0, m1, key);
        }
    }

    /// Holds the layer to be tidy from now on, or no longer.
    pub(crate) fn set_tidy(&mut self, Ghost(tidy): Ghost<bool>)
        requires
            old(self).wf(),
            tidy ==> tidy_ok(old(self).model()),
        ensures
            final(self).wf(),
            old(self).valid() ==> final(self).valid(),
            retidied(old(self).model(), final(self).model()),
            final(self).model().tidy == tidy,
            model_blocks(final(self).model()) == model_blocks(old(self).model()),
            final(self).kv == old(self).kv,
    {
        let ghost m0 = self.model();
        self.tidy = Ghost(tidy);
        proof {
            lemma_retidied(m0, self.model());
        }
    }

    /// All but the store below is as in `other`.
    pub open spec fn same_state(&self, other: &Self) -> bool {
        &&& self.page_size == other.page_size
        &&& self.meta_pages == other.meta_pages
        &&& self.map_index == other.map_index
        &&& self.chains == other.chains
        &&& self.data_page_sizes == other.data_page_sizes
        &&& self.dirty_data_pages == other.dirty_data_pages
        &&& self.tidy == other.tidy
    }

    /// Makes data page `p` dirty: reads it from below unless it is in memory.
    pub(crate) fn load_page(&mut self, p: u64) -> (r: Result<(), KvError>)
        requires
            old(self).wf(),
            old(self).model().sizes.contains_key(p),
        ensures
            final(self).wf(),
            same_index(old(self).model(), final(self).model()),
            final(self).model().sizes == old(self).model().sizes,
            same_pages(old(self).model(), final(self).model()),
            final(self).model().lower == old(self).model().lower,
            old(self).kv.reliable() ==> final(self).kv.reliable(),
            old(self).kv.roomy() ==> final(self).kv.roomy(),
            r is Ok ==> final(self).model().dirty.contains_key(p),
            forall|q: u64| #[trigger]
                old(self).model().dirty.contains_key(q) ==> final(self).model().dirty.contains_key(q),
            old(self).kv.reliable() ==> r is Ok,
            !fails_with(r, KvError::NotFound),
    {
        if self.dirty_data_pages.contains_key(p) {
            return Ok(());
        }
        let ghost m0 = self.model();
        proof {
            lemma_base_page(m0, p);
        }
        let bytes = match self.kv.read(p as usize) {
            Ok(b) => b,
            Err(e) => {
                assert(self.model() == m0);
                return Err(e);
            },
        };
        assert(self.model() == m0);
        let page = match DataPage::decode(bytes.as_slice()) {
            Ok(page) => page,
            Err(e) => {
                return Err(e);
            },
        };
        proof {
            page.lemma_view();
        }
        self.dirty_data_pages.insert(p, page);
        proof {
            let m1 = self.model();
            assert(m1.dirty =~= m0.dirty.insert(p, page_of(m0, p)));
            assert forall|q: u64| m0.sizes.contains_key(q) implies #[trigger] page_of(m0, q)
                == page_of(m1, q) by {}
            assert(same_pages(m0, m1));
            assert forall|q: u64| #[trigger] m1.dirty.contains_key(q) implies m1.sizes.contains_key(
                q,
            ) by {
                if q != p {
                    lemma_base_page(m0, q);
                }
            }
            lemma_same_pages_base(m0, m1);
            if m0.tidy {
                lemma_tidy_kept(m0, m1);
            }
        }
        Ok(())
    }

    /// Sets, or with `None` removes, the chunk of `key` in the dirty data page
    /// `p`, and returns the chunk that was there.
    pub(crate) fn set_chunk(&mut self, p: u64, key: u64, chunk: Option<Chunk>) -> (r: Option<Chunk>)
        requires
            old(self).wf(),
            old(self).model().dirty.contains_key(p),
            chunk is Some ==> old(self).model().sizes[p] - weight(old(self).model(), p, key)
                + 24 + chunk->0@.1.len() <= old(self).model().page_size,
        ensures
            final(self).wf(),
            final(self).model().lower == old(self).model().lower,
            old(self).kv.reliable() ==> final(self).kv.reliable(),
            old(self).kv.roomy() ==> final(self).kv.roomy(),
            same_index(old(self).model(), final(self).model()),
            chunk_changed(old(self).model(), final(self).model(), p, key),
            chunks_at(final(self).model(), p).contains_key(key) == (chunk is Some),
            chunk is Some ==> chunks_at(final(self).model(), p)[key] == chunk->0@,
            r is Some == chunks_at(old(self).model(), p).contains_key(key),
            r is Some ==> r->0@ == chunks_at(old(self).model(), p)[key],
            final(self).model().sizes[p] == old(self).model().sizes[p] - weight(
                old(self).model(),
                p,
                key,
            ) + (if chunk is Some {
                24 + chunk->0@.1.len()
            } else {
                0
            }),
    {
        let ghost m0 = self.model();
        let ghost d0 = self.dirty_data_pages.map();
        proof {
            lemma_base_page(m0, p);
        }
        assert(d0.contains_key(p));
        assert(d0[p].wf());
        let mut page = match self.dirty_data_pages.insert(p, DataPage::new()) {
            Some(page) => page,
            None => DataPage::new(),
        };
        assert(page == d0[p]);
        let old_chunk = page.take(key);
        match chunk {
            Some(c) => {
                page.put(key, c);
            },
            None => {},
        }
        let size = page.size();
        proof {
            page.lemma_view();
        }
        let ghost new_page = page;
        self.dirty_data_pages.insert(p, page);
        self.data_page_sizes.insert(p, size);
        proof {
            let m1 = self.model();
            assert(self.dirty_data_pages.map() =~= d0.insert(p, new_page));
            assert(m1.dirty =~= m0.dirty.insert(p, new_page@));
            assert(m1.sizes =~= m0.sizes.insert(p, size));
            assert(page_of(m1, p) == new_page@);
            assert(page_of(m0, p) == d0[p]@);
            assert(page_changed(m0, m1, p));
            assert(page_ok(m1, p));
            lemma_page_changed_base(m0, m1, p);
            lemma_tidy_page_changed(m0, m1, p);
            assert forall|q: u64| #[trigger]
                self.dirty_data_pages.map().contains_key(q) implies self.dirty_data_pages.map()[q].wf() by {
                if q != p {
                    assert(d0.contains_key(q));
                }
            }
        }
        old_chunk
    }

    /// Adds a data page at the unused place `f` that holds one chunk, for `key`.
    pub(crate) fn add_page(&mut self, f: u64, key: u64, chunk: Chunk)
        requires
            old(self).wf(),
            f != 0,
            f <= usize::MAX,
            !old(self).model().sizes.contains_key(f),
            !old(self).model().meta.contains(f),
            32 + chunk@.1.len() <= old(self).model().page_size,
        ensures
            final(self).wf(),
            final(self).model().lower == old(self).model().lower,
            old(self).kv.reliable() ==> final(self).kv.reliable(),
            old(self).kv.roomy() ==> final(self).kv.roomy(),
            same_index(old(self).model(), final(self).model()),
            chunk_changed(old(self).model(), final(self).model(), f, key),
            chunks_at(final(self).model(), f).contains_key(key),
            chunks_at(final(self).model(), f)[key] == chunk@,
            final(self).model().sizes[f] == 32 + chunk@.1.len(),
    {
        let ghost m0 = self.model();
        let ghost d0 = self.dirty_data_pages.map();
        let mut page = DataPage::new();
        assert(page.chunk_map() =~= Map::<u64, ChunkView>::empty());
        page.put(key, chunk);
        let size = page.size();
        proof {
            page.lemma_view();
        }
        let ghost new_page = page;
        self.dirty_data_pages.insert(f, page);
        self.data_page_sizes.insert(f, size);
        proof {
            let m1 = self.model();
            assert(self.dirty_data_pages.map() =~= d0.insert(f, new_page));
            assert(m1.dirty =~= m0.dirty.insert(f, new_page@));
            assert(m1.sizes =~= m0.sizes.insert(f, size));
            assert(page_of(m1, f) == new_page@);
            assert(page_changed(m0, m1, f));
            assert(page_ok(m1, f));
            lemma_page_changed_base(m0, m1, f);
            lemma_tidy_page_changed(m0, m1, f);
            assert forall|q: u64| #[trigger]
                self.dirty_data_pages.map().contains_key(q) implies self.dirty_data_pages.map()[q].wf() by {
                if q != f {
                    assert(d0.contains_key(q));
                }
            }
            assert(chunks_at(m0, f) =~= Map::<u64, ChunkView>::empty());
        }
    }

    /// A copy of the chunk of `key` in data page `p`, if the page has one.
    /// The page is read from below unless it is in memory, and does not become dirty.
    pub(crate) fn fetch_chunk(&mut self, p: u64, key: u64) -> (r: Result<Option<Chunk>, KvError>)
        requires
            old(self).wf(),
            old(self).model().sizes.contains_key(p),
        ensures
            final(self).wf(),
            final(self).model() == old(self).model(),
            same_index(old(self).model(), final(self).model()),
            final(self).model().sizes == old(self).model().sizes,
            final(self).model().dirty == old(self).model().dirty,
            old(self).kv.reliable() ==> final(self).kv.reliable(),
            old(self).kv.roomy() ==> final(self).kv.roomy(),
            r matches Ok(c) ==> (c is Some == chunks_at(old(self).model(), p).contains_key(key)) && (
            c is Some ==> c->0@ == chunks_at(old(self).model(), p)[key]),
            old(self).kv.reliable() ==> r is Ok,
            !fails_with(r, KvError::NotFound),
    {
        let ghost m0 = self.model();
        proof {
            lemma_base_page(m0, p);
        }
        match self.dirty_data_pages.get(p) {
            Some(page) => {
                assert(self.dirty_data_pages.map()[p].wf());
                match page.get(key) {
                    Some(c) => {
                        let data = copy_bytes(c.data.as_slice());
                        return Ok(Some(Chunk { next_page_index: c.next_page_index, data }));
                    },
                    None => {
                        return Ok(None);
                    },
                }
            },
            None => {},
        }
        let bytes = match self.kv.read(p as usize) {
            Ok(b) => b,
            Err(e) => {
                assert(self.model() == m0);
                return Err(e);
            },
        };
        assert(self.model() == m0);
        let mut page = match DataPage::decode(bytes.as_slice()) {
            Ok(page) => page,
            Err(e) => {
                return Err(e);
            },
        };
        proof {
            page.lemma_view();
        }
        Ok(page.take(key))
    }

    /// Whether `i` can take a new page.
    pub(crate) fn is_free(&mut self, i: u32, reserved: &Vec<u64>) -> (r: Result<bool, KvError>)
        requires
            old(self).wf(),
        ensures
            final(self).wf(),
            final(self).model() == old(self).model(),
            same_index(old(self).model(), final(self).model()),
            final(self).model().sizes == old(self).model().sizes,
            final(self).model().dirty == old(self).model().dirty,
            old(self).kv.reliable() ==> final(self).kv.reliable(),
            old(self).kv.roomy() ==> final(self).kv.roomy(),
            r matches Ok(b) ==> b == free_at(old(self).model(), reserved@, i as u64),
            old(self).kv.reliable() ==> r is Ok,
    {
        if i == 0 || self.data_page_sizes.contains_key(i as u64) || occurs(
            &self.meta_pages,
            i as u64,
        ) || occurs(reserved, i as u64) {
            return Ok(false);
        }
        let ghost m0 = self.model();
        match self.kv.has(i as usize) {
            Ok(b) => {
                assert(self.model() == m0);
                Ok(!b)
            },
            Err(e) => {
                assert(self.model() == m0);
                Err(e)
            },
        }
    }

    /// A place for a new page. Places are drawn at random from the 32-bit
    /// numbers; when `RANDOM_DRAWS` draws in a row are taken, the numbers
    /// are tried in turn, so that a free place is found if there is one.
    pub(crate) fn find_free_index(&mut self, reserved: &Vec<u64>) -> (r: Result<u64, KvError>)
        requires
            old(self).wf(),
        ensures
            final(self).wf(),
            final(self).model() == old(self).model(),
            same_index(old(self).model(), final(self).model()),
            final(self).model().sizes == old(self).model().sizes,
            final(self).model().dirty == old(self).model().dirty,
            old(self).kv.reliable() ==> final(self).kv.reliable(),
            old(self).kv.roomy() ==> final(self).kv.roomy(),
            r matches Ok(f) ==> f <= u32::MAX && free_at(old(self).model(), reserved@, f),
            old(self).kv.reliable() ==> r is Ok || fails_with(r, KvError::WriteZero),
            old(self).kv.reliable() && r is Err ==> forall|f: u64|
                f <= u32::MAX ==> !#[trigger] free_at(old(self).model(), reserved@, f),
    {
        let mut draws: u32 = 0;
        while draws < RANDOM_DRAWS
            invariant
                self.wf(),
                self.model() == old(self).model(),
                same_index(old(self).model(), self.model()),
                old(self).kv.reliable() ==> self.kv.reliable(),
                old(self).kv.roomy() ==> self.kv.roomy(),
            decreases RANDOM_DRAWS - draws,
        {
            let i = random_u32();
            if self.is_free(i, reserved)? {
                return Ok(i as u64);
            }
            draws = draws + 1;
        }
        let mut i: u32 = 0;
        loop
            invariant
                self.wf(),
                self.model() == old(self).model(),
                same_index(old(self).model(), self.model()),
                old(self).kv.reliable() ==> self.kv.reliable(),
                old(self).kv.roomy() ==> self.kv.roomy(),
                forall|f: u64| f < i ==> !#[trigger] free_at(old(self).model(), reserved@, f),
            decreases u32::MAX - i,
        {
            if self.is_free(i, reserved)? {
                return Ok(i as u64);
            }
            if i == u32::MAX {
                return Err(KvError::WriteZero);
            }
            i = i + 1;
        }
    }

    /// The existing data page in which a new value of `size` bytes starts,
    /// made dirty; `None` where the value needs a new page.
    pub(crate) fn find_first_page_for_size(&mut self, size: u64) -> (r: Result<Option<u64>, KvError>)
        requires
            old(self).wf(),
        ensures
            final(self).wf(),
            same_pages(old(self).model(), final(self).model()),
            final(self).model().lower == old(self).model().lower,
            old(self).kv.reliable() ==> final(self).kv.reliable(),
            old(self).kv.roomy() ==> final(self).kv.roomy(),
            final(self).model().sizes == old(self).model().sizes,
            same_index(old(self).model(), final(self).model()),
            r matches Ok(o) ==> o == first_page_choice(
                old(self).data_page_sizes@,
                old(self).model().page_size,
                size,
            ) && (o is Some ==> {
                &&& final(self).model().sizes.contains_key(o->0)
                &&& final(self).model().dirty.contains_key(o->0)
                &&& final(self).model().sizes[o->0] + 24 <= final(self).model().page_size
            }),
            old(self).kv.reliable() ==> r is Ok,
    {
        match choose_first_page(&self.data_page_sizes, self.page_size, size) {
            Some(p) => {
                proof {
                    let i = choose|i: int|
                        0 <= i < self.data_page_sizes@.len() && #[trigger] self.data_page_sizes@[i].0
                            == p && self.data_page_sizes@[i].1 + 24 <= self.page_size;
                    lemma_entry_in_map(self.data_page_sizes@, i);
                }
                match self.load_page(p) {
                    Ok(()) => Ok(Some(p)),
                    Err(e) => Err(e),
                }
            },
            None => {
                proof {
                    let m = self.model();
                    assert(same_pages(m, m));
                }
                Ok(None)
            },
        }
    }

    /// The link and the length of the chunk of `key` in the dirty page `p`.
    pub(crate) fn peek_chunk(&self, p: u64, key: u64) -> (r: (u64, usize))
        requires
            self.wf(),
            self.model().dirty.contains_key(p),
            chunks_at(self.model(), p).contains_key(key),
        ensures
            r.0 == chunks_at(self.model(), p)[key].0,
            r.1 == chunks_at(self.model(), p)[key].1.len(),
            self.model().sizes[p] >= 32 + r.1,
    {
        let ghost m = self.model();
        proof {
            lemma_base_page(m, p);
        }
        assert(self.dirty_data_pages.map().contains_key(p));
        assert(self.dirty_data_pages.map()[p].wf());
        proof {
            let s = page_of(m, p);
            crate::sorted_map::lemma_key_has_position(s, key);
            let i = crate::sorted_map::position_of(s, key);
            lemma_chunks_size_remove(s, i);
            lemma_chunks_size_nonneg(s.remove(i));
        }
        match self.dirty_data_pages.get(p) {
            Some(page) => match page.get(key) {
                Some(c) => (c.next_page_index, c.data.len()),
                None => (0, 0),
            },
            None => (0, 0),
        }
    }

    /// How many of `remaining` bytes the chunk of `key` in page `cur` can
    /// take in place of those it holds, and the link of that chunk. The page
    /// becomes dirty.
    pub(crate) fn plan_chunk(&mut self, cur: u64, key: u64, remaining: usize) -> (r: Result<
        (u64, usize),
        KvError,
    >)
        requires
            old(self).wf(),
            old(self).model().sizes.contains_key(cur),
            chunks_at(old(self).model(), cur).contains_key(key),
        ensures
            final(self).wf(),
            same_index(old(self).model(), final(self).model()),
            final(self).model().sizes == old(self).model().sizes,
            same_pages(old(self).model(), final(self).model()),
            final(self).model().lower == old(self).model().lower,
            old(self).kv.reliable() ==> final(self).kv.reliable(),
            old(self).kv.roomy() ==> final(self).kv.roomy(),
            old(self).kv.reliable() ==> r is Ok,
            r matches Ok(plan) ==> {
                let m = final(self).model();
                &&& m.dirty.contains_key(cur)
                &&& plan.0 == chunks_at(m, cur)[key].0
                &&& plan.1 == chunk_take(m, cur, key, remaining as int)
                &&& plan.1 <= remaining
                &&& m.sizes[cur] - weight(m, cur, key) + 24 + plan.1 <= m.page_size
                &&& (m.page_size >= 33 && remaining >= 1 && m.sizes[cur] == 32 && chunks_at(
                    m,
                    cur,
                )[key].1.len() == 0) ==> plan.1 >= 1
            },
    {
        let ghost m0 = self.model();
        match self.load_page(cur) {
            Ok(()) => {},
            Err(e) => {
                return Err(e);
            },
        }
        let ghost m1 = self.model();
        assert(page_of(m1, cur) == page_of(m0, cur));
        let (nx, old_len) = self.peek_chunk(cur, key);
        let size = match self.data_page_sizes.get(cur) {
            Some(size) => *size,
            None => 0,
        };
        assert(size == m1.sizes[cur]);
        proof {
            lemma_base_page(m1, cur);
        }
        let avail: u64 = (self.page_size - size) + old_len as u64;
        let n: usize = if remaining as u64 <= avail {
            remaining
        } else {
            avail as usize
        };
        Ok((nx, n))
    }

    /// Writes every dirty data page that holds chunks to the store below,
    /// padded to the page size, and removes from it those that hold none.
    pub(crate) fn store_dirty_pages(&mut self) -> (r: Result<(), KvError>)
        requires
            old(self).valid(),
        ensures
            final(self).valid(),
            final(self).same_state(old(self)),
            same_pages(old(self).model(), final(self).model()),
            old(self).kv.reliable() && r is Ok ==> final(self).kv.reliable(),
            old(self).kv.roomy() ==> final(self).kv.roomy(),
            r is Ok ==> forall|p: u64| page_stored(final(self).model(), p),
            r is Ok ==> forall|p: u64| page_erased(final(self).model(), p),
            old(self).kv.reliable() ==> r is Ok || fails_with(r, KvError::WriteZero),
            old(self).kv.reliable() && old(self).kv.roomy() ==> r is Ok,
    {
        let ghost m_old = self.model();
        let n = self.dirty_data_pages.len();
        let mut i: usize = 0;
        proof {
            lemma_same_pages_self(m_old);
        }
        while i < n
            invariant
                i <= n,
                n == self.dirty_data_pages@.len(),
                self.wf(),
                self.same_state(old(self)),
                m_old == old(self).model(),
                keys_ok(m_old),
                same_pages(m_old, self.model()),
                old(self).kv.reliable() ==> self.kv.reliable(),
                old(self).kv.roomy() ==> self.kv.roomy(),
                forall|k: int| 0 <= k < i ==> page_stored(self.model(), #[trigger] self.dirty_data_pages@[k].0),
                forall|k: int| 0 <= k < i ==> page_erased(self.model(), #[trigger] self.dirty_data_pages@[k].0),
            decreases n - i,
        {
            let ghost m0 = self.model();
            let p = self.dirty_data_pages.key_at(i);
            let page = self.dirty_data_pages.value_at(i);
            proof {
                lemma_entry_in_map(self.dirty_data_pages@, i as int);
                assert(m0.dirty.contains_key(p));
                lemma_base_page(m0, p);
                assert(page_of(m0, p) == page@);
            }
            let outcome = if page.is_empty() {
                match self.kv.has(p as usize) {
                    Ok(true) => self.kv.remove(p as usize),
                    Ok(false) => Ok(()),
                    Err(e) => Err(e),
                }
            } else {
                let bytes = page.encode(self.page_size as usize);
                self.kv.write(p as usize, bytes)
            };
            proof {
                let m1 = self.model();
                assert(lower_changed(m0, m1));
                assert(m1.lower.remove(p as usize) =~= m0.lower.remove(p as usize));
                lemma_lower_changed(m0, m1, p as usize);
                lemma_same_pages_trans(m_old, m0, m1);
                lemma_same_pages_keys_ok(m_old, m1);
                if m0.tidy {
                    lemma_tidy_stored(m0, m1, p);
                }
                assert forall|k: int| 0 <= k < i implies page_stored(
                    m1,
                    #[trigger] self.dirty_data_pages@[k].0,
                ) && page_erased(m1, self.dirty_data_pages@[k].0) by {
                    let q = self.dirty_data_pages@[k].0;
                    assert(page_stored(m0, q));
                    assert(page_erased(m0, q));
                    assert(self.dirty_data_pages@[k].0 < self.dirty_data_pages@[i as int].0);
                    lemma_entry_in_map(self.dirty_data_pages@, k);
                    assert(m0.dirty.contains_key(q));
                    lemma_base_page(m0, q);
                    assert(q as usize != p as usize);
                    assert(m0.lower.remove(p as usize).contains_key(q as usize)
                        == m0.lower.contains_key(q as usize));
                    assert(m1.lower.remove(p as usize).contains_key(q as usize)
                        == m1.lower.contains_key(q as usize));
                    assert(m0.lower.remove(p as usize)[q as usize] == m0.lower[q as usize]);
                    assert(m1.lower.remove(p as usize)[q as usize] == m1.lower[q as usize]);
                }
            }
            match outcome {
                Ok(()) => {},
                Err(e) => {
                    return Err(e);
                },
            }
            i = i + 1;
        }
        proof {
            let m = self.model();
            lemma_same_pages_keys_ok(m_old, m);
            assert forall|p: u64| page_stored(m, p) && page_erased(m, p) by {
                if m.dirty.contains_key(p) {
                    let k = crate::sorted_map::position_of(self.dirty_data_pages@, p);
                    assert(crate::sorted_map::holds_at(self.dirty_data_pages@, p, k));
                    assert(page_stored(m, self.dirty_data_pages@[k].0));
                    assert(page_erased(m, self.dirty_data_pages@[k].0));
                }
            }
        }
        Ok(())
    }

    /// Forgets the dirty data pages, which are stored below, and the sizes
    /// of those that hold no chunk.
    pub(crate) fn forget_dirty_pages(&mut self)
        requires
            old(self).valid(),
            forall|p: u64| page_stored(old(self).model(), p),
            forall|p: u64| page_erased(old(self).model(), p),
        ensures
            final(self).valid(),
            same_index(old(self).model(), final(self).model()),
            final(self).model().lower == old(self).model().lower,
            old(self).kv.reliable() ==> final(self).kv.reliable(),
            old(self).kv.roomy() ==> final(self).kv.roomy(),
            final(self).dirty_data_pages@.len() == 0,
            forall|p: u64| !final(self).model().dirty.contains_key(p),
            model_blocks(final(self).model()) == model_blocks(old(self).model()),
            forall|p: u64| #[trigger]
                final(self).model().sizes.contains_key(p) ==> final(self).model().lower[p as usize].len()
                    == final(self).model().page_size,
    {
        let ghost m_old = self.model();
        let ghost sizes0 = self.data_page_sizes.map();
        let ghost dirty0 = self.dirty_data_pages.map();
        let ghost mut gone: Set<u64> = Set::empty();
        let n = self.dirty_data_pages.len();
        let mut i: usize = 0;
        while i < n
            invariant
                i <= n,
                n == self.dirty_data_pages@.len(),
                self.dirty_data_pages == old(self).dirty_data_pages,
                self.dirty_data_pages.wf(),
                dirty0 == self.dirty_data_pages.map(),
                self.data_page_sizes.wf(),
                forall|p: u64| #[trigger]
                    self.data_page_sizes.map().contains_key(p) == (sizes0.contains_key(p)
                        && !gone.contains(p)),
                forall|p: u64| #[trigger]
                    self.data_page_sizes.map().contains_key(p) ==> self.data_page_sizes.map()[p]
                        == sizes0[p],
                forall|k: int|
                    0 <= k < i && (#[trigger] self.dirty_data_pages@[k]).1@.len() == 0
                        ==> gone.contains(self.dirty_data_pages@[k].0),
                forall|p: u64| #[trigger]
                    gone.contains(p) ==> dirty0.contains_key(p) && dirty0[p]@.len() == 0,
                self.page_size == old(self).page_size,
                self.meta_pages == old(self).meta_pages,
                self.map_index == old(self).map_index,
                self.chains == old(self).chains,
                self.tidy == old(self).tidy,
                self.kv == old(self).kv,
            decreases n - i,
        {
            let p = self.dirty_data_pages.key_at(i);
            proof {
                lemma_entry_in_map(self.dirty_data_pages@, i as int);
            }
            if self.dirty_data_pages.value_at(i).is_empty() {
                self.data_page_sizes.remove(p);
                proof {
                    gone = gone.insert(p);
                }
            }
            i = i + 1;
        }
        self.dirty_data_pages = SortedMap::new();
        proof {
            let m1 = self.model();
            assert forall|p: u64| !m1.dirty.contains_key(p) by {}
            assert forall|p: u64| #[trigger]
                m1.sizes.contains_key(p) == (m_old.sizes.contains_key(p) && !(
                m_old.dirty.contains_key(p) && m_old.dirty[p].len() == 0)) by {
                if m_old.dirty.contains_key(p) && m_old.dirty[p].len() == 0 {
                    let k = crate::sorted_map::position_of(old(self).dirty_data_pages@, p);
                    assert(crate::sorted_map::holds_at(old(self).dirty_data_pages@, p, k));
                    lemma_entry_in_map(old(self).dirty_data_pages@, k);
                    assert(old(self).dirty_data_pages@[k].1@.len() == 0);
                    assert(gone.contains(p));
                }
            }
            assert(dirty_forgotten(m_old, m1));
            lemma_forget_dirty(m_old, m1);
            if m_old.tidy {
                lemma_tidy_forgotten(m_old, m1);
            }
        }
    }

    /// The pages that held the meta pages at the last flush, in order.
    pub(crate) fn meta_places(&self) -> (v: &Vec<u64>)
        ensures
            v@ == self.model().meta,
    {
        &self.meta_pages
    }

    /// Whether no data page is dirty.
    pub(crate) fn is_clean(&self) -> (b: bool)
        requires
            self.wf(),
        ensures
            b == (forall|p: u64| !self.model().dirty.contains_key(p)),
    {
        let b = self.dirty_data_pages.is_empty();
        proof {
            if !b {
                lemma_entry_in_map(self.dirty_data_pages@, 0);
                assert(self.model().dirty.contains_key(self.dirty_data_pages@[0].0));
            } else {
                assert forall|p: u64| !self.model().dirty.contains_key(p) by {
                    if self.dirty_data_pages.map().contains_key(p) {
                        crate::sorted_map::lemma_key_has_position(self.dirty_data_pages@, p);
                    }
                }
            }
        }
        b
    }

    /// Writes `bytes` to the store below at a place that holds no stored
    /// data page.
    pub(crate) fn write_lower(&mut self, place: u64, bytes: Vec<u8>) -> (r: Result<(), KvError>)
        requires
            old(self).valid(),
            !old(self).model().tidy,
            place <= usize::MAX,
            !old(self).model().sizes.contains_key(place),
        ensures
            final(self).valid(),
            lower_changed(old(self).model(), final(self).model()),
            model_blocks(final(self).model()) == model_blocks(old(self).model()),
            old(self).kv.reliable() && r is Ok ==> final(self).kv.reliable(),
            old(self).kv.roomy() ==> final(self).kv.roomy(),
            r is Ok ==> final(self).model().lower == old(self).model().lower.insert(
                place as usize,
                bytes@,
            ),
            final(self).model().lower.remove(place as usize) == old(self).model().lower.remove(
                place as usize,
            ),
            old(self).kv.reliable() ==> r is Ok || fails_with(r, KvError::WriteZero),
            old(self).kv.reliable() && old(self).kv.roomy() ==> r is Ok,
    {
        let ghost m0 = self.model();
        let r = self.kv.write(place as usize, bytes);
        proof {
            let m1 = self.model();
            assert(m1.lower.remove(place as usize) =~= m0.lower.remove(place as usize));
            lemma_lower_changed(m0, m1, place as usize);
            lemma_same_pages_keys_ok(m0, m1);
            crate::page_model::lemma_same_pages(m0, m1);
        }
        r
    }

    /// Removes the block at `place`, which holds no stored data page, from
    /// the store below, if there is one.
    pub(crate) fn erase_lower(&mut self, place: u64) -> (r: Result<(), KvError>)
        requires
            old(self).valid(),
            !old(self).model().tidy,
            place <= usize::MAX,
            !old(self).model().sizes.contains_key(place),
        ensures
            final(self).valid(),
            lower_changed(old(self).model(), final(self).model()),
            model_blocks(final(self).model()) == model_blocks(old(self).model()),
            old(self).kv.reliable() ==> final(self).kv.reliable(),
            old(self).kv.roomy() ==> final(self).kv.roomy(),
            r is Ok ==> final(self).model().lower == old(self).model().lower.remove(place as usize),
            final(self).model().lower.remove(place as usize) == old(self).model().lower.remove(
                place as usize,
            ),
            old(self).kv.reliable() ==> r is Ok,
    {
        let ghost m0 = self.model();
        let r = match self.kv.has(place as usize) {
            Ok(true) => self.kv.remove(place as usize),
            Ok(false) => Ok(()),
            Err(e) => Err(e),
        };
        proof {
            let m1 = self.model();
            assert(m1.lower.remove(place as usize) =~= m0.lower.remove(place as usize));
            if r is Ok {
                assert(m1.lower =~= m0.lower.remove(place as usize));
            }
            lemma_lower_changed(m0, m1, place as usize);
            lemma_same_pages_keys_ok(m0, m1);
            crate::page_model::lemma_same_pages(m0, m1);
        }
        r
    }

    /// Has the store below persist what was written to it: after that
    /// nothing waits for a flush below.
    pub(crate) fn flush_lower(&mut self) -> (r: Result<(), KvError>)
        requires
            old(self).valid(),
        ensures
            final(self).valid(),
            final(self).model() == old(self).model(),
            r is Ok ==> final(self).kv.persisted(),
            old(self).kv.reliable() && r is Ok ==> final(self).kv.reliable(),
            old(self).kv.roomy() ==> final(self).kv.roomy(),
            old(self).kv.reliable() ==> r is Ok || fails_with(r, KvError::WriteZero),
            old(self).kv.reliable() && old(self).kv.roomy() ==> r is Ok,
    {
        let ghost m0 = self.model();
        let r = self.kv.flush();
        assert(self.model() == m0);
        r
    }

    /// Records the places of the meta pages.
    pub(crate) fn set_meta(&mut self, places: Vec<u64>)
        requires
            old(self).valid(),
            !old(self).model().tidy,
            places@.no_duplicates(),
            forall|i: int|
                0 <= i < places@.len() ==> !old(self).model().sizes.contains_key(
                    #[trigger] places@[i],
                ) && places@[i] <= usize::MAX,
            places@.len() > 0 ==> places@[0] == 0,
        ensures
            final(self).valid(),
            meta_changed(old(self).model(), final(self).model()),
            final(self).model().meta == places@,
            model_blocks(final(self).model()) == model_blocks(old(self).model()),
            final(self).kv == old(self).kv,
    {
        let ghost m0 = self.model();
        self.meta_pages = places;
        proof {
            lemma_meta_changed(m0, self.model());
        }
    }

    /// The index and the sizes cannot be stored: a page takes no meta
    /// page, or none with an entry where there are entries, or too few
    /// places are free for the meta pages.
    pub open spec fn cannot_flush(&self) -> bool {
        let entries = self.map_index@.len() + self.data_page_sizes@.len();
        ||| self.model().page_size < 24
        ||| meta_capacity(self.model().page_size) == 0 && entries > 0
        ||| meta_lacks(self.model(), entries as int)
    }

    /// The meta pages that hold the index and the sizes as they are now.
    pub(crate) fn build_meta_pages(&self) -> (r: Option<Vec<MetaPage>>)
        requires
            self.wf(),
        ensures
            r is None <==> self.model().page_size < 24 || (meta_capacity(self.model().page_size)
                == 0 && self.map_index@.len() + self.data_page_sizes@.len() > 0),
            r matches Some(pages) ==> {
                &&& 1 <= pages@.len() <= self.map_index@.len() + self.data_page_sizes@.len() + 1
                &&& meta_pages_fit(pages@, self.model().page_size)
                &&& joined_index(pages@) == self.map_index@
                &&& joined_sizes(pages@) == self.data_page_sizes@
            },
    {
        pack_meta_pages(&self.map_index, &self.data_page_sizes, self.page_size)
    }
}

} // verus!
