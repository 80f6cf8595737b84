//! The buffering layer: writes and removals are held back until a flush,
//! and what was read from below is kept in a cache of bounded size.
use crate::bytes::copy_bytes;
use crate::error::{fails_with, KvError};
use crate::kv::{IntKv, lemma_same_elsewhere};
use crate::sorted_map::{lemma_entry_in_map, lemma_key_has_position, position_of, SortedMap};
use vstd::prelude::*;

verus! {

/// What the cache knows of a block of the store below.
pub enum CacheEntry {
    /// Nothing.
    Unknown,
    /// The block is there, with these bytes.
    Data(Vec<u8>),
    /// Whether the block is there.
    Present(bool),
}

/// A pending change: the bytes written, or `None` for a removal.
pub type Change = Option<Vec<u8>>;

/// The key of block `index` in the maps of the layer.
pub open spec fn slot(index: usize) -> u64 {
    index as u64
}

/// The blocks of the store below with the pending changes applied.
pub open spec fn overlaid(lower: Map<usize, Seq<u8>>, changes: Map<u64, Change>) -> Map<
    usize,
    Seq<u8>,
> {
    Map::new(
        |i: usize|
            if changes.contains_key(slot(i)) {
                changes[slot(i)] is Some
            } else {
                lower.contains_key(i)
            },
        |i: usize|
            if changes.contains_key(slot(i)) {
                changes[slot(i)]->0@
            } else {
                lower[i]
            },
    )
}

/// What a cache knows after it has forgotten the bytes it held: which
/// blocks are there below and which are not.
pub open spec fn presence_only(cache: Map<u64, CacheEntry>) -> Map<u64, CacheEntry> {
    Map::new(|k: u64| cache.contains_key(k) && cache[k] is Present, |k: u64| cache[k])
}

/// The cache `after` and its count of bytes `size_after` are what a
/// cache with the bound `limit` (0 for none) makes of `before` and
/// `size` when it takes the bytes `data` of block `index`: where the
/// bytes counted so far and those of `data` (at most `usize::MAX` in
/// all) exceed the bound, it first forgets all bytes it holds and counts
/// anew.
pub open spec fn cached(
    before: Map<u64, CacheEntry>,
    size: usize,
    limit: usize,
    index: usize,
    data: Seq<u8>,
    after: Map<u64, CacheEntry>,
    size_after: usize,
) -> bool {
    let total = if size + data.len() > usize::MAX {
        usize::MAX as int
    } else {
        size + data.len()
    };
    let forgets = limit > 0 && total > limit;
    let base = if forgets {
        presence_only(before)
    } else {
        before
    };
    &&& size_after == (if forgets {
        data.len() as int
    } else {
        total
    })
    &&& forall|k: u64| k != slot(index) ==> (#[trigger] after.contains_key(k) == base.contains_key(k))
    &&& forall|k: u64| k != slot(index) && #[trigger] base.contains_key(k) ==> after[k] == base[k]
    &&& after.contains_key(slot(index))
    &&& after[slot(index)] is Data
    &&& after[slot(index)]->Data_0@ == data
}

/// What the cache says of block `i` is true of the store below.
pub open spec fn entry_ok(lower: Map<usize, Seq<u8>>, i: usize, entry: CacheEntry) -> bool {
    match entry {
        CacheEntry::Unknown => true,
        CacheEntry::Data(b) => lower.contains_key(i) && lower[i] == b@,
        CacheEntry::Present(p) => p == lower.contains_key(i),
    }
}

/// Everything the cache says is true of the store below.
pub open spec fn cache_ok(lower: Map<usize, Seq<u8>>, cache: Map<u64, CacheEntry>) -> bool {
    forall|i: usize| #[trigger] cache.contains_key(slot(i)) ==> entry_ok(lower, i, cache[slot(i)])
}

/// A cache stays true where the store below changes at a place of which
/// the cache then says what is there, or nothing.
pub proof fn lemma_cache_after(
    lower: Map<usize, Seq<u8>>,
    after: Map<usize, Seq<u8>>,
    cache: Map<u64, CacheEntry>,
    index: usize,
    entry: CacheEntry,
)
    requires
        cache_ok(lower, cache),
        after.remove(index) == lower.remove(index),
        entry_ok(after, index, entry),
    ensures
        cache_ok(after, cache.insert(slot(index), entry)),
        cache_ok(after, cache.remove(slot(index))),
{
    assert forall|i: usize| i != index implies (#[trigger] after.contains_key(i)
        == lower.contains_key(i)) && (lower.contains_key(i) ==> after[i] == lower[i]) by {
        assert(after.remove(index).contains_key(i) == after.contains_key(i));
        assert(lower.remove(index).contains_key(i) == lower.contains_key(i));
        if lower.contains_key(i) {
            assert(after.remove(index)[i] == after[i]);
            assert(lower.remove(index)[i] == lower[i]);
        }
    }
    assert forall|i: usize| #[trigger]
        cache.insert(slot(index), entry).contains_key(slot(i)) implies entry_ok(
        after,
        i,
        cache.insert(slot(index), entry)[slot(i)],
    ) by {
        if i != index {
            assert(slot(i) != slot(index));
            assert(cache.contains_key(slot(i)));
            assert(after.contains_key(i) == lower.contains_key(i));
        }
    }
    assert forall|i: usize| #[trigger]
        cache.remove(slot(index)).contains_key(slot(i)) implies entry_ok(
        after,
        i,
        cache.remove(slot(index))[slot(i)],
    ) by {
        assert(slot(i) != slot(index));
        assert(i != index);
        assert(cache.contains_key(slot(i)));
        assert(after.contains_key(i) == lower.contains_key(i));
    }
}

/// A block store that holds changes back until a flush.
pub struct BufferedIntKv<K: IntKv> {
    /// What is known of the blocks below.
    pub cache: SortedMap<CacheEntry>,
    /// The most bytes that the cache may hold (0: no bound).
    pub cache_size_limit: usize,
    /// The bytes of the blocks that were read into the cache since it was
    /// last emptied.
    pub cache_size: usize,
    /// The changes that are not yet in the store below.
    pub changes: SortedMap<Change>,
    /// The store below.
    pub kv: K,
}

impl<K: IntKv> BufferedIntKv<K> {
    /// A layer over `kv` with no bound on its cache.
    pub fn new(kv: K) -> (layer: Self)
        requires
            kv.inv(),
        ensures
            layer.inv(),
            layer.kv == kv,
            layer.blocks() == kv.blocks(),
            layer.cache_size_limit == 0,
    {
        let layer = BufferedIntKv {
            cache: SortedMap::new(),
            cache_size_limit: 0,
            cache_size: 0,
            changes: SortedMap::new(),
            kv,
        };
        assert(layer.blocks() =~= kv.blocks());
        layer
    }

    /// The same layer with `limit` as the bound of its cache.
    pub fn with_cache_size_limit(self, limit: usize) -> (layer: Self)
        requires
            self.inv(),
        ensures
            layer.inv(),
            layer.kv == self.kv,
            layer.blocks() == self.blocks(),
            layer.cache_size_limit == limit,
    {
        let mut layer = self;
        layer.cache_size_limit = limit;
        layer
    }

    /// The pending change of `index`.
    fn get_changed(&self, index: usize) -> (r: Option<Option<Vec<u8>>>)
        requires
            self.changes.wf(),
        ensures
            r is Some <==> self.changes.map().contains_key(slot(index)),
            r is Some ==> (r->0 is Some <==> self.changes.map()[slot(index)] is Some),
            r is Some && r->0 is Some ==> r->0->0@ == self.changes.map()[slot(index)]->0@,
    {
        match self.changes.get(index as u64) {
            None => None,
            Some(None) => Some(None),
            Some(Some(b)) => Some(Some(copy_bytes(b.as_slice()))),
        }
    }

    /// What the cache knows of `index`.
    fn get_cache(&self, index: usize) -> (r: CacheEntry)
        requires
            self.cache.wf(),
        ensures
            self.cache.map().contains_key(slot(index)) ==> match (
                r,
                self.cache.map()[slot(index)],
            ) {
                (CacheEntry::Unknown, CacheEntry::Unknown) => true,
                (CacheEntry::Data(a), CacheEntry::Data(b)) => a@ == b@,
                (CacheEntry::Present(a), CacheEntry::Present(b)) => a == b,
                _ => false,
            },
            !self.cache.map().contains_key(slot(index)) ==> r is Unknown,
    {
        match self.cache.get(index as u64) {
            None => CacheEntry::Unknown,
            Some(CacheEntry::Unknown) => CacheEntry::Unknown,
            Some(CacheEntry::Data(b)) => CacheEntry::Data(copy_bytes(b.as_slice())),
            Some(CacheEntry::Present(p)) => CacheEntry::Present(*p),
        }
    }

    /// Forgets the bytes that the cache holds; what it knows of the
    /// presence of blocks stays.
    fn drop_cached_data(&mut self)
        requires
            old(self).inv(),
        ensures
            final(self).inv(),
            final(self).kv == old(self).kv,
            final(self).changes == old(self).changes,
            final(self).cache_size_limit == old(self).cache_size_limit,
            final(self).cache_size == 0,
            final(self).cache.map() == presence_only(old(self).cache.map()),
    {
        let ghost lower = self.kv.blocks();
        let ghost before = self.cache.map();
        let mut kept: SortedMap<CacheEntry> = SortedMap::new();
        let n = self.cache.len();
        let mut i: usize = 0;
        while i < n
            invariant
                i <= n,
                n == self.cache@.len(),
                self.cache.wf(),
                before == self.cache.map(),
                kept.wf(),
                forall|k: u64| #[trigger]
                    kept.map().contains_key(k) ==> before.contains_key(k) && kept.map()[k]
                        == before[k] && kept.map()[k] is Present,
                forall|a: int| 0 <= a < kept@.len() ==> i > 0 && (#[trigger] kept@[a]).0
                    < self.cache@[i - 1].0 + 1,
                forall|a: int|
                    0 <= a < i && (#[trigger] self.cache@[a]).1 is Present ==> kept.map().contains_key(
                        self.cache@[a].0,
                    ),
            decreases n - i,
        {
            let k = self.cache.key_at(i);
            proof {
                lemma_entry_in_map(self.cache@, i as int);
            }
            match self.cache.value_at(i) {
                CacheEntry::Present(p) => {
                    let ghost was = kept.map();
                    kept.insert(k, CacheEntry::Present(*p));
                    proof {
                        assert forall|q: u64| #[trigger]
                            kept.map().contains_key(q) implies before.contains_key(q)
                            && kept.map()[q] == before[q] && kept.map()[q] is Present by {
                            if q != k {
                                assert(was.contains_key(q));
                            }
                        }
                    }
                },
                _ => {},
            }
            proof {
                assert forall|a: int| 0 <= a < kept@.len() implies (#[trigger] kept@[a]).0
                    < self.cache@[i as int].0 + 1 by {
                    lemma_entry_in_map(kept@, a);
                    let q = kept@[a].0;
                    assert(kept.map().contains_key(q));
                    if q != k {
                        lemma_key_has_position(self.cache@, q);
                        let b = position_of(self.cache@, q);
                        if b > i {
                            assert(self.cache@[i as int].0 < self.cache@[b].0);
                        }
                    }
                }
            }
            i = i + 1;
        }
        proof {
            assert forall|k: u64| before.contains_key(k) && before[k] is Present implies kept.map().contains_key(
                k,
            ) by {
                lemma_key_has_position(self.cache@, k);
                let b = position_of(self.cache@, k);
                lemma_entry_in_map(self.cache@, b);
                assert(self.cache@[b].1 is Present);
            }
            assert(kept.map() =~= presence_only(before));
        }
        self.cache = kept;
        self.cache_size = 0;
        proof {
            assert forall|j: usize| #[trigger]
                self.cache.map().contains_key(slot(j)) implies entry_ok(
                lower,
                j,
                self.cache.map()[slot(j)],
            ) by {
                assert(before.contains_key(slot(j)));
            }
        }
    }

    /// Puts the bytes of block `index`, which were read from below, into
    /// the cache. Where the bytes read since the cache was last emptied
    /// then exceed the bound, the cache forgets all bytes it holds first.
    fn cache_data(&mut self, index: usize, data: &Vec<u8>)
        requires
            old(self).inv(),
            old(self).kv.blocks().contains_key(index),
            old(self).kv.blocks()[index] == data@,
        ensures
            final(self).inv(),
            final(self).kv == old(self).kv,
            final(self).changes == old(self).changes,
            final(self).cache_size_limit == old(self).cache_size_limit,
            final(self).cache.map().contains_key(slot(index)),
            final(self).cache.map()[slot(index)] is Data,
            cached(
                old(self).cache.map(),
                old(self).cache_size,
                old(self).cache_size_limit,
                index,
                data@,
                final(self).cache.map(),
                final(self).cache_size,
            ),
    {
        let len = data.len();
        let total: usize = if len > usize::MAX - self.cache_size {
            usize::MAX
        } else {
            self.cache_size + len
        };
        if self.cache_size_limit > 0 && total > self.cache_size_limit {
            self.drop_cached_data();
            self.cache_size = len;
        } else {
            self.cache_size = total;
        }
        let ghost before = self.cache.map();
        let copy = copy_bytes(data.as_slice());
        self.cache.insert(index as u64, CacheEntry::Data(copy));
        proof {
            lemma_cache_after(
                self.kv.blocks(),
                self.kv.blocks(),
                before,
                index,
                CacheEntry::Data(copy),
            );
        }
    }

    /// Notes in the cache whether block `index` is there below, in place
    /// of what the cache said of it. The bytes that the cache counts stay
    /// as they are.
    fn cache_presence(&mut self, index: usize, present: bool)
        requires
            old(self).inv(),
            old(self).kv.blocks().contains_key(index) == present,
        ensures
            final(self).inv(),
            final(self).kv == old(self).kv,
            final(self).changes == old(self).changes,
            final(self).cache_size_limit == old(self).cache_size_limit,
            final(self).cache_size == old(self).cache_size,
            final(self).cache.map() == old(self).cache.map().insert(
                slot(index),
                CacheEntry::Present(present),
            ),
    {
        let ghost before = self.cache.map();
        self.cache.insert(index as u64, CacheEntry::Present(present));
        proof {
            lemma_cache_after(
                self.kv.blocks(),
                self.kv.blocks(),
                before,
                index,
                CacheEntry::Present(present),
            );
        }
    }

    /// Applies one pending change to the store below, and notes in the
    /// cache what is there then. A change that cannot be applied stays
    /// pending.
    fn push_down(&mut self, index: u64, change: Change) -> (r: Result<(), KvError>)
        requires
            old(self).inv(),
            index <= usize::MAX,
            !old(self).changes.map().contains_key(index),
            forall|a: int| 0 <= a < old(self).changes@.len() ==> (#[trigger] old(self).changes@[a]).0
                < index,
        ensures
            final(self).inv(),
            final(self).cache_size_limit == old(self).cache_size_limit,
            old(self).kv.reliable() && r is Ok ==> final(self).kv.reliable(),
            old(self).kv.reliable() ==> r is Ok || fails_with(r, KvError::WriteZero),
            old(self).kv.reliable() && old(self).kv.roomy() ==> r is Ok,
            old(self).kv.roomy() ==> final(self).kv.roomy(),
            final(self).blocks() == overlaid(
                old(self).kv.blocks(),
                old(self).changes.map().insert(index, change),
            ),
            r is Ok ==> final(self).changes == old(self).changes,
            r is Err ==> final(self).changes@ == old(self).changes@.push((index, change)),
    {
        let ghost lower0 = self.kv.blocks();
        let ghost cache0 = self.cache.map();
        let ghost goal = overlaid(lower0, self.changes.map().insert(index, change));
        let place = index as usize;
        match change {
            None => {
                let present = match self.kv.has(place) {
                    Ok(b) => b,
                    Err(e) => {
                        self.changes.insert(index, None);
                        assert(self.blocks() =~= goal);
                        return Err(e);
                    },
                };
                if present {
                    match self.kv.remove(place) {
                        Ok(()) => {},
                        Err(e) => {
                            let ghost lower1 = self.kv.blocks();
                            self.cache.remove(index);
                            self.changes.insert(index, None);
                            proof {
                                lemma_cache_after(lower0, lower1, cache0, place, CacheEntry::Unknown);
                                lemma_same_elsewhere(lower0, lower1, place);
                                assert(self.blocks() =~= goal);
                            }
                            return Err(e);
                        },
                    }
                }
                let ghost lower1 = self.kv.blocks();
                self.cache.insert(index, CacheEntry::Present(false));
                proof {
                    assert(lower1.remove(place) =~= lower0.remove(place));
                    lemma_cache_after(lower0, lower1, cache0, place, CacheEntry::Present(false));
                    lemma_same_elsewhere(lower0, lower1, place);
                    assert(self.blocks() =~= goal);
                }
                Ok(())
            },
            Some(data) => {
                let copy = copy_bytes(data.as_slice());
                match self.kv.write(place, copy) {
                    Ok(()) => {},
                    Err(e) => {
                        let ghost lower1 = self.kv.blocks();
                        self.cache.remove(index);
                        self.changes.insert(index, Some(data));
                        proof {
                            lemma_cache_after(lower0, lower1, cache0, place, CacheEntry::Unknown);
                            lemma_same_elsewhere(lower0, lower1, place);
                            assert(self.blocks() =~= goal);
                        }
                        return Err(e);
                    },
                }
                let ghost lower1 = self.kv.blocks();
                let ghost bytes = data@;
                self.cache.insert(index, CacheEntry::Data(data));
                proof {
                    assert(lower1.remove(place) =~= lower0.remove(place));
                    lemma_cache_after(lower0, lower1, cache0, place, CacheEntry::Data(data));
                    lemma_same_elsewhere(lower0, lower1, place);
                    assert(self.blocks() =~= goal);
                }
                Ok(())
            },
        }
    }
}

impl<K: IntKv> IntKv for BufferedIntKv<K> {
    /// What holds of the layer between calls.
    open spec fn inv(&self) -> bool {
        &&& self.kv.inv()
        &&& self.cache.wf()
        &&& self.changes.wf()
        &&& cache_ok(self.kv.blocks(), self.cache.map())
        &&& forall|k: u64| #[trigger] self.changes.map().contains_key(k) ==> k <= usize::MAX
    }

    /// The blocks that the layer holds.
    open spec fn blocks(&self) -> Map<usize, Seq<u8>> {
        overlaid(self.kv.blocks(), self.changes.map())
    }

    /// Whether no call fails for a reason of the store below.
    open spec fn reliable(&self) -> bool {
        self.kv.reliable()
    }

    /// The layer has room where the store below has.
    open spec fn roomy(&self) -> bool {
        self.kv.roomy()
    }

    /// Nothing waits for a flush: no change is held back, and nothing
    /// waits below.
    open spec fn persisted(&self) -> bool {
        self.changes@.len() == 0 && self.kv.persisted()
    }

    /// Reads a block: what was written to it since the last flush, else
    /// what the cache holds, else what the store below holds, which the
    /// cache then keeps.
    fn read(&mut self, index: usize) -> (r: Result<Vec<u8>, KvError>)
        ensures
            final(self).changes == old(self).changes,
            final(self).cache_size_limit == old(self).cache_size_limit,
            old(self).changes.map().contains_key(slot(index)) ==> final(self).kv == old(self).kv
                && final(self).cache == old(self).cache && (match old(self).changes.map()[slot(
                index,
            )] {
                Some(b) => r is Ok && r->Ok_0@ == b@,
                None => fails_with(r, KvError::NotFound),
            }),
            !old(self).changes.map().contains_key(slot(index)) && old(self).cache.map().contains_key(
                slot(index),
            ) && (old(self).cache.map()[slot(index)] is Data || old(self).cache.map()[slot(index)]
                == CacheEntry::Present(false)) ==> final(self).kv == old(self).kv && final(self).cache
                == old(self).cache && final(self).cache_size == old(self).cache_size && (match old(
                self,
            ).cache.map()[slot(index)] {
                CacheEntry::Data(b) => r is Ok && r->Ok_0@ == b@,
                _ => fails_with(r, KvError::NotFound),
            }),
            !old(self).changes.map().contains_key(slot(index)) && !(old(self).cache.map().contains_key(
                slot(index),
            ) && (old(self).cache.map()[slot(index)] is Data || old(self).cache.map()[slot(index)]
                == CacheEntry::Present(false))) && r is Ok ==> cached(
                old(self).cache.map(),
                old(self).cache_size,
                old(self).cache_size_limit,
                index,
                r->Ok_0@,
                final(self).cache.map(),
                final(self).cache_size,
            ),
    {
        match self.get_changed(index) {
            Some(Some(b)) => {
                return Ok(b);
            },
            Some(None) => {
                return Err(KvError::NotFound);
            },
            None => {},
        }
        match self.get_cache(index) {
            CacheEntry::Present(false) => Err(KvError::NotFound),
            CacheEntry::Data(b) => Ok(b),
            _ => {
                match self.kv.read(index) {
                    Err(e) => {
                        match e {
                            KvError::NotFound => {
                                self.cache_presence(index, false);
                            },
                            _ => {},
                        }
                        Err(e)
                    },
                    Ok(b) => {
                        self.cache_data(index, &b);
                        Ok(b)
                    },
                }
            },
        }
    }

    /// Notes the block as written. The store below is not touched.
    fn write(&mut self, index: usize, data: Vec<u8>) -> (r: Result<(), KvError>)
        ensures
            r is Ok,
            final(self).kv == old(self).kv,
            final(self).cache_size_limit == old(self).cache_size_limit,
    {
        let ghost bytes = data@;
        self.changes.insert(index as u64, Some(data));
        proof {
            assert(self.blocks() =~= old(self).blocks().insert(index, bytes));
            assert forall|k: u64| #[trigger] self.changes.map().contains_key(k) implies k
                <= usize::MAX by {
                if k != index as u64 {
                    assert(old(self).changes.map().contains_key(k));
                }
            }
        }
        Ok(())
    }

    /// Notes the block as removed, if it is there. The store below is asked
    /// at most whether it has the block.
    fn remove(&mut self, index: usize) -> (r: Result<(), KvError>)
        ensures
            final(self).cache_size_limit == old(self).cache_size_limit,
            old(self).changes.map().contains_key(slot(index)) ==> final(self).kv == old(self).kv
                && (match old(self).changes.map()[slot(index)] {
                Some(_) => r is Ok,
                None => fails_with(r, KvError::NotFound),
            }),
    {
        let present = match self.has(index) {
            Ok(b) => b,
            Err(e) => {
                return Err(e);
            },
        };
        if present {
            let ghost before = self.changes.map();
            self.changes.insert(index as u64, None);
            proof {
                assert(self.blocks() =~= old(self).blocks().remove(index));
                assert forall|k: u64| #[trigger] self.changes.map().contains_key(k) implies k
                    <= usize::MAX by {
                    if k != index as u64 {
                        assert(before.contains_key(k));
                    }
                }
            }
            Ok(())
        } else {
            Err(KvError::NotFound)
        }
    }

    /// Whether the block is there: by the pending changes, else by the
    /// cache, else by the store below, whose answer the cache keeps.
    fn has(&mut self, index: usize) -> (r: Result<bool, KvError>)
        ensures
            final(self).changes == old(self).changes,
            final(self).cache_size_limit == old(self).cache_size_limit,
            old(self).changes.map().contains_key(slot(index)) ==> final(self).kv == old(self).kv
                && final(self).cache == old(self).cache && r == Ok::<bool, KvError>(
                old(self).changes.map()[slot(index)] is Some,
            ),
    {
        match self.changes.get(index as u64) {
            Some(Some(_)) => {
                return Ok(true);
            },
            Some(None) => {
                return Ok(false);
            },
            None => {},
        }
        match self.get_cache(index) {
            CacheEntry::Present(b) => Ok(b),
            CacheEntry::Data(_) => Ok(true),
            CacheEntry::Unknown => {
                let b = match self.kv.has(index) {
                    Ok(b) => b,
                    Err(e) => {
                        return Err(e);
                    },
                };
                self.cache_presence(index, b);
                Ok(b)
            },
        }
    }

    /// Applies the pending changes to the store below, and has it persist
    /// them. After a flush that succeeds nothing is pending, and the store
    /// below holds the blocks of this one.
    fn flush(&mut self) -> (r: Result<(), KvError>)
        ensures
            final(self).cache_size_limit == old(self).cache_size_limit,
            r is Ok ==> final(self).changes@.len() == 0 && final(self).kv.blocks() == final(self).blocks(),
            r is Ok ==> final(self).kv.persisted(),
    {
        let ghost goal = self.blocks();
        loop
            invariant
                self.inv(),
                self.blocks() == goal,
                goal == old(self).blocks(),
                old(self).kv.reliable() ==> self.kv.reliable(),
                old(self).kv.roomy() ==> self.kv.roomy(),
                self.cache_size_limit == old(self).cache_size_limit,
            ensures
                self.changes@.len() == 0,
            decreases self.changes@.len(),
        {
            let ghost before = self.changes.map();
            let ghost rest = self.changes@;
            let (index, change) = match self.changes.pop_last() {
                None => {
                    break ;
                },
                Some(entry) => entry,
            };
            proof {
                assert(before.contains_key(index));
                assert forall|k: u64| #[trigger] self.changes.map().contains_key(k) implies k
                    <= usize::MAX by {
                    assert(before.contains_key(k));
                }
                assert(self.changes.map().insert(index, change) =~= before);
                assert forall|a: int| 0 <= a < self.changes@.len() implies (
                #[trigger] self.changes@[a]).0 < index by {
                    assert(rest[a].0 < rest[rest.len() - 1].0);
                }
            }
            match self.push_down(index, change) {
                Ok(()) => {},
                Err(e) => {
                    return Err(e);
                },
            }
        }
        let r = self.kv.flush();
        proof {
            assert(self.blocks() =~= goal);
            if r is Ok {
                assert(self.changes.map() =~= Map::<u64, Change>::empty()) by {
                    assert forall|k: u64| !self.changes.map().contains_key(k) by {
                        if self.changes.map().contains_key(k) {
                            lemma_key_has_position(self.changes@, k);
                        }
                    }
                }
                assert(self.kv.blocks() =~= self.blocks());
            }
        }
        r
    }
}

} // verus!
