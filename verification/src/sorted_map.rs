//! A map from `u64` keys, kept as a vector of entries in increasing key order.
use vstd::prelude::*;

verus! {

/// Whether the keys of `s` increase strictly.
pub open spec fn sorted<V>(s: Seq<(u64, V)>) -> bool {
    forall|i: int, j: int| 0 <= i < j < s.len() ==> (#[trigger] s[i]).0 < (#[trigger] s[j]).0
}

/// Whether position `i` of `s` holds the key `k`.
pub open spec fn holds_at<V>(s: Seq<(u64, V)>, k: u64, i: int) -> bool {
    0 <= i < s.len() && s[i].0 == k
}

/// Whether some entry of `s` has the key `k`.
pub open spec fn has_key<V>(s: Seq<(u64, V)>, k: u64) -> bool {
    exists|i: int| holds_at(s, k, i)
}

/// A position of `s` that holds the key `k`, if there is one.
pub open spec fn position_of<V>(s: Seq<(u64, V)>, k: u64) -> int {
    choose|i: int| holds_at(s, k, i)
}

/// The entries of `s` as a map.
pub open spec fn to_map<V>(s: Seq<(u64, V)>) -> Map<u64, V> {
    Map::new(|k: u64| has_key(s, k), |k: u64| s[position_of(s, k)].1)
}

/// Each entry of a sorted sequence is found under its key.
pub proof fn lemma_entry_in_map<V>(s: Seq<(u64, V)>, i: int)
    requires
        sorted(s),
        0 <= i < s.len(),
    ensures
        to_map(s).contains_key(s[i].0),
        to_map(s)[s[i].0] == s[i].1,
        position_of(s, s[i].0) == i,
{
    assert(holds_at(s, s[i].0, i));
    let j = position_of(s, s[i].0);
    assert(holds_at(s, s[i].0, j));
    if j < i {
        assert(s[j].0 < s[i].0);
    }
    if i < j {
        assert(s[i].0 < s[j].0);
    }
}

/// Each key of the map sits at its position in the sequence.
pub proof fn lemma_key_has_position<V>(s: Seq<(u64, V)>, k: u64)
    requires
        to_map(s).contains_key(k),
    ensures
        holds_at(s, k, position_of(s, k)),
        to_map(s)[k] == s[position_of(s, k)].1,
{
}

/// Appending an entry with a larger key keeps the order and adds the entry to the map.
pub proof fn lemma_push_larger<V>(s: Seq<(u64, V)>, k: u64, v: V)
    requires
        sorted(s),
        forall|i: int| 0 <= i < s.len() ==> (#[trigger] s[i]).0 < k,
    ensures
        sorted(s.push((k, v))),
        to_map(s.push((k, v))) == to_map(s).insert(k, v),
{
    let t = s.push((k, v));
    assert(sorted(t)) by {
        assert forall|i: int, j: int| 0 <= i < j < t.len() implies (#[trigger] t[i]).0 < (
        #[trigger] t[j]).0 by {
            if j < s.len() {
                assert(s[i].0 < s[j].0);
            } else {
                assert(s[i].0 < k);
            }
        }
    }
    assert(!has_key(s, k)) by {
        if has_key(s, k) {
            let j = position_of(s, k);
            assert(holds_at(s, k, j));
            assert(s[j].0 < k);
        }
    }
    assert(t =~= s.insert(s.len() as int, (k, v)));
    lemma_put_at(s, t, k, v, s.len() as int);
}

/// When `t` is `s` with `(k, v)` put in at position `p`, in place of an entry
/// with that key or between its neighbours, `t` maps as `s` does but for `k`.
pub proof fn lemma_put_at<V>(s: Seq<(u64, V)>, t: Seq<(u64, V)>, k: u64, v: V, p: int)
    requires
        sorted(s),
        sorted(t),
        0 <= p <= s.len(),
        (p < s.len() && s[p].0 == k && t == s.update(p, (k, v))) || (!has_key(s, k) && t
            == s.insert(p, (k, v))),
    ensures
        to_map(t) == to_map(s).insert(k, v),
{
    let m = to_map(s).insert(k, v);
    assert(holds_at(t, k, p));
    lemma_entry_in_map(t, p);
    assert forall|q: u64| to_map(t).contains_key(q) == m.contains_key(q) by {
        if q != k {
            if to_map(t).contains_key(q) {
                let j = position_of(t, q);
                assert(holds_at(t, q, j));
                if p < s.len() && s[p].0 == k && t == s.update(p, (k, v)) {
                    assert(holds_at(s, q, j));
                } else {
                    if j < p {
                        assert(holds_at(s, q, j));
                    } else {
                        assert(holds_at(s, q, j - 1));
                    }
                }
            }
            if to_map(s).contains_key(q) {
                let j = position_of(s, q);
                assert(holds_at(s, q, j));
                if p < s.len() && s[p].0 == k && t == s.update(p, (k, v)) {
                    assert(holds_at(t, q, j));
                } else {
                    if j < p {
                        assert(holds_at(t, q, j));
                    } else {
                        assert(holds_at(t, q, j + 1));
                    }
                }
            }
        }
    }
    assert forall|q: u64| to_map(t).contains_key(q) implies to_map(t)[q] == m[q] by {
        if q != k {
            let j = position_of(t, q);
            assert(holds_at(t, q, j));
            lemma_entry_in_map(t, j);
            if p < s.len() && s[p].0 == k && t == s.update(p, (k, v)) {
                lemma_entry_in_map(s, j);
            } else {
                if j < p {
                    lemma_entry_in_map(s, j);
                } else {
                    lemma_entry_in_map(s, j - 1);
                }
            }
        }
    }
    assert(to_map(t) =~= m);
}

/// Taking the entry at position `p` out of a sorted sequence removes its key from the map.
pub proof fn lemma_take_at<V>(s: Seq<(u64, V)>, p: int)
    requires
        sorted(s),
        0 <= p < s.len(),
    ensures
        sorted(s.remove(p)),
        to_map(s.remove(p)) == to_map(s).remove(s[p].0),
{
    let t = s.remove(p);
    let k = s[p].0;
    let m = to_map(s).remove(k);
    assert(sorted(t)) by {
        assert forall|i: int, j: int| 0 <= i < j < t.len() implies (#[trigger] t[i]).0 < (
        #[trigger] t[j]).0 by {
            let a = if i < p { i } else { i + 1 };
            let b = if j < p { j } else { j + 1 };
            assert(s[a].0 < s[b].0);
        }
    }
    assert forall|q: u64| to_map(t).contains_key(q) == m.contains_key(q) by {
        if to_map(t).contains_key(q) {
            let j = position_of(t, q);
            assert(holds_at(t, q, j));
            let a = if j < p { j } else { j + 1 };
            assert(holds_at(s, q, a));
            if a < p {
                assert(s[a].0 < s[p].0);
            } else {
                assert(s[p].0 < s[a].0);
            }
        }
        if m.contains_key(q) {
            let j = position_of(s, q);
            assert(holds_at(s, q, j));
            if j < p {
                assert(holds_at(t, q, j));
            } else {
                assert(holds_at(t, q, j - 1));
            }
        }
    }
    assert forall|q: u64| to_map(t).contains_key(q) implies to_map(t)[q] == m[q] by {
        let j = position_of(t, q);
        assert(holds_at(t, q, j));
        lemma_entry_in_map(t, j);
        let a = if j < p { j } else { j + 1 };
        lemma_entry_in_map(s, a);
    }
    assert(to_map(t) =~= m);
}

/// Two sorted sequences with the same map are the same sequence.
pub proof fn lemma_same_map_same_seq<V>(s: Seq<(u64, V)>, t: Seq<(u64, V)>)
    requires
        sorted(s),
        sorted(t),
        to_map(s) == to_map(t),
    ensures
        s == t,
    decreases s.len(),
{
    if s.len() == 0 {
        if t.len() > 0 {
            lemma_entry_in_map(t, 0);
            lemma_key_has_position(s, t[0].0);
        }
        assert(s =~= t);
    } else {
        let n = s.len() - 1;
        lemma_entry_in_map(s, n);
        let k = s[n].0;
        lemma_key_has_position(t, k);
        let p = position_of(t, k);
        if p != t.len() - 1 {
            let last = t.len() - 1;
            lemma_entry_in_map(t, last);
            lemma_key_has_position(s, t[last].0);
            let j = position_of(s, t[last].0);
            assert(t[p].0 < t[last].0);
            if j < n {
                assert(s[j].0 < s[n].0);
            }
            assert(false);
        }
        lemma_entry_in_map(t, p);
        lemma_take_at(s, n);
        lemma_take_at(t, p);
        assert(s.remove(n) =~= s.drop_last());
        assert(t.remove(p) =~= t.drop_last());
        lemma_same_map_same_seq(s.drop_last(), t.drop_last());
        assert(s =~= s.drop_last().push(s[n]));
        assert(t =~= t.drop_last().push(t[p]));
    }
}

/// A map from `u64` keys to values, held in key order.
pub struct SortedMap<V> {
    pub entries: Vec<(u64, V)>,
}

impl<V> SortedMap<V> {
    /// The entries, in key order.
    pub open spec fn view(&self) -> Seq<(u64, V)> {
        self.entries@
    }

    /// The keys increase strictly.
    pub open spec fn wf(&self) -> bool {
        sorted(self@)
    }

    /// The entries as a map.
    pub open spec fn map(&self) -> Map<u64, V> {
        to_map(self@)
    }

    /// An empty map.
    pub fn new() -> (m: Self)
        ensures
            m.wf(),
            m@ == Seq::<(u64, V)>::empty(),
            m.map() == Map::<u64, V>::empty(),
    {
        let m = SortedMap { entries: Vec::new() };
        assert(m.map() =~= Map::<u64, V>::empty());
        m
    }

    /// The number of entries.
    pub fn len(&self) -> (n: usize)
        ensures
            n == self@.len(),
    {
        self.entries.len()
    }

    /// Whether there is no entry.
    pub fn is_empty(&self) -> (b: bool)
        ensures
            b == (self@.len() == 0),
    {
        self.entries.len() == 0
    }

    /// The key at position `i`.
    pub fn key_at(&self, i: usize) -> (k: u64)
        requires
            i < self@.len(),
        ensures
            k == self@[i as int].0,
    {
        self.entries[i].0
    }

    /// The value at position `i`.
    pub fn value_at(&self, i: usize) -> (v: &V)
        requires
            i < self@.len(),
        ensures
            *v == self@[i as int].1,
    {
        &self.entries[i].1
    }

    /// The first position whose key is not below `key`.
    pub fn lower_bound(&self, key: u64) -> (p: usize)
        requires
            self.wf(),
        ensures
            p <= self@.len(),
            forall|i: int| 0 <= i < p ==> (#[trigger] self@[i]).0 < key,
            forall|i: int| p <= i < self@.len() ==> (#[trigger] self@[i]).0 >= key,
            has_key(self@, key) <==> (p < self@.len() && self@[p as int].0 == key),
    {
        let mut lo: usize = 0;
        let mut hi: usize = self.entries.len();
        while lo < hi
            invariant
                self.wf(),
                lo <= hi <= self@.len(),
                forall|i: int| 0 <= i < lo ==> (#[trigger] self@[i]).0 < key,
                forall|i: int| hi <= i < self@.len() ==> (#[trigger] self@[i]).0 >= key,
            decreases hi - lo,
        {
            let mid: usize = lo + (hi - lo) / 2;
            if self.entries[mid].0 < key {
                assert forall|i: int| 0 <= i < mid + 1 implies (#[trigger] self@[i]).0 < key by {
                    if i < mid {
                        assert(self@[i].0 < self@[mid as int].0);
                    }
                }
                lo = mid + 1;
            } else {
                assert forall|i: int| mid <= i < self@.len() implies (#[trigger] self@[i]).0
                    >= key by {
                    if i > mid {
                        assert(self@[mid as int].0 < self@[i].0);
                    }
                }
                hi = mid;
            }
        }
        proof {
            if has_key(self@, key) {
                let j = position_of(self@, key);
                assert(holds_at(self@, key, j));
                if j < lo {
                    assert(self@[j].0 < key);
                }
                if j > lo {
                    assert(self@[lo as int].0 < self@[j].0);
                }
            }
            if lo < self@.len() && self@[lo as int].0 == key {
                assert(holds_at(self@, key, lo as int));
            }
        }
        lo
    }

    /// Whether `key` has an entry.
    pub fn contains_key(&self, key: u64) -> (b: bool)
        requires
            self.wf(),
        ensures
            b == self.map().contains_key(key),
    {
        let p = self.lower_bound(key);
        p < self.entries.len() && self.entries[p].0 == key
    }

    /// The value of `key`, if it has one.
    pub fn get(&self, key: u64) -> (r: Option<&V>)
        requires
            self.wf(),
        ensures
            r is Some <==> self.map().contains_key(key),
            r is Some ==> *r->0 == self.map()[key],
    {
        let p = self.lower_bound(key);
        if p < self.entries.len() && self.entries[p].0 == key {
            proof {
                lemma_entry_in_map(self@, p as int);
            }
            Some(&self.entries[p].1)
        } else {
            None
        }
    }

    /// Sets the value of `key`, and returns the value it had.
    pub fn insert(&mut self, key: u64, value: V) -> (r: Option<V>)
        requires
            old(self).wf(),
        ensures
            final(self).wf(),
            final(self).map() == old(self).map().insert(key, value),
            r is Some <==> old(self).map().contains_key(key),
            r is Some ==> r->0 == old(self).map()[key],
            r is Some ==> final(self)@ == old(self)@.update(
                position_of(old(self)@, key),
                (key, value),
            ),
            r is None ==> exists|p: int|
                0 <= p <= old(self)@.len() && #[trigger] final(self)@ == old(self)@.insert(
                    p,
                    (key, value),
                ),
            (forall|i: int| 0 <= i < old(self)@.len() ==> (#[trigger] old(self)@[i]).0 < key)
                ==> final(self)@ == old(self)@.push((key, value)),
    {
        let p = self.lower_bound(key);
        let ghost s = self@;
        if p < self.entries.len() && self.entries[p].0 == key {
            proof {
                lemma_entry_in_map(s, p as int);
            }
            self.entries.push((key, value));
            let last = self.entries.swap_remove(p);
            proof {
                let t = self@;
                assert(t =~= s.update(p as int, (key, value)));
                assert(sorted(t)) by {
                    assert forall|i: int, j: int| 0 <= i < j < t.len() implies (#[trigger] t[i]).0
                        < (#[trigger] t[j]).0 by {
                        assert(s[i].0 < s[j].0);
                    }
                }
                lemma_put_at(s, t, key, value, p as int);
            }
            Some(last.1)
        } else {
            self.entries.insert(p, (key, value));
            proof {
                let t = self@;
                assert(t == s.insert(p as int, (key, value)));
                assert(sorted(t)) by {
                    assert forall|i: int, j: int| 0 <= i < j < t.len() implies (#[trigger] t[i]).0
                        < (#[trigger] t[j]).0 by {
                        let a = if i < p { i } else { i - 1 };
                        let b = if j < p { j } else { j - 1 };
                        if i == p {
                            assert(s[b].0 >= key);
                            assert(s[b].0 != key) by {
                                if s[b].0 == key {
                                    assert(holds_at(s, key, b));
                                }
                            }
                        } else if j == p {
                            assert(s[a].0 < key);
                        } else {
                            assert(s[a].0 < s[b].0);
                        }
                    }
                }
                lemma_put_at(s, t, key, value, p as int);
                if forall|i: int| 0 <= i < s.len() ==> (#[trigger] s[i]).0 < key {
                    if p < s.len() {
                        assert(s[p as int].0 < key);
                    }
                    assert(t =~= s.push((key, value)));
                }
            }
            None
        }
    }

    /// Takes the entry with the largest key out, if there is an entry.
    pub fn pop_last(&mut self) -> (r: Option<(u64, V)>)
        requires
            old(self).wf(),
        ensures
            final(self).wf(),
            r is Some <==> old(self)@.len() > 0,
            r is Some ==> ({
                let e = r.unwrap();
                &&& e == old(self)@.last()
                &&& final(self)@ == old(self)@.drop_last()
                &&& old(self).map().contains_key(e.0)
                &&& old(self).map()[e.0] == e.1
                &&& final(self).map() == old(self).map().remove(e.0)
            }),
            r is None ==> final(self)@ == old(self)@,
    {
        let n = self.entries.len();
        if n == 0 {
            return None;
        }
        proof {
            lemma_entry_in_map(self@, n - 1);
            lemma_take_at(self@, n - 1);
            assert(self@.remove(n - 1) =~= self@.drop_last());
        }
        self.entries.pop()
    }

    /// Removes the entry of `key`, and returns the value it had.
    pub fn remove(&mut self, key: u64) -> (r: Option<V>)
        requires
            old(self).wf(),
        ensures
            final(self).wf(),
            final(self).map() == old(self).map().remove(key),
            r is Some <==> old(self).map().contains_key(key),
            r is Some ==> r->0 == old(self).map()[key],
            r is Some ==> holds_at(old(self)@, key, position_of(old(self)@, key)) && final(self)@
                == old(self)@.remove(position_of(old(self)@, key)),
            r is None ==> final(self)@ == old(self)@,
    {
        let p = self.lower_bound(key);
        if p < self.entries.len() && self.entries[p].0 == key {
            proof {
                lemma_entry_in_map(self@, p as int);
                lemma_take_at(self@, p as int);
            }
            let e = self.entries.remove(p);
            Some(e.1)
        } else {
            assert(self.map().remove(key) =~= self.map());
            None
        }
    }
}

/// The map that a list of entries builds when each is inserted in turn.
pub open spec fn collect<V>(s: Seq<(u64, V)>) -> Map<u64, V>
    decreases s.len(),
{
    if s.len() == 0 {
        Map::empty()
    } else {
        collect(s.drop_last()).insert(s.last().0, s.last().1)
    }
}

/// Entries in key order build the map that they are.
pub proof fn lemma_collect_sorted<V>(s: Seq<(u64, V)>)
    requires
        sorted(s),
    ensures
        collect(s) == to_map(s),
    decreases s.len(),
{
    if s.len() == 0 {
        assert(to_map(s) =~= Map::<u64, V>::empty());
    } else {
        let t = s.drop_last();
        assert(sorted(t)) by {
            assert forall|i: int, j: int| 0 <= i < j < t.len() implies (#[trigger] t[i]).0 < (
            #[trigger] t[j]).0 by {
                assert(s[i].0 < s[j].0);
            }
        }
        lemma_collect_sorted(t);
        assert forall|i: int| 0 <= i < t.len() implies (#[trigger] t[i]).0 < s.last().0 by {
            assert(s[i].0 < s[s.len() - 1].0);
        }
        lemma_push_larger(t, s.last().0, s.last().1);
        assert(t.push((s.last().0, s.last().1)) =~= s);
    }
}

} // verus!
