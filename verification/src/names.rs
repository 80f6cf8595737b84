//! Names as byte strings: their order, and lists of entries under
//! distinct names.
use vstd::prelude::*;

verus! {

/// `a` and `b` agree before position `k`, and `a` ends there or has the
/// smaller byte there.
pub open spec fn less_at(a: Seq<u8>, b: Seq<u8>, k: int) -> bool {
    &&& 0 <= k <= a.len()
    &&& k <= b.len()
    &&& forall|i: int| 0 <= i < k ==> a[i] == b[i]
    &&& (k == a.len() && k < b.len()) || (k < a.len() && k < b.len() && a[k] < b[k])
}

/// `a` comes before `b` in the order of byte strings: at the first place
/// where they differ `a` has the smaller byte, or `a` is a start of `b`.
pub open spec fn lex_less(a: Seq<u8>, b: Seq<u8>) -> bool {
    exists|k: int| less_at(a, b, k)
}

/// The order of byte strings is transitive.
pub proof fn lemma_lex_transitive(a: Seq<u8>, b: Seq<u8>, c: Seq<u8>)
    requires
        lex_less(a, b),
        lex_less(b, c),
    ensures
        lex_less(a, c),
{
    let k1 = choose|k: int| less_at(a, b, k);
    let k2 = choose|k: int| less_at(b, c, k);
    let k = if k1 <= k2 {
        k1
    } else {
        k2
    };
    assert(less_at(a, c, k));
}

/// No byte string comes before itself.
pub proof fn lemma_lex_irreflexive(a: Seq<u8>)
    ensures
        !lex_less(a, a),
{
    if lex_less(a, a) {
        let k = choose|k: int| less_at(a, a, k);
        assert(false);
    }
}

/// How two names stand to each other.
#[derive(Clone, Copy, Debug, PartialEq, Eq, Structural)]
pub enum Rank {
    Before,
    Same,
    After,
}

/// How `a` stands to `b` in the order of byte strings.
pub fn lex_rank(a: &[u8], b: &[u8]) -> (r: Rank)
    ensures
        r == Rank::Before ==> lex_less(a@, b@),
        r == Rank::Same <==> a@ == b@,
        r == Rank::After ==> lex_less(b@, a@),
{
    let mut k: usize = 0;
    while k < a.len() && k < b.len()
        invariant
            k <= a@.len(),
            k <= b@.len(),
            forall|i: int| 0 <= i < k ==> a@[i] == b@[i],
        decreases a@.len() - k,
    {
        if a[k] < b[k] {
            assert(less_at(a@, b@, k as int));
            return Rank::Before;
        }
        if a[k] > b[k] {
            assert(less_at(b@, a@, k as int));
            return Rank::After;
        }
        k = k + 1;
    }
    if k < b.len() {
        assert(less_at(a@, b@, k as int));
        Rank::Before
    } else if k < a.len() {
        assert(less_at(b@, a@, k as int));
        Rank::After
    } else {
        assert(a@ =~= b@);
        Rank::Same
    }
}

/// Entries under names.
pub type Named<V> = Seq<(Seq<u8>, V)>;

/// The names increase strictly.
pub open spec fn names_sorted<V>(s: Named<V>) -> bool {
    forall|i: int, j: int| 0 <= i < j < s.len() ==> lex_less((#[trigger] s[i]).0, (#[trigger] s[j]).0)
}

/// Position `i` holds the name `n`.
pub open spec fn named_at<V>(s: Named<V>, n: Seq<u8>, i: int) -> bool {
    0 <= i < s.len() && s[i].0 == n
}

/// The entries as a map.
pub open spec fn name_map<V>(s: Named<V>) -> Map<Seq<u8>, V> {
    Map::new(
        |n: Seq<u8>| exists|i: int| named_at(s, n, i),
        |n: Seq<u8>| s[choose|i: int| named_at(s, n, i)].1,
    )
}

/// In a sorted list each name occurs once.
pub proof fn lemma_names_distinct<V>(s: Named<V>, i: int, j: int)
    requires
        names_sorted(s),
        0 <= i < s.len(),
        0 <= j < s.len(),
        i != j,
    ensures
        s[i].0 != s[j].0,
{
    if i < j {
        assert(lex_less(s[i].0, s[j].0));
        lemma_lex_irreflexive(s[i].0);
    } else {
        assert(lex_less(s[j].0, s[i].0));
        lemma_lex_irreflexive(s[j].0);
    }
}

/// Each entry of a sorted list is found under its name.
pub proof fn lemma_named_entry<V>(s: Named<V>, i: int)
    requires
        names_sorted(s),
        0 <= i < s.len(),
    ensures
        name_map(s).contains_key(s[i].0),
        name_map(s)[s[i].0] == s[i].1,
{
    assert(named_at(s, s[i].0, i));
    let j = choose|j: int| named_at(s, s[i].0, j);
    if j != i {
        lemma_names_distinct(s, i, j);
    }
}

/// A name of the map has a position in the list.
pub proof fn lemma_named_position<V>(s: Named<V>, n: Seq<u8>) -> (i: int)
    requires
        name_map(s).contains_key(n),
        names_sorted(s),
    ensures
        named_at(s, n, i),
        name_map(s)[n] == s[i].1,
{
    let i = choose|i: int| named_at(s, n, i);
    lemma_named_entry(s, i);
    i
}

/// When `t` is `s` with `(n, v)` put in at position `p`, in place of the
/// entry with that name or between its neighbours, `t` maps as `s` does
/// but for `n`.
pub proof fn lemma_named_put<V>(s: Named<V>, t: Named<V>, n: Seq<u8>, v: V, p: int)
    requires
        names_sorted(s),
        names_sorted(t),
        0 <= p <= s.len(),
        (p < s.len() && s[p].0 == n && t == s.update(p, (n, v))) || (!name_map(s).contains_key(n)
            && t == s.insert(p, (n, v))),
    ensures
        name_map(t) == name_map(s).insert(n, v),
{
    let m = name_map(s).insert(n, v);
    assert(named_at(t, n, p));
    lemma_named_entry(t, p);
    let replaced = p < s.len() && s[p].0 == n && t == s.update(p, (n, v));
    assert forall|q: Seq<u8>| name_map(t).contains_key(q) == m.contains_key(q) by {
        if q != n {
            if name_map(t).contains_key(q) {
                let j = choose|j: int| named_at(t, q, j);
                if replaced {
                    assert(named_at(s, q, j));
                } else if j < p {
                    assert(named_at(s, q, j));
                } else {
                    assert(named_at(s, q, j - 1));
                }
            }
            if name_map(s).contains_key(q) {
                let j = choose|j: int| named_at(s, q, j);
                if replaced {
                    assert(named_at(t, q, j));
                } else if j < p {
                    assert(named_at(t, q, j));
                } else {
                    assert(named_at(t, q, j + 1));
                }
            }
        }
    }
    assert forall|q: Seq<u8>| name_map(t).contains_key(q) implies name_map(t)[q] == m[q] by {
        if q != n {
            let j = lemma_named_position(t, q);
            if replaced {
                lemma_named_entry(s, j);
            } else if j < p {
                lemma_named_entry(s, j);
            } else {
                lemma_named_entry(s, j - 1);
            }
        }
    }
    assert(name_map(t) =~= m);
}

/// Taking the entry at position `p` out of a sorted list removes its name
/// from the map.
pub proof fn lemma_named_take<V>(s: Named<V>, p: int)
    requires
        names_sorted(s),
        0 <= p < s.len(),
    ensures
        names_sorted(s.remove(p)),
        name_map(s.remove(p)) == name_map(s).remove(s[p].0),
{
    let t = s.remove(p);
    let n = s[p].0;
    let m = name_map(s).remove(n);
    assert(names_sorted(t)) by {
        assert forall|i: int, j: int| 0 <= i < j < t.len() implies lex_less(
            (#[trigger] t[i]).0,
            (#[trigger] t[j]).0,
        ) by {
            let a = if i < p { i } else { i + 1 };
            let b = if j < p { j } else { j + 1 };
            assert(lex_less(s[a].0, s[b].0));
        }
    }
    assert forall|q: Seq<u8>| name_map(t).contains_key(q) == m.contains_key(q) by {
        if name_map(t).contains_key(q) {
            let j = choose|j: int| named_at(t, q, j);
            let a = if j < p { j } else { j + 1 };
            assert(named_at(s, q, a));
            lemma_names_distinct(s, a, p);
        }
        if m.contains_key(q) {
            let j = choose|j: int| named_at(s, q, j);
            if j < p {
                assert(named_at(t, q, j));
            } else {
                assert(named_at(t, q, j - 1));
            }
        }
    }
    assert forall|q: Seq<u8>| name_map(t).contains_key(q) implies name_map(t)[q] == m[q] by {
        let j = lemma_named_position(t, q);
        let a = if j < p { j } else { j + 1 };
        lemma_named_entry(s, a);
    }
    assert(name_map(t) =~= m);
}

/// The map that a list of entries builds when each is put in turn.
pub open spec fn gathered<V>(s: Named<V>) -> Map<Seq<u8>, V>
    decreases s.len(),
{
    if s.len() == 0 {
        Map::empty()
    } else {
        gathered(s.drop_last()).insert(s.last().0, s.last().1)
    }
}

/// Entries in name order build the map that they are.
pub proof fn lemma_gathered_sorted<V>(s: Named<V>)
    requires
        names_sorted(s),
    ensures
        gathered(s) == name_map(s),
    decreases s.len(),
{
    if s.len() == 0 {
        assert(name_map(s) =~= Map::<Seq<u8>, V>::empty());
    } else {
        let t = s.drop_last();
        let n = s.len() - 1;
        assert(names_sorted(t)) by {
            assert forall|i: int, j: int| 0 <= i < j < t.len() implies lex_less(
                (#[trigger] t[i]).0,
                (#[trigger] t[j]).0,
            ) by {
                assert(lex_less(s[i].0, s[j].0));
            }
        }
        lemma_gathered_sorted(t);
        assert(!name_map(t).contains_key(s[n].0)) by {
            if name_map(t).contains_key(s[n].0) {
                let j = choose|j: int| named_at(t, s[n].0, j);
                lemma_names_distinct(s, j, n);
            }
        }
        assert(s =~= t.insert(n, (s[n].0, s[n].1)));
        lemma_named_put(t, s, s[n].0, s[n].1, n);
    }
}

/// Two sorted lists with the same map are the same list.
pub proof fn lemma_same_names_same_list<V>(s: Named<V>, t: Named<V>)
    requires
        names_sorted(s),
        names_sorted(t),
        name_map(s) == name_map(t),
    ensures
        s == t,
    decreases s.len(),
{
    if s.len() == 0 {
        if t.len() > 0 {
            lemma_named_entry(t, 0);
            let j = lemma_named_position(s, t[0].0);
        }
        assert(s =~= t);
    } else {
        let n = s.len() - 1;
        lemma_named_entry(s, n);
        let p = lemma_named_position(t, s[n].0);
        if p != t.len() - 1 {
            let last = t.len() - 1;
            lemma_named_entry(t, last);
            let j = lemma_named_position(s, t[last].0);
            assert(lex_less(t[p].0, t[last].0));
            if j < n {
                assert(lex_less(s[j].0, s[n].0));
                lemma_lex_transitive(t[last].0, s[n].0, t[last].0);
                lemma_lex_irreflexive(t[last].0);
            } else {
                lemma_lex_irreflexive(t[last].0);
            }
            assert(false);
        }
        lemma_named_take(s, n);
        lemma_named_take(t, p);
        assert(s.remove(n) =~= s.drop_last());
        assert(t.remove(p) =~= t.drop_last());
        lemma_same_names_same_list(s.drop_last(), t.drop_last());
        assert(s =~= s.drop_last().push(s[n]));
        assert(t =~= t.drop_last().push(t[p]));
    }
}

} // verus!
