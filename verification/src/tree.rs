//! A directory: its entries by name, and its bytes in the store.
use crate::bytes::{
    be32, be64, copy_bytes, copy_range, from_be32, from_be64, get_be32, get_be64,
    lemma_be32_round_trip, lemma_be64_round_trip, put_be32, put_be64, put_range,
};
use crate::error::{fails_with, KvError};
use crate::meta::{Meta, Timestamp};
use crate::names::{
    gathered, lemma_gathered_sorted, lemma_lex_transitive, lemma_named_entry, lemma_named_put,
    lemma_named_take, lemma_same_names_same_list, lex_less, lex_rank, name_map, Named, named_at,
    names_sorted, Rank,
};
use vstd::prelude::*;
use vstd::utf8::valid_utf8;

verus! {

/// An entry of a directory as the contracts see it: where its block is, and its metadata.
pub type EntryView = (u64, Meta);

/// The entries of a directory as the contracts see them, in name order.
pub type TreeSeq = Named<EntryView>;

/// The entries of a directory by name.
pub type TreeView = Map<Seq<u8>, EntryView>;

/// Whether the bytes are UTF-8, as `core::str::from_utf8` finds it.
#[verifier::external_body]
pub(crate) fn is_utf8(bytes: &[u8]) -> (ok: bool)
    ensures
        ok == valid_utf8(bytes@),
{
    core::str::from_utf8(bytes).is_ok()
}

/// An entry of a directory.
pub struct TreeItem {
    /// The name, in UTF-8.
    pub name: Vec<u8>,
    /// The block of the file, or of the directory.
    pub index: u64,
    /// Length, kind and time of the last change.
    pub meta: Meta,
}

impl TreeItem {
    /// The entry as the contracts see it: its name, its block and its meta data.
    pub open spec fn view(&self) -> (Seq<u8>, EntryView) {
        (self.name@, (self.index, self.meta))
    }
}

/// A directory.
pub struct Tree {
    /// The entries, in the order of their names.
    pub items: Vec<TreeItem>,
    /// The block that holds the directory.
    pub index: u64,
}

/// The bytes of an entry: the length of the name and the name, then
/// block, length and mode in eight bytes each, then the time in eight
/// bytes of seconds and four bytes of nanoseconds; all numbers most
/// significant byte first.
pub open spec fn item_bytes(e: (Seq<u8>, EntryView)) -> Seq<u8> {
    be64(e.0.len() as u64) + e.0 + be64(e.1.0) + be64(e.1.1.len) + be64(e.1.1.mode) + be64(
        e.1.1.mtime.secs,
    ) + be32(e.1.1.mtime.nanos)
}

/// How many bytes an entry takes.
pub open spec fn item_size(e: (Seq<u8>, EntryView)) -> int {
    44 + (e.0.len() as int)
}

/// The bytes of the entries of a directory.
pub open spec fn items_bytes(s: TreeSeq) -> Seq<u8>
    decreases s.len(),
{
    if s.len() == 0 {
        Seq::empty()
    } else {
        items_bytes(s.drop_last()) + item_bytes(s.last())
    }
}

/// The bytes of a directory: the number of entries in eight bytes, then the entries.
pub open spec fn tree_bytes(s: TreeSeq) -> Seq<u8> {
    be64(s.len() as u64) + items_bytes(s)
}

/// The entry at `pos`, and where it ends. The name must be UTF-8.
pub open spec fn parse_item(bytes: Seq<u8>, pos: int) -> Option<((Seq<u8>, EntryView), int)> {
    if 0 <= pos && pos + 8 <= bytes.len() {
        let n = from_be64(bytes.subrange(pos, pos + 8)) as int;
        if pos + 44 + n <= bytes.len() && valid_utf8(bytes.subrange(pos + 8, pos + 8 + n)) {
            let p = pos + 8 + n;
            Some(
                (
                    (
                        bytes.subrange(pos + 8, p),
                        (
                            from_be64(bytes.subrange(p, p + 8)),
                            Meta {
                                len: from_be64(bytes.subrange(p + 8, p + 16)),
                                mode: from_be64(bytes.subrange(p + 16, p + 24)),
                                mtime: Timestamp {
                                    secs: from_be64(bytes.subrange(p + 24, p + 32)),
                                    nanos: from_be32(bytes.subrange(p + 32, p + 36)),
                                },
                            },
                        ),
                    ),
                    p + 36,
                ),
            )
        } else {
            None
        }
    } else {
        None
    }
}

/// The first `n` entries from `pos` on, and where they end.
pub open spec fn parse_items(bytes: Seq<u8>, pos: int, n: nat) -> Option<(TreeSeq, int)>
    decreases n,
{
    if n == 0 {
        Some((Seq::empty(), pos))
    } else {
        match parse_items(bytes, pos, (n - 1) as nat) {
            Some((s, p)) => match parse_item(bytes, p) {
                Some((e, q)) => Some((s.push(e), q)),
                None => None,
            },
            None => None,
        }
    }
}

/// The entries that the bytes of a directory spell, in the order they are written.
pub open spec fn parse_tree(bytes: Seq<u8>) -> Option<TreeSeq> {
    if bytes.len() >= 8 {
        match parse_items(bytes, 8, from_be64(bytes.subrange(0, 8)) as nat) {
            Some((s, _)) => Some(s),
            None => None,
        }
    } else {
        None
    }
}

/// Every name is UTF-8 and short enough to write its length down.
pub open spec fn names_valid(s: TreeSeq) -> bool {
    forall|i: int| 0 <= i < s.len() ==> valid_utf8((#[trigger] s[i]).0) && s[i].0.len() <= u64::MAX
}

/// How many bytes the entries of a directory take.
pub open spec fn items_size(s: TreeSeq) -> int
    decreases s.len(),
{
    if s.len() == 0 {
        0
    } else {
        items_size(s.drop_last()) + item_size(s.last())
    }
}

/// The entries of a directory take as many bytes as their size says.
pub proof fn lemma_items_len(s: TreeSeq)
    requires
        names_valid(s),
    ensures
        items_bytes(s).len() == items_size(s),
        items_size(s) >= 0,
    decreases s.len(),
{
    if s.len() > 0 {
        let t = s.drop_last();
        assert(names_valid(t)) by {
            assert forall|i: int| 0 <= i < t.len() implies valid_utf8((#[trigger] t[i]).0)
                && t[i].0.len() <= u64::MAX by {
                assert(t[i] == s[i]);
            }
        }
        lemma_items_len(t);
        assert(s.last() == s[s.len() - 1]);
    }
}

/// Where some entries cannot be read, more cannot be read either.
proof fn lemma_items_stay_unread(bytes: Seq<u8>, pos: int, i: nat, n: nat)
    requires
        i <= n,
        parse_items(bytes, pos, i) is None,
    ensures
        parse_items(bytes, pos, n) is None,
    decreases n,
{
    if i < n {
        lemma_items_stay_unread(bytes, pos, i, (n - 1) as nat);
    }
}

/// An entry is read back from its bytes, wherever they stand.
pub proof fn lemma_parse_item(bytes: Seq<u8>, pos: int, e: (Seq<u8>, EntryView))
    requires
        0 <= pos,
        valid_utf8(e.0),
        e.0.len() <= u64::MAX,
        pos + item_size(e) <= bytes.len(),
        bytes.subrange(pos, pos + item_size(e)) == item_bytes(e),
    ensures
        parse_item(bytes, pos) == Some((e, pos + item_size(e))),
{
    let n = e.0.len() as int;
    let one = item_bytes(e);
    let window = bytes.subrange(pos, pos + item_size(e));
    lemma_be64_round_trip(n as u64);
    lemma_be64_round_trip(e.1.0);
    lemma_be64_round_trip(e.1.1.len);
    lemma_be64_round_trip(e.1.1.mode);
    lemma_be64_round_trip(e.1.1.mtime.secs);
    lemma_be32_round_trip(e.1.1.mtime.nanos);
    assert(bytes.subrange(pos, pos + 8) =~= be64(n as u64)) by {
        assert(bytes.subrange(pos, pos + 8) =~= window.subrange(0, 8));
        assert(one.subrange(0, 8) =~= be64(n as u64));
    }
    let p = pos + 8 + n;
    assert(bytes.subrange(pos + 8, p) =~= e.0) by {
        assert(bytes.subrange(pos + 8, p) =~= window.subrange(8, 8 + n));
        assert(one.subrange(8, 8 + n) =~= e.0);
    }
    assert(bytes.subrange(p, p + 8) =~= be64(e.1.0)) by {
        assert(bytes.subrange(p, p + 8) =~= window.subrange(8 + n, 16 + n));
        assert(one.subrange(8 + n, 16 + n) =~= be64(e.1.0));
    }
    assert(bytes.subrange(p + 8, p + 16) =~= be64(e.1.1.len)) by {
        assert(bytes.subrange(p + 8, p + 16) =~= window.subrange(16 + n, 24 + n));
        assert(one.subrange(16 + n, 24 + n) =~= be64(e.1.1.len));
    }
    assert(bytes.subrange(p + 16, p + 24) =~= be64(e.1.1.mode)) by {
        assert(bytes.subrange(p + 16, p + 24) =~= window.subrange(24 + n, 32 + n));
        assert(one.subrange(24 + n, 32 + n) =~= be64(e.1.1.mode));
    }
    assert(bytes.subrange(p + 24, p + 32) =~= be64(e.1.1.mtime.secs)) by {
        assert(bytes.subrange(p + 24, p + 32) =~= window.subrange(32 + n, 40 + n));
        assert(one.subrange(32 + n, 40 + n) =~= be64(e.1.1.mtime.secs));
    }
    assert(bytes.subrange(p + 32, p + 36) =~= be32(e.1.1.mtime.nanos)) by {
        assert(bytes.subrange(p + 32, p + 36) =~= window.subrange(40 + n, 44 + n));
        assert(one.subrange(40 + n, 44 + n) =~= be32(e.1.1.mtime.nanos));
    }
}

/// Entries are read back from their bytes, wherever they stand.
pub proof fn lemma_parse_items(bytes: Seq<u8>, pos: int, s: TreeSeq)
    requires
        0 <= pos,
        names_valid(s),
        pos + items_size(s) <= bytes.len(),
        bytes.subrange(pos, pos + items_size(s)) == items_bytes(s),
    ensures
        parse_items(bytes, pos, s.len()) == Some((s, pos + items_size(s))),
    decreases s.len(),
{
    lemma_items_len(s);
    if s.len() > 0 {
        let t = s.drop_last();
        let e = s.last();
        assert(e == s[s.len() - 1]);
        assert(names_valid(t)) by {
            assert forall|i: int| 0 <= i < t.len() implies valid_utf8((#[trigger] t[i]).0)
                && t[i].0.len() <= u64::MAX by {
                assert(t[i] == s[i]);
            }
        }
        lemma_items_len(t);
        let a: int = items_size(t);
        let whole = items_bytes(s);
        let window = bytes.subrange(pos, pos + items_size(s));
        assert(bytes.subrange(pos, pos + a) =~= items_bytes(t)) by {
            assert(bytes.subrange(pos, pos + a) =~= window.subrange(0, a));
            assert(whole.subrange(0, a) =~= items_bytes(t));
        }
        lemma_parse_items(bytes, pos, t);
        assert(bytes.subrange(pos + a, pos + a + item_size(e)) =~= item_bytes(e)) by {
            assert(bytes.subrange(pos + a, pos + a + item_size(e)) =~= window.subrange(
                a,
                a + item_size(e),
            ));
            assert(whole.subrange(a, a + item_size(e)) =~= item_bytes(e));
        }
        lemma_parse_item(bytes, pos + a, e);
        assert(t.push(e) =~= s);
    }
}

/// A directory is read back from its bytes.
pub proof fn lemma_parse_tree(s: TreeSeq)
    requires
        names_valid(s),
        s.len() <= u64::MAX,
    ensures
        parse_tree(tree_bytes(s)) == Some(s),
{
    lemma_items_len(s);
    lemma_be64_round_trip(s.len() as u64);
    let bytes = tree_bytes(s);
    assert(bytes.subrange(0, 8) =~= be64(s.len() as u64));
    assert(bytes.subrange(8, 8 + items_size(s)) =~= items_bytes(s));
    lemma_parse_items(bytes, 8, s);
}

impl Tree {
    /// The entries in name order, as the contracts see them.
    pub open spec fn view(&self) -> TreeSeq {
        Seq::new(self.items@.len(), |i: int| self.items@[i]@)
    }

    /// The entries by name.
    pub open spec fn entries(&self) -> TreeView {
        name_map(self@)
    }

    /// The names increase strictly, and each is UTF-8.
    pub open spec fn wf(&self) -> bool {
        names_sorted(self@) && names_valid(self@)
    }

    /// A directory without entries in block `index`.
    pub fn new(index: u64) -> (tree: Tree)
        ensures
            tree.wf(),
            tree.index == index,
            tree@ == TreeSeq::empty(),
            tree.entries() == TreeView::empty(),
    {
        let tree = Tree { items: Vec::new(), index };
        assert(tree@ =~= TreeSeq::empty());
        assert(tree.entries() =~= TreeView::empty());
        tree
    }

    /// The number of entries.
    pub fn len(&self) -> (n: usize)
        ensures
            n == self@.len(),
    {
        self.items.len()
    }

    /// Whether there is no entry.
    pub fn is_empty(&self) -> (b: bool)
        requires
            self.wf(),
        ensures
            b == (self@.len() == 0),
            b == (self.entries() == TreeView::empty()),
    {
        proof {
            if self@.len() > 0 {
                lemma_named_entry(self@, 0);
            } else {
                assert(self.entries() =~= TreeView::empty());
            }
        }
        self.items.len() == 0
    }

    /// The first position whose name is not before `name`, and whether it
    /// holds `name`.
    fn locate(&self, name: &[u8]) -> (r: (usize, bool))
        requires
            self.wf(),
        ensures
            r.0 <= self@.len(),
            forall|i: int| 0 <= i < r.0 ==> lex_less((#[trigger] self@[i]).0, name@),
            r.1 ==> r.0 < self@.len() && self@[r.0 as int].0 == name@,
            !r.1 ==> forall|i: int| r.0 <= i < self@.len() ==> lex_less(name@, (#[trigger] self@[i]).0),
            r.1 == self.entries().contains_key(name@),
    {
        let n = self.items.len();
        let mut i: usize = 0;
        while i < n
            invariant
                i <= n,
                n == self@.len(),
                self.wf(),
                forall|k: int| 0 <= k < i ==> lex_less((#[trigger] self@[k]).0, name@),
            decreases n - i,
        {
            match lex_rank(self.items[i].name.as_slice(), name) {
                Rank::Before => {},
                Rank::Same => {
                    proof {
                        assert(named_at(self@, name@, i as int));
                    }
                    return (i, true);
                },
                Rank::After => {
                    proof {
                        assert forall|k: int| i <= k < self@.len() implies lex_less(
                            name@,
                            (#[trigger] self@[k]).0,
                        ) by {
                            if k > i {
                                assert(lex_less(self@[i as int].0, self@[k].0));
                                lemma_lex_transitive(name@, self@[i as int].0, self@[k].0);
                            }
                        }
                        self.lemma_absent(name@, i as int);
                    }
                    return (i, false);
                },
            }
            i = i + 1;
        }
        proof {
            self.lemma_absent(name@, n as int);
        }
        (n, false)
    }

    /// A name that stands between two neighbours is not in the directory.
    proof fn lemma_absent(&self, name: Seq<u8>, p: int)
        requires
            self.wf(),
            0 <= p <= self@.len(),
            forall|i: int| 0 <= i < p ==> lex_less((#[trigger] self@[i]).0, name),
            forall|i: int| p <= i < self@.len() ==> lex_less(name, (#[trigger] self@[i]).0),
        ensures
            !self.entries().contains_key(name),
    {
        if self.entries().contains_key(name) {
            let j = choose|j: int| named_at(self@, name, j);
            crate::names::lemma_lex_irreflexive(name);
            if j < p {
                assert(lex_less(self@[j].0, name));
            } else {
                assert(lex_less(name, self@[j].0));
            }
        }
    }

    /// The entry of `name`; a missing name is not found.
    pub fn find(&self, name: &[u8]) -> (r: Result<(u64, Meta), KvError>)
        requires
            self.wf(),
        ensures
            self.entries().contains_key(name@) ==> r == Ok::<(u64, Meta), KvError>(
                self.entries()[name@],
            ),
            !self.entries().contains_key(name@) ==> fails_with(r, KvError::NotFound),
    {
        let (p, found) = self.locate(name);
        if found {
            proof {
                lemma_named_entry(self@, p as int);
            }
            Ok((self.items[p].index, self.items[p].meta))
        } else {
            Err(KvError::NotFound)
        }
    }

    /// Whether there is an entry of `name`.
    pub fn has(&self, name: &[u8]) -> (b: bool)
        requires
            self.wf(),
        ensures
            b == self.entries().contains_key(name@),
    {
        self.locate(name).1
    }

    /// Sets the entry of `name`, which must be UTF-8.
    pub fn insert(&mut self, name: &[u8], index: u64, meta: Meta)
        requires
            old(self).wf(),
            valid_utf8(name@),
        ensures
            final(self).wf(),
            final(self).index == old(self).index,
            final(self).entries() == old(self).entries().insert(name@, (index, meta)),
    {
        let (p, found) = self.locate(name);
        let ghost s = self@;
        let item = TreeItem { name: copy_bytes(name), index, meta };
        if found {
            self.items.push(item);
            self.items.swap_remove(p);
            proof {
                let t = self@;
                assert(t =~= s.update(p as int, (name@, (index, meta))));
                assert(names_sorted(t)) by {
                    assert forall|i: int, j: int| 0 <= i < j < t.len() implies lex_less(
                        (#[trigger] t[i]).0,
                        (#[trigger] t[j]).0,
                    ) by {
                        assert(lex_less(s[i].0, s[j].0));
                    }
                }
                assert(names_valid(t)) by {
                    assert forall|i: int| 0 <= i < t.len() implies valid_utf8((#[trigger] t[i]).0)
                        && t[i].0.len() <= u64::MAX by {
                        assert(s[i].0 == t[i].0);
                    }
                }
                lemma_named_put(s, t, name@, (index, meta), p as int);
            }
        } else {
            self.items.insert(p, item);
            proof {
                let t = self@;
                assert(t =~= s.insert(p as int, (name@, (index, meta))));
                assert(names_sorted(t)) by {
                    assert forall|i: int, j: int| 0 <= i < j < t.len() implies lex_less(
                        (#[trigger] t[i]).0,
                        (#[trigger] t[j]).0,
                    ) by {
                        let a = if i < p { i } else { i - 1 };
                        let b = if j < p { j } else { j - 1 };
                        if i == p {
                            assert(lex_less(name@, s[b].0));
                        } else if j == p {
                            assert(lex_less(s[a].0, name@));
                        } else {
                            assert(lex_less(s[a].0, s[b].0));
                        }
                    }
                }
                assert(names_valid(t)) by {
                    assert forall|i: int| 0 <= i < t.len() implies valid_utf8((#[trigger] t[i]).0)
                        && t[i].0.len() <= u64::MAX by {
                        if i < p {
                            assert(s[i].0 == t[i].0);
                        } else if i > p {
                            assert(s[i - 1].0 == t[i].0);
                        } else {
                            assert(name.len() <= usize::MAX);
                        }
                    }
                }
                lemma_named_put(s, t, name@, (index, meta), p as int);
            }
        }
    }

    /// Removes the entry of `name`, if there is one.
    pub fn remove(&mut self, name: &[u8])
        requires
            old(self).wf(),
        ensures
            final(self).wf(),
            final(self).index == old(self).index,
            final(self).entries() == old(self).entries().remove(name@),
    {
        let (p, found) = self.locate(name);
        let ghost s = self@;
        if found {
            self.items.remove(p);
            proof {
                let t = self@;
                assert(t =~= s.remove(p as int));
                lemma_named_take(s, p as int);
                assert(names_valid(t)) by {
                    assert forall|i: int| 0 <= i < t.len() implies valid_utf8((#[trigger] t[i]).0)
                        && t[i].0.len() <= u64::MAX by {
                        let a = if i < p { i } else { i + 1 };
                        assert(s[a].0 == t[i].0);
                    }
                }
            }
        } else {
            assert(self.entries().remove(name@) =~= self.entries());
        }
    }

    /// The bytes of the directory.
    pub fn encode(&self) -> (out: Vec<u8>)
        ensures
            out@ == tree_bytes(self@),
    {
        let mut buf: Vec<u8> = Vec::new();
        put_be64(&mut buf, self.items.len() as u64);
        let ghost head = buf@;
        let n = self.items.len();
        let mut i: usize = 0;
        proof {
            assert(self@.take(0) =~= TreeSeq::empty());
            assert(buf@ =~= head + items_bytes(self@.take(0)));
        }
        while i < n
            invariant
                i <= n,
                n == self@.len(),
                n == self.items@.len(),
                buf@ == head + items_bytes(self@.take(i as int)),
            decreases n - i,
        {
            let item = &self.items[i];
            put_be64(&mut buf, item.name.len() as u64);
            put_range(&mut buf, item.name.as_slice(), 0, item.name.len());
            put_be64(&mut buf, item.index);
            put_be64(&mut buf, item.meta.len);
            put_be64(&mut buf, item.meta.mode);
            put_be64(&mut buf, item.meta.mtime.secs);
            put_be32(&mut buf, item.meta.mtime.nanos);
            proof {
                let t = self@.take(i + 1);
                assert(t.drop_last() =~= self@.take(i as int));
                assert(t.last() == self@[i as int]);
                assert(item.name@.subrange(0, item.name@.len() as int) =~= item.name@);
                assert(buf@ =~= head + items_bytes(t));
            }
            i = i + 1;
        }
        assert(self@.take(n as int) =~= self@);
        buf
    }

    /// Reads the directory in block `index` from its bytes; what follows
    /// the entries is ignored. Where a name occurs twice, the later entry
    /// stands. Bytes that are no directory are invalid data.
    pub fn decode(bytes: &[u8], index: u64) -> (r: Result<Tree, KvError>)
        ensures
            match parse_tree(bytes@) {
                Some(s) => r is Ok && r->Ok_0.wf() && r->Ok_0.index == index && r->Ok_0.entries()
                    == gathered(s) && (names_sorted(s) ==> r->Ok_0@ == s),
                None => fails_with(r, KvError::InvalidData),
            },
    {
        if bytes.len() < 8 {
            return Err(KvError::InvalidData);
        }
        let n = get_be64(bytes, 0);
        let mut tree = Tree::new(index);
        let mut p: usize = 8;
        let mut i: u64 = 0;
        let ghost mut acc: TreeSeq = Seq::empty();
        while i < n
            invariant
                i <= n,
                8 <= p <= bytes@.len(),
                n == from_be64(bytes@.subrange(0, 8)),
                tree.wf(),
                tree.index == index,
                tree.entries() == gathered(acc),
                names_valid(acc),
                parse_items(bytes@, 8, i as nat) == Some((acc, p as int)),
            decreases n - i,
        {
            if bytes.len() - p < 8 {
                proof {
                    assert(parse_items(bytes@, 8, (i + 1) as nat) is None);
                    lemma_items_stay_unread(bytes@, 8, (i + 1) as nat, n as nat);
                }
                return Err(KvError::InvalidData);
            }
            let len = get_be64(bytes, p);
            if bytes.len() - p < 44 || len > (bytes.len() - p - 44) as u64 {
                proof {
                    assert(parse_items(bytes@, 8, (i + 1) as nat) is None);
                    lemma_items_stay_unread(bytes@, 8, (i + 1) as nat, n as nat);
                }
                return Err(KvError::InvalidData);
            }
            let q: usize = p + 8 + len as usize;
            let name = copy_range(bytes, p + 8, q);
            if !is_utf8(name.as_slice()) {
                proof {
                    assert(parse_items(bytes@, 8, (i + 1) as nat) is None);
                    lemma_items_stay_unread(bytes@, 8, (i + 1) as nat, n as nat);
                }
                return Err(KvError::InvalidData);
            }
            let at = get_be64(bytes, q);
            let meta = Meta {
                len: get_be64(bytes, q + 8),
                mode: get_be64(bytes, q + 16),
                mtime: Timestamp { secs: get_be64(bytes, q + 24), nanos: get_be32(bytes, q + 32) },
            };
            tree.insert(name.as_slice(), at, meta);
            proof {
                let e = (name@, (at, meta));
                let grown = acc.push(e);
                assert(grown.drop_last() =~= acc);
                assert(names_valid(grown)) by {
                    assert forall|k: int| 0 <= k < grown.len() implies valid_utf8(
                        (#[trigger] grown[k]).0,
                    ) && grown[k].0.len() <= u64::MAX by {
                        if k < acc.len() {
                            assert(grown[k] == acc[k]);
                        }
                    }
                }
                acc = grown;
            }
            p = q + 36;
            i = i + 1;
        }
        proof {
            if names_sorted(acc) {
                lemma_gathered_sorted(acc);
                lemma_same_names_same_list(tree@, acc);
            }
        }
        Ok(tree)
    }
}

} // verus!
