//! Pages in memory, and their conversion to and from bytes.
use crate::bytes::{copy_range, get_be64, put_be64, put_range};
use crate::error::{fails_with, KvError};
use crate::page_format::{
    chunks_bytes, chunks_size, ChunkSeq, ChunkView, data_page_bytes, data_page_size,
    lemma_chunks_size_insert, lemma_chunks_size_remove, lemma_chunks_size_take, meta_page_bytes,
    meta_page_size, padded, pairs_bytes, PairSeq, parse_chunks, parse_data_page, parse_meta_page,
    parse_pairs, parse_u64,
};
use crate::sorted_map::{
    collect, has_key, holds_at, lemma_collect_sorted, lemma_entry_in_map, lemma_same_map_same_seq,
    position_of, sorted, SortedMap, to_map,
};
use vstd::prelude::*;

verus! {

/// A part of a logical value, and where the value goes on.
pub struct Chunk {
    /// The data page that holds the next part (0: this is the last part).
    pub next_page_index: u64,
    /// The bytes of this part.
    pub data: Vec<u8>,
}

impl Chunk {
    /// The chunk as the contracts see it: its link and its bytes.
    pub open spec fn view(&self) -> ChunkView {
        (self.next_page_index, self.data@)
    }
}

/// An entry of a data page as the contracts see it.
pub open spec fn entry_view(e: (u64, Chunk)) -> (u64, ChunkView) {
    (e.0, e.1@)
}

/// A data page: the chunks it holds, by logical index.
pub struct DataPage {
    pub chunks: SortedMap<Chunk>,
}

/// A meta page: a link to the next one, and a part of the two index maps.
pub struct MetaPage {
    /// The page that holds the next meta page (0: this is the last one).
    pub next_page_index: u64,
    /// Logical index to first data page.
    pub map_index: SortedMap<u64>,
    /// Data page to the size of what it holds.
    pub data_size_indexes: SortedMap<u64>,
}

/// The integer at `pos`, if eight bytes are there.
pub fn read_u64(bytes: &[u8], pos: usize) -> (r: Option<u64>)
    ensures
        r == parse_u64(bytes@, pos as int),
{
    if pos <= bytes.len() && bytes.len() - pos >= 8 {
        Some(get_be64(bytes, pos))
    } else {
        None
    }
}

/// Where some index entries cannot be read, more cannot be read either.
proof fn lemma_pairs_stay_unread(bytes: Seq<u8>, pos: int, i: nat, n: nat)
    requires
        i <= n,
        parse_pairs(bytes, pos, i) is None,
    ensures
        parse_pairs(bytes, pos, n) is None,
    decreases n,
{
    if i < n {
        lemma_pairs_stay_unread(bytes, pos, i, (n - 1) as nat);
    }
}

/// Where some chunks cannot be read, more cannot be read either.
proof fn lemma_chunks_stay_unread(bytes: Seq<u8>, pos: int, i: nat, n: nat)
    requires
        i <= n,
        parse_chunks(bytes, pos, i) is None,
    ensures
        parse_chunks(bytes, pos, n) is None,
    decreases n,
{
    if i < n {
        lemma_chunks_stay_unread(bytes, pos, i, (n - 1) as nat);
    }
}

/// Appends the entries of an index map to `buf`.
fn put_pairs(buf: &mut Vec<u8>, m: &SortedMap<u64>)
    ensures
        final(buf)@ == old(buf)@ + pairs_bytes(m@),
{
    let mut i: usize = 0;
    assert(m@.take(0) =~= Seq::<(u64, u64)>::empty());
    assert(buf@ =~= old(buf)@ + pairs_bytes(m@.take(0)));
    while i < m.len()
        invariant
            i <= m@.len(),
            buf@ == old(buf)@ + pairs_bytes(m@.take(i as int)),
        decreases m@.len() - i,
    {
        let ghost before = buf@;
        put_be64(buf, m.key_at(i));
        put_be64(buf, *m.value_at(i));
        proof {
            let t = m@.take(i + 1);
            assert(t.drop_last() =~= m@.take(i as int));
            assert(t.last() == m@[i as int]);
            assert(buf@ =~= old(buf)@ + pairs_bytes(t));
        }
        i = i + 1;
    }
    assert(m@.take(m@.len() as int) =~= m@);
}

/// Reads `n` index entries from `pos` on into a map. Later entries replace
/// earlier ones with the same key.
fn read_pairs(bytes: &[u8], pos: usize, n: u64) -> (r: Option<(SortedMap<u64>, usize)>)
    requires
        pos <= bytes@.len(),
    ensures
        match parse_pairs(bytes@, pos as int, n as nat) {
            Some((s, end)) => r is Some && ({
                let got = r.unwrap();
                got.0.wf() && got.0.map() == collect(s) && (sorted(s) ==> got.0@ == s) && got.1
                    == end
            }),
            None => r is None,
        },
{
    let mut m: SortedMap<u64> = SortedMap::new();
    let mut p: usize = pos;
    let mut i: u64 = 0;
    let ghost mut acc: PairSeq = Seq::empty();
    while i < n
        invariant
            i <= n,
            p <= bytes@.len(),
            m.wf(),
            m.map() == collect(acc),
            parse_pairs(bytes@, pos as int, i as nat) == Some((acc, p as int)),
        decreases n - i,
    {
        if bytes.len() - p < 16 {
            proof {
                assert(parse_pairs(bytes@, pos as int, (i + 1) as nat) is None);
                lemma_pairs_stay_unread(bytes@, pos as int, (i + 1) as nat, n as nat);
            }
            return None;
        }
        let k = get_be64(bytes, p);
        let v = get_be64(bytes, p + 8);
        m.insert(k, v);
        proof {
            let next = acc.push((k, v));
            assert(next.drop_last() =~= acc);
            acc = next;
        }
        p = p + 16;
        i = i + 1;
    }
    proof {
        if sorted(acc) {
            lemma_collect_sorted(acc);
            lemma_same_map_same_seq(m@, acc);
        }
    }
    Some((m, p))
}

impl DataPage {
    /// The entries in key order, as the contracts see them.
    pub open spec fn view(&self) -> ChunkSeq {
        Seq::new(self.chunks@.len(), |i: int| entry_view(self.chunks@[i]))
    }

    /// The keys increase strictly.
    pub open spec fn wf(&self) -> bool {
        self.chunks.wf()
    }

    /// The chunks by logical index.
    pub open spec fn chunk_map(&self) -> Map<u64, ChunkView> {
        to_map(self@)
    }

    /// What the view of a page says of its chunks.
    pub proof fn lemma_view(&self)
        requires
            self.wf(),
        ensures
            sorted(self@),
            forall|k: u64| #[trigger]
                self.chunk_map().contains_key(k) == self.chunks.map().contains_key(k),
            forall|k: u64| #[trigger]
                self.chunk_map().contains_key(k) ==> self.chunk_map()[k] == self.chunks.map()[k]@
                    && position_of(self@, k) == position_of(self.chunks@, k),
    {
        let s = self.chunks@;
        let t = self@;
        assert(sorted(t)) by {
            assert forall|i: int, j: int| 0 <= i < j < t.len() implies (#[trigger] t[i]).0 < (
            #[trigger] t[j]).0 by {
                assert(s[i].0 < s[j].0);
            }
        }
        assert forall|k: u64| #[trigger]
            self.chunk_map().contains_key(k) == self.chunks.map().contains_key(k) by {
            if has_key(t, k) {
                let i = position_of(t, k);
                assert(holds_at(t, k, i));
                assert(holds_at(s, k, i));
            }
            if has_key(s, k) {
                let i = position_of(s, k);
                assert(holds_at(s, k, i));
                assert(holds_at(t, k, i));
            }
        }
        assert forall|k: u64| #[trigger] self.chunk_map().contains_key(k) implies self.chunk_map()[k]
            == self.chunks.map()[k]@ && position_of(self@, k) == position_of(self.chunks@, k) by {
            let i = position_of(t, k);
            assert(holds_at(t, k, i));
            assert(holds_at(s, k, i));
            lemma_entry_in_map(t, i);
            lemma_entry_in_map(s, i);
        }
    }

    /// A page without chunks.
    pub fn new() -> (page: Self)
        ensures
            page.wf(),
            page@ == ChunkSeq::empty(),
            data_page_size(page@) == 8,
    {
        let page = DataPage { chunks: SortedMap::new() };
        assert(page@ =~= ChunkSeq::empty());
        page
    }

    /// The number of chunks.
    pub fn len(&self) -> (n: usize)
        ensures
            n == self@.len(),
    {
        self.chunks.len()
    }

    /// Whether the page holds no chunk.
    pub fn is_empty(&self) -> (b: bool)
        ensures
            b == (self@.len() == 0),
    {
        self.chunks.len() == 0
    }

    /// The logical index of the chunk at position `i`.
    pub fn key_at(&self, i: usize) -> (k: u64)
        requires
            i < self@.len(),
        ensures
            k == self@[i as int].0,
    {
        self.chunks.key_at(i)
    }

    /// The chunk at position `i`.
    pub fn chunk_at(&self, i: usize) -> (c: &Chunk)
        requires
            i < self@.len(),
        ensures
            c@ == self@[i as int].1,
    {
        self.chunks.value_at(i)
    }

    /// The chunk of `key`, if the page has one.
    pub fn get(&self, key: u64) -> (r: Option<&Chunk>)
        requires
            self.wf(),
        ensures
            r is Some <==> self.chunk_map().contains_key(key),
            r is Some ==> r->0@ == self.chunk_map()[key],
    {
        proof {
            self.lemma_view();
        }
        self.chunks.get(key)
    }

    /// Takes the chunk of `key` out of the page, if it has one.
    pub fn take(&mut self, key: u64) -> (r: Option<Chunk>)
        requires
            old(self).wf(),
        ensures
            final(self).wf(),
            final(self).chunk_map() == old(self).chunk_map().remove(key),
            r is Some <==> old(self).chunk_map().contains_key(key),
            r is Some ==> r->0@ == old(self).chunk_map()[key],
            r is Some ==> data_page_size(final(self)@) == data_page_size(old(self)@) - 24 - r->0@.1.len(),
            r is None ==> final(self)@ == old(self)@,
    {
        proof {
            self.lemma_view();
        }
        let r = self.chunks.remove(key);
        proof {
            self.lemma_view();
            assert(self.chunk_map() =~= old(self).chunk_map().remove(key)) by {
                assert forall|k: u64|
                    self.chunk_map().contains_key(k) implies #[trigger] self.chunk_map()[k] == old(
                    self,
                ).chunk_map().remove(key)[k] by {
                    assert(self.chunks.map().contains_key(k));
                    assert(old(self).chunks.map().contains_key(k));
                    assert(old(self).chunk_map().contains_key(k));
                }
            }
            if r is Some {
                assert(old(self).chunks.map().contains_key(key));
                assert(old(self).chunk_map().contains_key(key));
                let p = position_of(old(self).chunks@, key);
                assert(self@ =~= old(self)@.remove(p));
                lemma_chunks_size_remove(old(self)@, p);
                lemma_entry_in_map(old(self).chunks@, p);
            } else {
                assert(self@ =~= old(self)@);
            }
        }
        r
    }

    /// Puts a chunk for `key` into a page that has none for it.
    pub fn put(&mut self, key: u64, chunk: Chunk)
        requires
            old(self).wf(),
            !old(self).chunk_map().contains_key(key),
        ensures
            final(self).wf(),
            final(self).chunk_map() == old(self).chunk_map().insert(key, chunk@),
            data_page_size(final(self)@) == data_page_size(old(self)@) + 24 + chunk@.1.len(),
    {
        proof {
            self.lemma_view();
        }
        let ghost c = chunk@;
        let ghost whole = chunk;
        let r = self.chunks.insert(key, chunk);
        proof {
            self.lemma_view();
            assert(r is None);
            assert(self.chunk_map() =~= old(self).chunk_map().insert(key, c)) by {
                assert forall|k: u64|
                    self.chunk_map().contains_key(k) implies #[trigger] self.chunk_map()[k] == old(
                    self,
                ).chunk_map().insert(key, c)[k] by {
                    assert(self.chunks.map().contains_key(k));
                    if k != key {
                        assert(old(self).chunks.map().contains_key(k));
                        assert(old(self).chunk_map().contains_key(k));
                    }
                }
            }
            let p = choose|p: int|
                0 <= p <= old(self).chunks@.len() && #[trigger] self.chunks@ == old(
                    self,
                ).chunks@.insert(p, (key, whole));
            assert(self@ =~= old(self)@.insert(p, (key, c)));
            lemma_chunks_size_insert(old(self)@, p, (key, c));
        }
    }

    /// How many bytes the page takes before padding (`u64::MAX` if more than that).
    pub fn size(&self) -> (n: u64)
        ensures
            data_page_size(self@) <= u64::MAX ==> n == data_page_size(self@),
            data_page_size(self@) > u64::MAX ==> n == u64::MAX,
    {
        let mut n: u64 = 8;
        let mut i: usize = 0;
        proof {
            lemma_chunks_size_take(self@, 0);
            assert(self@.take(0) =~= ChunkSeq::empty());
        }
        while i < self.chunks.len()
            invariant
                i <= self@.len(),
                self@.len() == self.chunks@.len(),
                8 + chunks_size(self@.take(i as int)) <= u64::MAX ==> n == 8 + chunks_size(
                    self@.take(i as int),
                ),
                8 + chunks_size(self@.take(i as int)) > u64::MAX ==> n == u64::MAX,
            decreases self@.len() - i,
        {
            let len = self.chunks.value_at(i).data.len() as u64;
            proof {
                lemma_chunks_size_take(self@, i as int);
                lemma_chunks_size_take(self@, i + 1);
            }
            if len > u64::MAX - 24 || n > u64::MAX - 24 - len {
                n = u64::MAX;
            } else {
                n = n + 24 + len;
            }
            i = i + 1;
        }
        proof {
            assert(self@.take(self@.len() as int) =~= self@);
        }
        n
    }

    /// Whether the page takes `expected` bytes before padding.
    pub fn has_size(&self, expected: u64) -> (b: bool)
        ensures
            b == (data_page_size(self@) == expected),
    {
        let mut n: u64 = 8;
        let mut i: usize = 0;
        proof {
            lemma_chunks_size_take(self@, 0);
            assert(self@.take(0) =~= ChunkSeq::empty());
        }
        while i < self.chunks.len()
            invariant
                i <= self@.len(),
                self@.len() == self.chunks@.len(),
                n == 8 + chunks_size(self@.take(i as int)),
            decreases self@.len() - i,
        {
            let len = self.chunks.value_at(i).data.len() as u64;
            proof {
                lemma_chunks_size_take(self@, i as int);
                lemma_chunks_size_take(self@, i + 1);
                lemma_chunks_size_take(self@, self@.len() as int);
                assert(self@.take(self@.len() as int) =~= self@);
                lemma_size_grows(self@, i + 1);
            }
            if len > u64::MAX - 24 || n > u64::MAX - 24 - len {
                return false;
            }
            n = n + 24 + len;
            i = i + 1;
        }
        proof {
            assert(self@.take(self@.len() as int) =~= self@);
        }
        n == expected
    }

    /// The bytes of the page, padded with zeros to `page_size` bytes.
    pub fn encode(&self, page_size: usize) -> (out: Vec<u8>)
        ensures
            data_page_size(self@) <= page_size ==> out@ == padded(
                data_page_bytes(self@),
                page_size as int,
            ),
            data_page_size(self@) > page_size ==> out@ == data_page_bytes(self@),
    {
        let mut buf: Vec<u8> = Vec::new();
        put_be64(&mut buf, self.chunks.len() as u64);
        let ghost head = buf@;
        let mut i: usize = 0;
        proof {
            assert(self@.take(0) =~= ChunkSeq::empty());
            assert(buf@ =~= head + chunks_bytes(self@.take(0)));
        }
        while i < self.chunks.len()
            invariant
                i <= self@.len(),
                self@.len() == self.chunks@.len(),
                buf@ == head + chunks_bytes(self@.take(i as int)),
            decreases self@.len() - i,
        {
            let c = self.chunks.value_at(i);
            put_be64(&mut buf, self.chunks.key_at(i));
            put_be64(&mut buf, c.next_page_index);
            put_be64(&mut buf, c.data.len() as u64);
            put_range(&mut buf, c.data.as_slice(), 0, c.data.len());
            proof {
                let t = self@.take(i + 1);
                assert(t.drop_last() =~= self@.take(i as int));
                assert(t.last() == self@[i as int]);
                assert(c.data@.subrange(0, c.data@.len() as int) =~= c.data@);
                assert(buf@ =~= head + chunks_bytes(t));
            }
            i = i + 1;
        }
        proof {
            assert(self@.take(self@.len() as int) =~= self@);
            assert forall|j: int| 0 <= j < self@.len() implies (#[trigger] self@[j]).1.1.len()
                <= u64::MAX by {
                assert(self@[j].1.1 == self.chunks@[j].1.data@);
                assert(self.chunks@[j].1.data.len() <= usize::MAX);
            }
            crate::page_format::lemma_chunks_len(self@);
            assert(buf@ =~= data_page_bytes(self@));
            assert(buf@.len() == data_page_size(self@));
        }
        if buf.len() < page_size {
            let ghost raw = buf@;
            buf.resize(page_size, 0u8);
            assert(buf@ =~= padded(raw, page_size as int));
        } else {
            assert(buf@ =~= padded(buf@, buf@.len() as int));
        }
        buf
    }

    /// Reads a page from its bytes; what follows the entries is ignored.
    /// Where a key occurs twice, the later entry stands.
    pub fn decode(bytes: &[u8]) -> (r: Result<DataPage, KvError>)
        ensures
            match parse_data_page(bytes@) {
                Some(s) => r is Ok && r->Ok_0.wf() && r->Ok_0.chunk_map() == collect(s) && (sorted(
                    s,
                ) ==> r->Ok_0@ == s),
                None => fails_with(r, KvError::InvalidData),
            },
    {
        match DataPage::decode_checked(bytes) {
            Ok(found) => Ok(found.0),
            Err(e) => Err(e),
        }
    }

    /// Reads a page from its bytes, and says whether the entries stand in
    /// the bytes in strictly increasing order of their keys.
    pub fn decode_checked(bytes: &[u8]) -> (r: Result<(DataPage, bool), KvError>)
        ensures
            match parse_data_page(bytes@) {
                Some(s) => r is Ok && ({
                    let found = r->Ok_0;
                    &&& found.0.wf()
                    &&& found.0.chunk_map() == collect(s)
                    &&& found.1 == sorted(s)
                    &&& sorted(s) ==> found.0@ == s
                }),
                None => fails_with(r, KvError::InvalidData),
            },
    {
        let n = match read_u64(bytes, 0) {
            Some(n) => n,
            None => {
                return Err(KvError::InvalidData);
            },
        };
        let mut page = DataPage::new();
        let mut p: usize = 8;
        let mut i: u64 = 0;
        let mut ordered = true;
        let mut last_key: u64 = 0;
        let ghost mut acc: ChunkSeq = Seq::empty();
        assert(page.chunk_map() =~= collect(acc));
        while i < n
            invariant
                i <= n,
                8 <= p <= bytes@.len(),
                page.wf(),
                page.chunk_map() == collect(acc),
                parse_u64(bytes@, 0) == Some(n),
                parse_chunks(bytes@, 8, i as nat) == Some((acc, p as int)),
                acc.len() == i,
                ordered == sorted(acc),
                i > 0 ==> last_key == acc[i - 1].0,
            decreases n - i,
        {
            if bytes.len() - p < 24 {
                proof {
                    assert(parse_chunks(bytes@, 8, (i + 1) as nat) is None);
                    lemma_chunks_stay_unread(bytes@, 8, (i + 1) as nat, n as nat);
                }
                return Err(KvError::InvalidData);
            }
            let key = get_be64(bytes, p);
            let next = get_be64(bytes, p + 8);
            let len = get_be64(bytes, p + 16);
            if len > (bytes.len() - p - 24) as u64 {
                proof {
                    assert(parse_chunks(bytes@, 8, (i + 1) as nat) is None);
                    lemma_chunks_stay_unread(bytes@, 8, (i + 1) as nat, n as nat);
                }
                return Err(KvError::InvalidData);
            }
            let end: usize = p + 24 + len as usize;
            let data = copy_range(bytes, p + 24, end);
            let chunk = Chunk { next_page_index: next, data };
            let ghost e = (key, chunk@);
            page.take(key);
            page.put(key, chunk);
            let grows = i == 0 || last_key < key;
            proof {
                let grown = acc.push(e);
                assert(grown.drop_last() =~= acc);
                assert(page.chunk_map() =~= collect(acc).insert(key, e.1));
                assert((ordered && grows) == sorted(grown)) by {
                    if ordered && grows {
                        assert forall|a: int, b: int| 0 <= a < b < grown.len() implies (
                        #[trigger] grown[a]).0 < (#[trigger] grown[b]).0 by {
                            if b < acc.len() {
                                assert(acc[a].0 < acc[b].0);
                            } else if a < acc.len() - 1 {
                                assert(acc[a].0 < acc[acc.len() - 1].0);
                            }
                        }
                    }
                    if sorted(grown) {
                        assert forall|a: int, b: int| 0 <= a < b < acc.len() implies (
                        #[trigger] acc[a]).0 < (#[trigger] acc[b]).0 by {
                            assert(grown[a].0 < grown[b].0);
                        }
                        if i > 0 {
                            assert(grown[i - 1].0 < grown[i as int].0);
                        }
                    }
                }
                acc = grown;
            }
            ordered = ordered && grows;
            last_key = key;
            p = end;
            i = i + 1;
        }
        proof {
            if sorted(acc) {
                lemma_collect_sorted(acc);
                page.lemma_view();
                lemma_same_map_same_seq(page@, acc);
            }
        }
        Ok((page, ordered))
    }
}

/// The first entries of a page take no more than all of them.
pub proof fn lemma_size_grows(s: ChunkSeq, i: int)
    requires
        0 <= i <= s.len(),
    ensures
        chunks_size(s.take(i)) <= chunks_size(s),
    decreases s.len() - i,
{
    if i < s.len() {
        lemma_size_grows(s, i + 1);
        lemma_chunks_size_take(s, i);
    } else {
        assert(s.take(i) =~= s);
    }
}

impl MetaPage {
    /// The keys of both maps increase strictly.
    pub open spec fn wf(&self) -> bool {
        self.map_index.wf() && self.data_size_indexes.wf()
    }

    /// A meta page without entries.
    pub fn new() -> (page: Self)
        ensures
            page.wf(),
            page.next_page_index == 0,
            page.map_index@ == PairSeq::empty(),
            page.data_size_indexes@ == PairSeq::empty(),
    {
        MetaPage {
            next_page_index: 0,
            map_index: SortedMap::new(),
            data_size_indexes: SortedMap::new(),
        }
    }

    /// The number of entries in both maps.
    pub fn count(&self) -> (n: usize)
        requires
            self.map_index@.len() + self.data_size_indexes@.len() <= usize::MAX,
        ensures
            n == self.map_index@.len() + self.data_size_indexes@.len(),
    {
        self.map_index.len() + self.data_size_indexes.len()
    }

    /// The bytes of the page with `next` as its link, padded with zeros to
    /// `page_size` bytes.
    pub fn encode(&self, next: u64, page_size: usize) -> (out: Vec<u8>)
        ensures
            meta_page_size(self.map_index@, self.data_size_indexes@) <= page_size ==> out@
                == padded(
                meta_page_bytes(next, self.map_index@, self.data_size_indexes@),
                page_size as int,
            ) && out@.len() == page_size,
    {
        let mut buf: Vec<u8> = Vec::new();
        put_be64(&mut buf, next);
        put_be64(&mut buf, self.map_index.len() as u64);
        put_pairs(&mut buf, &self.map_index);
        put_be64(&mut buf, self.data_size_indexes.len() as u64);
        put_pairs(&mut buf, &self.data_size_indexes);
        assert(buf@ =~= meta_page_bytes(next, self.map_index@, self.data_size_indexes@));
        proof {
            crate::page_format::lemma_pairs_len(self.map_index@);
            crate::page_format::lemma_pairs_len(self.data_size_indexes@);
        }
        if buf.len() < page_size {
            let ghost raw = buf@;
            buf.resize(page_size, 0u8);
            assert(buf@ =~= padded(raw, page_size as int));
        } else {
            assert(buf@ =~= padded(buf@, buf@.len() as int));
        }
        buf
    }

    /// Reads a meta page from its bytes; what follows the entries is ignored.
    /// Where a key occurs twice in a map, the later entry stands.
    pub fn decode(bytes: &[u8]) -> (r: Result<MetaPage, KvError>)
        ensures
            match parse_meta_page(bytes@) {
                Some((next, index, sizes)) => {
                    &&& r is Ok
                    &&& r->Ok_0.wf()
                    &&& r->Ok_0.next_page_index == next
                    &&& r->Ok_0.map_index.map() == collect(index)
                    &&& r->Ok_0.data_size_indexes.map() == collect(sizes)
                    &&& sorted(index) ==> r->Ok_0.map_index@ == index
                    &&& sorted(sizes) ==> r->Ok_0.data_size_indexes@ == sizes
                },
                None => fails_with(r, KvError::InvalidData),
            },
    {
        let next = match read_u64(bytes, 0) {
            Some(n) => n,
            None => {
                return Err(KvError::InvalidData);
            },
        };
        let n = match read_u64(bytes, 8) {
            Some(n) => n,
            None => {
                return Err(KvError::InvalidData);
            },
        };
        let first = match read_pairs(bytes, 16, n) {
            Some(r) => r,
            None => {
                return Err(KvError::InvalidData);
            },
        };
        let p: usize = first.1;
        let m = match read_u64(bytes, p) {
            Some(m) => m,
            None => {
                return Err(KvError::InvalidData);
            },
        };
        let total: usize = bytes.len();
        assert(p + 8 <= total);
        let second = match read_pairs(bytes, p + 8, m) {
            Some(r) => r,
            None => {
                return Err(KvError::InvalidData);
            },
        };
        Ok(MetaPage { next_page_index: next, map_index: first.0, data_size_indexes: second.0 })
    }
}

} // verus!
