//! The store in a directory: one file per block, and a write-ahead log
//! that makes a flush of many blocks one change. This module decides; the
//! files themselves are read and written by the caller.
use crate::bytes::{
    from_le32, from_le64, get_le32, get_le64, le32, le64, lemma_le32_round_trip,
    lemma_le64_round_trip, put_le32, put_le64,
};
use crate::error::{fails_with, KvError};
use crate::sorted_map::{
    lemma_entry_in_map, lemma_key_has_position, position_of, sorted, SortedMap, to_map,
};
use vstd::prelude::*;
use vstd::string::*;

verus! {

/// What is pending for a block.
#[derive(Clone, Copy, Debug, PartialEq, Eq, Structural)]
pub enum State {
    /// Written since the last flush; the bytes are in the pending file.
    Modified,
    /// Removed since the last flush.
    Removed,
}

/// A step of a flush, or of its repetition after a crash.
#[derive(Debug, PartialEq, Eq)]
pub enum FileOp {
    /// Force the pending file of the block to stable storage.
    Sync(usize),
    /// Write the bytes to a temporary file, force it to stable storage,
    /// and give it the name of the log.
    PublishWal(Vec<u8>),
    /// Give the pending file of the block, if there is one, the name of
    /// the block; a file of that name is replaced.
    Commit(usize),
    /// Delete the file of the block, if there is one.
    Discard(usize),
    /// Delete the log, if there is one.
    RemoveWal,
}

impl FileOp {
    /// The step as the contracts see it.
    pub open spec fn view(&self) -> FileOpView {
        match *self {
            FileOp::Sync(i) => FileOpView::Sync(i),
            FileOp::PublishWal(b) => FileOpView::PublishWal(b@),
            FileOp::Commit(i) => FileOpView::Commit(i),
            FileOp::Discard(i) => FileOpView::Discard(i),
            FileOp::RemoveWal => FileOpView::RemoveWal,
        }
    }
}

/// A step of a flush as the contracts see it.
pub enum FileOpView {
    Sync(usize),
    PublishWal(Seq<u8>),
    Commit(usize),
    Discard(usize),
    RemoveWal,
}

/// A block store in a directory. Writes go to pending files and become
/// the blocks of the store at the next flush.
pub struct FsIntKv {
    /// The directory.
    pub dir: String,
    /// What is pending, by block.
    pub overlay: SortedMap<State>,
}

/// The decimal digit `d`.
pub open spec fn digit(d: int) -> char {
    if d == 0 {
        '0'
    } else if d == 1 {
        '1'
    } else if d == 2 {
        '2'
    } else if d == 3 {
        '3'
    } else if d == 4 {
        '4'
    } else if d == 5 {
        '5'
    } else if d == 6 {
        '6'
    } else if d == 7 {
        '7'
    } else if d == 8 {
        '8'
    } else {
        '9'
    }
}

/// The decimal form of `n`, without leading zeros.
pub open spec fn decimal(n: nat) -> Seq<char>
    decreases n,
{
    if n < 10 {
        seq![digit(n as int)]
    } else {
        decimal(n / 10).push(digit((n % 10) as int))
    }
}

/// The name of the file of block `index`: its decimal form, followed by
/// `p` for the pending file.
pub open spec fn file_name(index: usize, pending: bool) -> Seq<char> {
    if pending {
        decimal(index as nat).push('p')
    } else {
        decimal(index as nat)
    }
}

/// The decimal digit `d` as a string.
fn digit_str(d: usize) -> (s: &'static str)
    requires
        d < 10,
    ensures
        s@ == seq![digit(d as int)],
{
    proof {
        reveal_strlit("0");
        reveal_strlit("1");
        reveal_strlit("2");
        reveal_strlit("3");
        reveal_strlit("4");
        reveal_strlit("5");
        reveal_strlit("6");
        reveal_strlit("7");
        reveal_strlit("8");
        reveal_strlit("9");
    }
    let s = if d == 0 {
        "0"
    } else if d == 1 {
        "1"
    } else if d == 2 {
        "2"
    } else if d == 3 {
        "3"
    } else if d == 4 {
        "4"
    } else if d == 5 {
        "5"
    } else if d == 6 {
        "6"
    } else if d == 7 {
        "7"
    } else if d == 8 {
        "8"
    } else {
        "9"
    };
    assert(s@ =~= seq![digit(d as int)]);
    s
}

/// Appends the decimal form of `n` to `s`.
fn push_decimal(s: &mut String, n: usize)
    ensures
        final(s)@ == old(s)@ + decimal(n as nat),
    decreases n,
{
    if n >= 10 {
        push_decimal(s, n / 10);
    }
    s.append(digit_str(n % 10));
    proof {
        if n >= 10 {
            assert(s@ =~= old(s)@ + decimal(n as nat));
        } else {
            assert(s@ =~= old(s)@ + decimal(n as nat));
        }
    }
}

/// The key of block `index` in the overlay.
pub open spec fn overlay_key(index: usize) -> u64 {
    index as u64
}

/// The bytes of the log for the pending changes `s`: the number of
/// entries in eight bytes, then for each entry the block in eight bytes
/// and 0 for a written block or 1 for a removed block in four bytes, all
/// least significant byte first.
pub open spec fn wal_bytes(s: Seq<(u64, State)>) -> Seq<u8> {
    le64(s.len() as u64) + wal_entries(s)
}

/// The number that stands for a state in the log.
pub open spec fn state_code(state: State) -> u32 {
    match state {
        State::Modified => 0,
        State::Removed => 1,
    }
}

/// The bytes of the entries of the log.
pub open spec fn wal_entries(s: Seq<(u64, State)>) -> Seq<u8>
    decreases s.len(),
{
    if s.len() == 0 {
        Seq::empty()
    } else {
        wal_entries(s.drop_last()) + le64(s.last().0) + le32(state_code(s.last().1))
    }
}

/// The entry of the log at `pos`, if twelve bytes with a known state are there.
pub open spec fn parse_wal_entry(bytes: Seq<u8>, pos: int) -> Option<(u64, State)> {
    if 0 <= pos && pos + 12 <= bytes.len() {
        let key = from_le64(bytes.subrange(pos, pos + 8));
        let code = from_le32(bytes.subrange(pos + 8, pos + 12));
        if code == 0 {
            Some((key, State::Modified))
        } else if code == 1 {
            Some((key, State::Removed))
        } else {
            None
        }
    } else {
        None
    }
}

/// The first `n` entries of the log from byte 8 on.
pub open spec fn parse_wal_entries(bytes: Seq<u8>, n: nat) -> Option<Seq<(u64, State)>>
    decreases n,
{
    if n == 0 {
        Some(Seq::empty())
    } else {
        match parse_wal_entries(bytes, (n - 1) as nat) {
            Some(s) => match parse_wal_entry(bytes, 8 + 12 * (n - 1)) {
                Some(e) => Some(s.push(e)),
                None => None,
            },
            None => None,
        }
    }
}

/// The entries that the bytes of a log spell, in the order they are written.
pub open spec fn parse_wal(bytes: Seq<u8>) -> Option<Seq<(u64, State)>> {
    if bytes.len() >= 8 {
        parse_wal_entries(bytes, from_le64(bytes.subrange(0, 8)) as nat)
    } else {
        None
    }
}

/// Each entry of the log takes 12 bytes.
pub proof fn lemma_wal_entries_len(s: Seq<(u64, State)>)
    ensures
        wal_entries(s).len() == 12 * s.len(),
    decreases s.len(),
{
    if s.len() > 0 {
        lemma_wal_entries_len(s.drop_last());
    }
}

/// Where some entries of a log cannot be read, more cannot be read either.
proof fn lemma_wal_stays_unread(bytes: Seq<u8>, i: nat, n: nat)
    requires
        i <= n,
        parse_wal_entries(bytes, i) is None,
    ensures
        parse_wal_entries(bytes, n) is None,
    decreases n,
{
    if i < n {
        lemma_wal_stays_unread(bytes, i, (n - 1) as nat);
    }
}

/// The entries of a log are read back from its bytes.
pub proof fn lemma_parse_wal_entries(bytes: Seq<u8>, s: Seq<(u64, State)>)
    requires
        8 + wal_entries(s).len() <= bytes.len(),
        bytes.subrange(8, 8 + (wal_entries(s).len() as int)) == wal_entries(s),
    ensures
        parse_wal_entries(bytes, s.len()) == Some(s),
    decreases s.len(),
{
    lemma_wal_entries_len(s);
    if s.len() > 0 {
        let t = s.drop_last();
        lemma_wal_entries_len(t);
        let a: int = 12 * (t.len() as int);
        let whole = wal_entries(s);
        let window = bytes.subrange(8, 8 + a + 12);
        assert(bytes.subrange(8, 8 + a) =~= wal_entries(t)) by {
            assert(bytes.subrange(8, 8 + a) =~= window.subrange(0, a));
            assert(whole.subrange(0, a) =~= wal_entries(t));
        }
        lemma_parse_wal_entries(bytes, t);
        let p = 8 + a;
        assert(bytes.subrange(p, p + 8) =~= le64(s.last().0)) by {
            assert(bytes.subrange(p, p + 8) =~= window.subrange(a, a + 8));
            assert(whole.subrange(a, a + 8) =~= le64(s.last().0));
        }
        assert(bytes.subrange(p + 8, p + 12) =~= le32(state_code(s.last().1))) by {
            assert(bytes.subrange(p + 8, p + 12) =~= window.subrange(a + 8, a + 12));
            assert(whole.subrange(a + 8, a + 12) =~= le32(state_code(s.last().1)));
        }
        lemma_le64_round_trip(s.last().0);
        lemma_le32_round_trip(state_code(s.last().1));
        assert(t.push(s.last()) =~= s);
    }
}

/// A log is read back from its bytes.
pub proof fn lemma_parse_wal(s: Seq<(u64, State)>)
    requires
        s.len() <= u64::MAX,
    ensures
        parse_wal(wal_bytes(s)) == Some(s),
{
    lemma_wal_entries_len(s);
    lemma_le64_round_trip(s.len() as u64);
    let bytes = wal_bytes(s);
    assert(bytes.subrange(0, 8) =~= le64(s.len() as u64));
    assert(bytes.subrange(8, 8 + (wal_entries(s).len() as int)) =~= wal_entries(s));
    lemma_parse_wal_entries(bytes, s);
}

/// The bytes of the log for the pending changes.
pub fn encode_wal(overlay: &SortedMap<State>) -> (out: Vec<u8>)
    ensures
        out@ == wal_bytes(overlay@),
{
    let mut buf: Vec<u8> = Vec::new();
    put_le64(&mut buf, overlay.len() as u64);
    let ghost head = buf@;
    let n = overlay.len();
    let mut i: usize = 0;
    proof {
        assert(overlay@.take(0) =~= Seq::<(u64, State)>::empty());
        assert(buf@ =~= head + wal_entries(overlay@.take(0)));
    }
    while i < n
        invariant
            i <= n,
            n == overlay@.len(),
            buf@ == head + wal_entries(overlay@.take(i as int)),
        decreases n - i,
    {
        put_le64(&mut buf, overlay.key_at(i));
        let code: u32 = match *overlay.value_at(i) {
            State::Modified => 0,
            State::Removed => 1,
        };
        put_le32(&mut buf, code);
        proof {
            let t = overlay@.take(i + 1);
            assert(t.drop_last() =~= overlay@.take(i as int));
            assert(t.last() == overlay@[i as int]);
            assert(buf@ =~= head + wal_entries(t));
        }
        i = i + 1;
    }
    assert(overlay@.take(n as int) =~= overlay@);
    buf
}

/// Reads the pending changes from the bytes of a log; what follows the
/// entries is ignored. Where a block occurs twice, the later entry stands.
pub fn decode_wal(bytes: &[u8]) -> (r: Result<SortedMap<State>, KvError>)
    ensures
        match parse_wal(bytes@) {
            Some(s) => r is Ok && r->Ok_0.wf() && r->Ok_0.map() == crate::sorted_map::collect(s)
                && (sorted(s) ==> r->Ok_0@ == s),
            None => fails_with(r, KvError::InvalidData),
        },
{
    if bytes.len() < 8 {
        return Err(KvError::InvalidData);
    }
    let n = get_le64(bytes, 0);
    let mut overlay: SortedMap<State> = SortedMap::new();
    let mut i: u64 = 0;
    let mut p: usize = 8;
    let ghost mut acc: Seq<(u64, State)> = Seq::empty();
    while i < n
        invariant
            i <= n,
            p == 8 + 12 * i,
            p <= bytes@.len(),
            bytes@.len() >= 8,
            n == from_le64(bytes@.subrange(0, 8)),
            overlay.wf(),
            overlay.map() == crate::sorted_map::collect(acc),
            parse_wal_entries(bytes@, i as nat) == Some(acc),
        decreases n - i,
    {
        if bytes.len() - p < 12 {
            proof {
                assert(parse_wal_entries(bytes@, (i + 1) as nat) is None);
                lemma_wal_stays_unread(bytes@, (i + 1) as nat, n as nat);
            }
            return Err(KvError::InvalidData);
        }
        let key = get_le64(bytes, p);
        let code = get_le32(bytes, p + 8);
        let state = if code == 0 {
            State::Modified
        } else if code == 1 {
            State::Removed
        } else {
            proof {
                assert(parse_wal_entries(bytes@, (i + 1) as nat) is None);
                lemma_wal_stays_unread(bytes@, (i + 1) as nat, n as nat);
            }
            return Err(KvError::InvalidData);
        };
        overlay.insert(key, state);
        proof {
            let grown = acc.push((key, state));
            assert(grown.drop_last() =~= acc);
            acc = grown;
        }
        p = p + 12;
        i = i + 1;
    }
    proof {
        if sorted(acc) {
            crate::sorted_map::lemma_collect_sorted(acc);
            crate::sorted_map::lemma_same_map_same_seq(overlay@, acc);
        }
    }
    Ok(overlay)
}

/// Takes a missing file for a file with the contents `fallback`.
pub fn ignore_not_found<T>(result: Result<T, KvError>, fallback: T) -> (r: Result<T, KvError>)
    ensures
        r == (if fails_with(result, KvError::NotFound) {
            Ok(fallback)
        } else {
            result
        }),
{
    match result {
        Err(KvError::NotFound) => Ok(fallback),
        other => other,
    }
}

impl FsIntKv {
    /// The pending changes are in order, and each is for a block that
    /// fits the store.
    pub open spec fn inv(&self) -> bool {
        &&& self.overlay.wf()
        &&& forall|k: u64| #[trigger] self.overlay.map().contains_key(k) ==> k <= usize::MAX
    }

    /// The blocks of the pending changes all fit the store.
    pub proof fn lemma_fits(&self)
        requires
            self.inv(),
        ensures
            self.fits(),
    {
        assert forall|i: int| 0 <= i < self.overlay@.len() implies (#[trigger] self.overlay@[i]).0
            <= usize::MAX by {
            lemma_entry_in_map(self.overlay@, i);
            assert(self.overlay.map().contains_key(self.overlay@[i].0));
        }
    }

    /// What is pending for block `index`, if anything.
    pub open spec fn pending(&self, index: usize) -> Option<State> {
        if self.overlay.map().contains_key(overlay_key(index)) {
            Some(self.overlay.map()[overlay_key(index)])
        } else {
            None
        }
    }

    /// A store in the directory `path`, with nothing pending.
    pub fn new(path: &str) -> (kv: Self)
        ensures
            kv.inv(),
            kv.fits(),
            kv.dir@ == path@,
            kv.overlay@.len() == 0,
            forall|i: usize| kv.pending(i) is None,
    {
        FsIntKv { dir: String::from_str(path), overlay: SortedMap::new() }
    }

    /// The name of the file that holds block `index` for this store: the
    /// pending file where the block was written since the last flush.
    pub fn get_path_for_index(&self, index: usize) -> (name: String)
        requires
            self.inv(),
        ensures
            name@ == file_name(index, self.pending(index) == Some(State::Modified)),
    {
        let in_wal = match self.overlay.get(index as u64) {
            Some(State::Modified) => true,
            _ => false,
        };
        self.get_path_for_index_wal(index, in_wal)
    }

    /// The name of the file of block `index`, pending or not.
    pub fn get_path_for_index_wal(&self, index: usize, in_wal: bool) -> (name: String)
        ensures
            name@ == file_name(index, in_wal),
    {
        let mut name = String::from_str("");
        proof {
            reveal_strlit("");
            reveal_strlit("p");
        }
        push_decimal(&mut name, index);
        if in_wal {
            name.append("p");
            assert(name@ =~= decimal(index as nat).push('p'));
        } else {
            assert(name@ =~= decimal(index as nat));
        }
        name
    }

    /// The name of the log.
    pub fn wal_path(&self) -> (name: String)
        ensures
            name@ == "wal"@,
    {
        String::from_str("wal")
    }

    /// The file from which block `index` is read; none where the block was
    /// removed since the last flush.
    pub fn read(&self, index: usize) -> (r: Result<String, KvError>)
        requires
            self.inv(),
        ensures
            self.pending(index) == Some(State::Removed) <==> fails_with(r, KvError::NotFound),
            r is Err ==> fails_with(r, KvError::NotFound),
            r matches Ok(name) ==> name@ == file_name(
                index,
                self.pending(index) == Some(State::Modified),
            ),
    {
        match self.overlay.get(index as u64) {
            Some(State::Removed) => Err(KvError::NotFound),
            _ => Ok(self.get_path_for_index(index)),
        }
    }

    /// Marks block `index` as written, and names the pending file that
    /// takes the bytes.
    pub fn write(&mut self, index: usize) -> (name: String)
        requires
            old(self).inv(),
        ensures
            final(self).inv(),
            final(self).dir == old(self).dir,
            name@ == file_name(index, true),
            final(self).overlay.map() == old(self).overlay.map().insert(
                overlay_key(index),
                State::Modified,
            ),
    {
        self.overlay.insert(index as u64, State::Modified);
        self.get_path_for_index_wal(index, true)
    }

    /// Whether there is a block `index`, where what is pending decides:
    /// a removed block is not there, a written one is. `None` where the
    /// file of the block decides.
    pub fn has(&self, index: usize) -> (r: Option<bool>)
        requires
            self.inv(),
        ensures
            r == (match self.pending(index) {
                Some(State::Removed) => Some(false),
                Some(State::Modified) => Some(true),
                None => None,
            }),
    {
        match self.overlay.get(index as u64) {
            Some(State::Removed) => Some(false),
            Some(State::Modified) => Some(true),
            None => None,
        }
    }

    /// Marks block `index` as removed. `on_disk` says whether the file of
    /// the block exists; it matters where nothing is pending for the block.
    /// Returns the pending file to delete, if the block was written since
    /// the last flush.
    pub fn remove(&mut self, index: usize, on_disk: bool) -> (r: Result<Option<String>, KvError>)
        requires
            old(self).inv(),
        ensures
            final(self).inv(),
            final(self).dir == old(self).dir,
            match old(self).pending(index) {
                Some(State::Removed) => fails_with(r, KvError::NotFound),
                Some(State::Modified) => r is Ok && r->Ok_0 is Some && r->Ok_0->0@ == file_name(
                    index,
                    true,
                ),
                None => if on_disk {
                    r is Ok && r->Ok_0 is None
                } else {
                    fails_with(r, KvError::NotFound)
                },
            },
            r is Ok ==> final(self).overlay.map() == old(self).overlay.map().insert(
                overlay_key(index),
                State::Removed,
            ),
            r is Err ==> final(self).overlay == old(self).overlay,
    {
        let found = match self.overlay.get(index as u64) {
            Some(state) => Some(*state),
            None => None,
        };
        match found {
            Some(State::Removed) => Err(KvError::NotFound),
            Some(State::Modified) => {
                let name = self.get_path_for_index_wal(index, true);
                self.overlay.insert(index as u64, State::Removed);
                Ok(Some(name))
            },
            None => {
                if !on_disk {
                    return Err(KvError::NotFound);
                }
                self.overlay.insert(index as u64, State::Removed);
                Ok(None)
            },
        }
    }
}

/// The steps of a flush as the contracts see them.
pub open spec fn ops_view(ops: Seq<FileOp>) -> Seq<FileOpView> {
    Seq::new(ops.len(), |i: int| ops[i]@)
}

/// The step that carries out one entry of the log: a written block
/// gets its pending file, a removed block loses its file.
pub open spec fn checkpoint_op(e: (u64, State)) -> FileOpView {
    match e.1 {
        State::Modified => FileOpView::Commit(e.0 as usize),
        State::Removed => FileOpView::Discard(e.0 as usize),
    }
}

/// The steps that carry out the entries of a log, in their order.
pub open spec fn checkpoint_ops(s: Seq<(u64, State)>) -> Seq<FileOpView> {
    Seq::new(s.len(), |i: int| checkpoint_op(s[i]))
}

/// The steps that force the pending files of the written blocks to
/// stable storage, in the order of the entries.
pub open spec fn sync_ops(s: Seq<(u64, State)>) -> Seq<FileOpView>
    decreases s.len(),
{
    if s.len() == 0 {
        Seq::empty()
    } else if s.last().1 == State::Modified {
        sync_ops(s.drop_last()).push(FileOpView::Sync(s.last().0 as usize))
    } else {
        sync_ops(s.drop_last())
    }
}

/// The steps of a flush of the pending changes `s`: none where nothing
/// is pending; else the pending files are forced to stable storage, the
/// log is published, each entry is carried out, and the log is removed.
pub open spec fn flush_plan(s: Seq<(u64, State)>) -> Seq<FileOpView> {
    if s.len() == 0 {
        Seq::empty()
    } else {
        sync_ops(s).push(FileOpView::PublishWal(wal_bytes(s))) + checkpoint_ops(s).push(
            FileOpView::RemoveWal,
        )
    }
}

/// Every block of the entries fits the store.
pub open spec fn keys_fit(s: Seq<(u64, State)>) -> bool {
    forall|i: int| 0 <= i < s.len() ==> (#[trigger] s[i]).0 <= usize::MAX
}

/// The files of a directory: the files of the blocks, the pending files,
/// and the log.
pub struct DirModel {
    pub files: Map<usize, Seq<u8>>,
    pub pending: Map<usize, Seq<u8>>,
    pub wal: Option<Seq<u8>>,
}

/// What a step makes of a directory.
pub open spec fn apply(op: FileOpView, d: DirModel) -> DirModel {
    match op {
        FileOpView::Sync(_) => d,
        FileOpView::PublishWal(bytes) => DirModel { wal: Some(bytes), ..d },
        FileOpView::Commit(i) => {
            if d.pending.contains_key(i) {
                DirModel {
                    files: d.files.insert(i, d.pending[i]),
                    pending: d.pending.remove(i),
                    wal: d.wal,
                }
            } else {
                d
            }
        },
        FileOpView::Discard(i) => DirModel { files: d.files.remove(i), ..d },
        FileOpView::RemoveWal => DirModel { wal: None, ..d },
    }
}

/// What steps make of a directory, one after the other.
pub open spec fn apply_all(ops: Seq<FileOpView>, d: DirModel) -> DirModel
    decreases ops.len(),
{
    if ops.len() == 0 {
        d
    } else {
        apply(ops.last(), apply_all(ops.drop_last(), d))
    }
}

/// The directory after the pending changes `o` are carried out: the file
/// of a written block is its pending file, if there was one; a removed
/// block has no file; the pending files of the written blocks are gone.
pub open spec fn checkpointed(o: Map<u64, State>, d: DirModel) -> DirModel {
    DirModel {
        files: Map::new(
            |i: usize|
                if o.contains_key(overlay_key(i)) {
                    o[overlay_key(i)] == State::Modified && (d.pending.contains_key(i)
                        || d.files.contains_key(i))
                } else {
                    d.files.contains_key(i)
                },
            |i: usize|
                if o.contains_key(overlay_key(i)) && d.pending.contains_key(i) {
                    d.pending[i]
                } else {
                    d.files[i]
                },
        ),
        pending: Map::new(
            |i: usize|
                d.pending.contains_key(i) && !(o.contains_key(overlay_key(i)) && o[overlay_key(i)]
                    == State::Modified),
            |i: usize| d.pending[i],
        ),
        wal: d.wal,
    }
}

/// Carrying out the entries of a log, each block once, gives the
/// directory in which the pending changes are carried out.
pub proof fn lemma_checkpoint(s: Seq<(u64, State)>, d: DirModel)
    requires
        sorted(s),
        keys_fit(s),
    ensures
        apply_all(checkpoint_ops(s), d) == checkpointed(to_map(s), d),
    decreases s.len(),
{
    let ops = checkpoint_ops(s);
    if s.len() == 0 {
        let r = checkpointed(to_map(s), d);
        assert(r.files =~= d.files);
        assert(r.pending =~= d.pending);
    } else {
        let t = s.drop_last();
        let n = s.len() - 1;
        assert(sorted(t)) by {
            assert forall|i: int, j: int| 0 <= i < j < t.len() implies (#[trigger] t[i]).0 < (
            #[trigger] t[j]).0 by {
                assert(s[i].0 < s[j].0);
            }
        }
        assert(keys_fit(t)) by {
            assert forall|i: int| 0 <= i < t.len() implies (#[trigger] t[i]).0 <= usize::MAX by {
                assert(t[i] == s[i]);
            }
        }
        lemma_checkpoint(t, d);
        assert(ops.drop_last() =~= checkpoint_ops(t));
        assert(ops.last() == checkpoint_op(s[n]));
        assert forall|i: int| 0 <= i < t.len() implies (#[trigger] t[i]).0 < s[n].0 by {
            assert(s[i].0 < s[n].0);
        }
        crate::sorted_map::lemma_push_larger(t, s[n].0, s[n].1);
        assert(t.push((s[n].0, s[n].1)) =~= s);
        let o = to_map(t);
        let k = s[n].0;
        assert(!o.contains_key(k)) by {
            if o.contains_key(k) {
                lemma_key_has_position(t, k);
                let a = position_of(t, k);
                assert(t[a].0 < k);
            }
        }
        let before = checkpointed(o, d);
        let after = apply(checkpoint_op(s[n]), before);
        let goal = checkpointed(o.insert(k, s[n].1), d);
        let place = k as usize;
        assert(overlay_key(place) == k);
        assert forall|i: usize| i != place implies overlay_key(i) != k by {}
        assert(after.files =~= goal.files);
        assert(after.pending =~= goal.pending);
    }
}

/// Carrying out the pending changes a second time changes nothing.
pub proof fn lemma_checkpoint_idempotent(o: Map<u64, State>, d: DirModel)
    ensures
        checkpointed(o, checkpointed(o, d)) == checkpointed(o, d),
{
    let once = checkpointed(o, d);
    let twice = checkpointed(o, once);
    assert(twice.files =~= once.files);
    assert(twice.pending =~= once.pending);
}

/// Carrying out the pending changes after a part of them was carried
/// out gives what carrying them out at once gives.
pub proof fn lemma_checkpoint_resumes(o: Map<u64, State>, part: Map<u64, State>, d: DirModel)
    requires
        forall|k: u64| #[trigger] part.contains_key(k) ==> o.contains_key(k) && o[k] == part[k],
    ensures
        checkpointed(o, checkpointed(part, d)) == checkpointed(o, d),
{
    let some = checkpointed(part, d);
    let all = checkpointed(o, d);
    let resumed = checkpointed(o, some);
    assert forall|i: usize| resumed.files.contains_key(i) == all.files.contains_key(i) by {
        if part.contains_key(overlay_key(i)) {
            assert(o.contains_key(overlay_key(i)));
        }
    }
    assert forall|i: usize| resumed.files.contains_key(i) implies resumed.files[i]
        == all.files[i] by {
        if part.contains_key(overlay_key(i)) {
            assert(o.contains_key(overlay_key(i)));
        }
    }
    assert(resumed.files =~= all.files);
    assert forall|i: usize| resumed.pending.contains_key(i) == all.pending.contains_key(i) by {
        if part.contains_key(overlay_key(i)) {
            assert(o.contains_key(overlay_key(i)));
        }
    }
    assert(resumed.pending =~= all.pending);
}

/// The steps of a repetition after a crash: the entries of the log are
/// carried out, and the log is removed.
pub open spec fn recovery_plan(s: Seq<(u64, State)>) -> Seq<FileOpView> {
    checkpoint_ops(s).push(FileOpView::RemoveWal)
}

/// After a crash in the middle of a flush, when the log was published and
/// the first `done` of its entries were carried out, carrying out the log
/// from its start gives the directory that the flush was to give: each
/// written block has the bytes of its pending file, each removed block
/// has no file, and the log is gone.
pub proof fn lemma_recovery(s: Seq<(u64, State)>, d: DirModel, done: int)
    requires
        sorted(s),
        keys_fit(s),
        0 <= done <= s.len(),
    ensures
        apply_all(recovery_plan(s), apply_all(checkpoint_ops(s).take(done), d)) == (DirModel {
            wal: None,
            ..checkpointed(to_map(s), d)
        }),
        forall|i: int|
            0 <= i < s.len() && (#[trigger] s[i]).1 == State::Modified && d.pending.contains_key(
                s[i].0 as usize,
            ) ==> checkpointed(to_map(s), d).files.contains_key(s[i].0 as usize) && checkpointed(
                to_map(s),
                d,
            ).files[s[i].0 as usize] == d.pending[s[i].0 as usize],
        forall|i: int|
            0 <= i < s.len() && (#[trigger] s[i]).1 == State::Removed ==> !checkpointed(
                to_map(s),
                d,
            ).files.contains_key(s[i].0 as usize),
{
    let part = s.take(done);
    assert(sorted(part)) by {
        assert forall|i: int, j: int| 0 <= i < j < part.len() implies (#[trigger] part[i]).0 < (
        #[trigger] part[j]).0 by {
            assert(s[i].0 < s[j].0);
        }
    }
    assert(keys_fit(part)) by {
        assert forall|i: int| 0 <= i < part.len() implies (#[trigger] part[i]).0 <= usize::MAX by {
            assert(part[i] == s[i]);
        }
    }
    assert(checkpoint_ops(s).take(done) =~= checkpoint_ops(part));
    lemma_checkpoint(part, d);
    let some = checkpointed(to_map(part), d);
    lemma_checkpoint(s, some);
    assert forall|k: u64| #[trigger] to_map(part).contains_key(k) implies to_map(s).contains_key(k)
        && to_map(s)[k] == to_map(part)[k] by {
        lemma_key_has_position(part, k);
        let a = position_of(part, k);
        lemma_entry_in_map(part, a);
        lemma_entry_in_map(s, a);
    }
    lemma_checkpoint_resumes(to_map(s), to_map(part), d);
    assert(recovery_plan(s).drop_last() =~= checkpoint_ops(s));
    assert forall|i: int|
        0 <= i < s.len() && (#[trigger] s[i]).1 == State::Modified && d.pending.contains_key(
            s[i].0 as usize,
        ) implies checkpointed(to_map(s), d).files.contains_key(s[i].0 as usize) && checkpointed(
        to_map(s),
        d,
    ).files[s[i].0 as usize] == d.pending[s[i].0 as usize] by {
        lemma_entry_in_map(s, i);
        assert(overlay_key(s[i].0 as usize) == s[i].0);
    }
    assert forall|i: int|
        0 <= i < s.len() && (#[trigger] s[i]).1 == State::Removed implies !checkpointed(
        to_map(s),
        d,
    ).files.contains_key(s[i].0 as usize) by {
        lemma_entry_in_map(s, i);
        assert(overlay_key(s[i].0 as usize) == s[i].0);
    }
}

/// The steps that carry out the entries of a log, for blocks that fit the store.
fn checkpoint_steps(overlay: &SortedMap<State>) -> (r: Option<Vec<FileOp>>)
    ensures
        r is Some == keys_fit(overlay@),
        r is Some ==> ops_view(r->0@) == checkpoint_ops(overlay@),
{
    let mut ops: Vec<FileOp> = Vec::new();
    let n = overlay.len();
    let mut i: usize = 0;
    assert(ops_view(ops@) =~= checkpoint_ops(overlay@.take(0)));
    while i < n
        invariant
            i <= n,
            n == overlay@.len(),
            ops@.len() == i,
            keys_fit(overlay@.take(i as int)),
            ops_view(ops@) == checkpoint_ops(overlay@.take(i as int)),
        decreases n - i,
    {
        let key = overlay.key_at(i);
        if key > usize::MAX as u64 {
            proof {
                assert(overlay@[i as int].0 > usize::MAX);
            }
            return None;
        }
        let ghost before = ops@;
        match *overlay.value_at(i) {
            State::Modified => ops.push(FileOp::Commit(key as usize)),
            State::Removed => ops.push(FileOp::Discard(key as usize)),
        }
        proof {
            let t = overlay@.take(i + 1);
            assert(ops@[i as int]@ == checkpoint_op(overlay@[i as int]));
            assert forall|a: int| 0 <= a < i + 1 implies ops_view(ops@)[a] == checkpoint_ops(t)[a] by {
                if a < i {
                    assert(ops_view(before)[a] == checkpoint_ops(overlay@.take(i as int))[a]);
                    assert(ops@[a] == before[a]);
                }
            }
            assert(ops_view(ops@) =~= checkpoint_ops(t));
            assert(keys_fit(t)) by {
                assert forall|a: int| 0 <= a < t.len() implies (#[trigger] t[a]).0 <= usize::MAX by {
                    if a < i {
                        assert(overlay@.take(i as int)[a] == t[a]);
                    }
                }
            }
        }
        i = i + 1;
    }
    assert(overlay@.take(n as int) =~= overlay@);
    Some(ops)
}

impl FsIntKv {
    /// The blocks of the pending changes all fit the store.
    pub open spec fn fits(&self) -> bool {
        keys_fit(self.overlay@)
    }

    /// The steps of a flush: those that make the pending changes the
    /// blocks of the store, whether or not the steps are interrupted.
    pub fn flush_wal(&self) -> (ops: Vec<FileOp>)
        requires
            self.inv(),
        ensures
            self.fits(),
            ops_view(ops@) == flush_plan(self.overlay@),
    {
        proof {
            self.lemma_fits();
        }
        let mut ops: Vec<FileOp> = Vec::new();
        if self.overlay.is_empty() {
            assert(ops_view(ops@) =~= Seq::<FileOpView>::empty());
            return ops;
        }
        let n = self.overlay.len();
        let mut i: usize = 0;
        assert(ops_view(ops@) =~= sync_ops(self.overlay@.take(0)));
        while i < n
            invariant
                i <= n,
                n == self.overlay@.len(),
                self.fits(),
                ops_view(ops@) == sync_ops(self.overlay@.take(i as int)),
            decreases n - i,
        {
            let key = self.overlay.key_at(i);
            proof {
                let t = self.overlay@.take(i + 1);
                assert(t.drop_last() =~= self.overlay@.take(i as int));
                assert(t.last() == self.overlay@[i as int]);
            }
            match *self.overlay.value_at(i) {
                State::Modified => {
                    ops.push(FileOp::Sync(key as usize));
                    assert(ops_view(ops@) =~= sync_ops(self.overlay@.take(i + 1)));
                },
                State::Removed => {},
            }
            i = i + 1;
        }
        assert(self.overlay@.take(n as int) =~= self.overlay@);
        let ghost synced = ops_view(ops@);
        ops.push(FileOp::PublishWal(encode_wal(&self.overlay)));
        assert(ops_view(ops@) =~= synced.push(FileOpView::PublishWal(wal_bytes(self.overlay@))));
        let ghost published = ops_view(ops@);
        let mut steps = match checkpoint_steps(&self.overlay) {
            Some(steps) => steps,
            None => Vec::new(),
        };
        steps.push(FileOp::RemoveWal);
        assert(ops_view(steps@) =~= checkpoint_ops(self.overlay@).push(FileOpView::RemoveWal));
        let ghost tail = steps@;
        ops.append(&mut steps);
        assert(ops_view(ops@) =~= published + ops_view(tail));
        ops
    }

    /// Notes that the steps of a flush were carried out: nothing is
    /// pending any more.
    pub fn flush(&mut self)
        ensures
            final(self).inv(),
            final(self).dir == old(self).dir,
            final(self).overlay@.len() == 0,
            forall|i: usize| final(self).pending(i) is None,
    {
        self.overlay = SortedMap::new();
    }

    /// The steps that carry out the log `wal`, which was found when the
    /// directory was opened: none for an empty log; else the steps for
    /// each entry and the removal of the log. The entries are taken in
    /// the order of their blocks, whatever their order in the log, and
    /// where a block comes twice the later entry stands. Bytes that are no
    /// log, and a block that does not fit the store, are invalid data.
    pub fn wal_checkpoint(wal: &[u8]) -> (r: Result<Vec<FileOp>, KvError>)
        ensures
            wal@.len() == 0 ==> r is Ok && r->Ok_0@.len() == 0,
            wal@.len() > 0 ==> match parse_wal(wal@) {
                None => fails_with(r, KvError::InvalidData),
                Some(s) => {
                    &&& r is Err ==> fails_with(r, KvError::InvalidData)
                    &&& sorted(s) && keys_fit(s) ==> r is Ok && ops_view(r->Ok_0@) == recovery_plan(
                        s,
                    )
                    &&& exists|t: Seq<(u64, State)>| #[trigger]
                        sorted(t) && to_map(t) == crate::sorted_map::collect(s) && (if keys_fit(t) {
                            r is Ok && ops_view(r->Ok_0@) == recovery_plan(t)
                        } else {
                            r is Err
                        })
                },
            },
    {
        let mut ops: Vec<FileOp> = Vec::new();
        if wal.len() == 0 {
            return Ok(ops);
        }
        let overlay = match decode_wal(wal) {
            Ok(overlay) => overlay,
            Err(e) => {
                return Err(e);
            },
        };
        let mut steps = match checkpoint_steps(&overlay) {
            Some(steps) => steps,
            None => {
                assert(sorted(overlay@) && to_map(overlay@) == crate::sorted_map::collect(
                    parse_wal(wal@)->0,
                ));
                return Err(KvError::InvalidData);
            },
        };
        let ghost carried = ops_view(steps@);
        steps.push(FileOp::RemoveWal);
        assert(ops_view(steps@) =~= carried.push(FileOpView::RemoveWal));
        assert(sorted(overlay@) && to_map(overlay@) == crate::sorted_map::collect(
            parse_wal(wal@)->0,
        ));
        Ok(steps)
    }
}

} // verus!
