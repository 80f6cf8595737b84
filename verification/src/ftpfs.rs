//! Files and directories in a block store: block 0 holds the root
//! directory, every other directory and every file has a block of its own.
use crate::bytes::{copy_bytes, copy_range, put_range};
use crate::error::{fails_with, KvError};
use crate::kv::IntKv;
use crate::meta::{Meta, MODE_DIR, MODE_FILE, Timestamp};
use crate::names::gathered;
use crate::page_store::random_u32;
use crate::tree::{is_utf8, lemma_parse_tree, parse_tree, Tree, tree_bytes, TreeView};
use vstd::prelude::*;
use vstd::utf8::valid_utf8;

verus! {

/// The block of the root directory.
pub const ROOT_ID: u64 = 0;

/// How long a flush waits for more changes, in seconds.
pub const WRITE_DELAY_SECS: u64 = 5;

/// How often a block number is drawn at random before the numbers are tried in turn.
pub const RANDOM_DRAWS: u32 = 64;

/// A component of a path.
pub enum PathPart {
    /// A prefix as on Windows.
    Prefix,
    /// The root.
    RootDir,
    /// The directory itself: `.`.
    CurDir,
    /// The directory above: `..`.
    ParentDir,
    /// A name, as bytes.
    Normal(Vec<u8>),
}

/// A component of a path as the contracts see it.
pub enum PartView {
    Prefix,
    RootDir,
    CurDir,
    ParentDir,
    Normal(Seq<u8>),
}

impl PathPart {
    /// The component as the contracts see it.
    pub open spec fn view(&self) -> PartView {
        match *self {
            PathPart::Prefix => PartView::Prefix,
            PathPart::RootDir => PartView::RootDir,
            PathPart::CurDir => PartView::CurDir,
            PathPart::ParentDir => PartView::ParentDir,
            PathPart::Normal(name) => PartView::Normal(name@),
        }
    }
}

/// A path as the contracts see it.
pub open spec fn path_view(parts: Seq<PathPart>) -> Seq<PartView> {
    Seq::new(parts.len(), |i: int| parts[i]@)
}

/// The directory in block `index`: the root directory is empty where
/// block 0 is absent; a block that is no directory is a local error.
pub open spec fn tree_at(blocks: Map<usize, Seq<u8>>, index: u64) -> Result<TreeView, KvError> {
    if index == 0 && !blocks.contains_key(0) {
        Ok(Map::empty())
    } else if index > usize::MAX || !blocks.contains_key(index as usize) {
        Err(KvError::NotFound)
    } else {
        match parse_tree(blocks[index as usize]) {
            Some(s) => Ok(gathered(s)),
            None => Err(KvError::LocalError),
        }
    }
}

/// The directory that `parts` lead to from the directory `tree` in
/// block `index`: each name must be the UTF-8 name of a directory in
/// the directory before it; the root component changes nothing; any
/// other component is not allowed.
pub open spec fn walk(
    blocks: Map<usize, Seq<u8>>,
    index: u64,
    tree: TreeView,
    parts: Seq<PartView>,
) -> Result<(u64, TreeView), KvError>
    decreases parts.len(),
{
    if parts.len() == 0 {
        Ok((index, tree))
    } else {
        match parts[0] {
            PartView::RootDir => walk(blocks, index, tree, parts.skip(1)),
            PartView::Normal(name) => {
                if !valid_utf8(name) {
                    Err(KvError::FileNameNotAllowed)
                } else if !tree.contains_key(name) {
                    Err(KvError::NotFound)
                } else if tree[name].1.mode != MODE_DIR {
                    Err(KvError::NotFound)
                } else {
                    match tree_at(blocks, tree[name].0) {
                        Ok(next) => walk(blocks, tree[name].0, next, parts.skip(1)),
                        Err(e) => Err(e),
                    }
                }
            },
            _ => Err(KvError::FileNameNotAllowed),
        }
    }
}

/// The directory at a path.
pub open spec fn dir_at(blocks: Map<usize, Seq<u8>>, parts: Seq<PartView>) -> Result<
    (u64, TreeView),
    KvError,
> {
    match tree_at(blocks, 0) {
        Ok(root) => walk(blocks, 0, root, parts),
        Err(e) => Err(e),
    }
}

/// Whether the walk through `parts` from the directory `tree` in block
/// `index` comes to the directory in block `target`: that is so where the
/// walk starts there, or comes there as far as it can be followed.
pub open spec fn passes(
    blocks: Map<usize, Seq<u8>>,
    index: u64,
    tree: TreeView,
    parts: Seq<PartView>,
    target: u64,
) -> bool
    decreases parts.len(),
{
    index == target || (parts.len() > 0 && match parts[0] {
        PartView::RootDir => passes(blocks, index, tree, parts.skip(1), target),
        PartView::Normal(name) => valid_utf8(name) && tree.contains_key(name) && tree[name].1.mode
            == MODE_DIR && match tree_at(blocks, tree[name].0) {
            Ok(next) => passes(blocks, tree[name].0, next, parts.skip(1), target),
            Err(_) => false,
        },
        _ => false,
    })
}

/// The components of a path that lead to the directory above its last
/// component: none where it has no directory above.
pub open spec fn above(parts: Seq<PartView>) -> Seq<PartView> {
    if has_parent(parts) {
        parts.drop_last()
    } else {
        Seq::empty()
    }
}

/// Whether the directory above the last component of the path is the
/// directory in block `target` or lies in it.
pub open spec fn parent_within(blocks: Map<usize, Seq<u8>>, parts: Seq<PartView>, target: u64) -> bool {
    match tree_at(blocks, 0) {
        Ok(root) => passes(blocks, 0, root, above(parts), target),
        Err(_) => false,
    }
}

/// Every place that a new block may take, from 1 to `u32::MAX`, holds a
/// block.
pub open spec fn all_taken(blocks: Map<usize, Seq<u8>>) -> bool {
    forall|i: usize| 0 < i <= u32::MAX ==> #[trigger] blocks.contains_key(i)
}

/// Whether the path has a directory above its last component: it has
/// none where it is empty or ends in the root or a prefix.
pub open spec fn has_parent(parts: Seq<PartView>) -> bool {
    parts.len() > 0 && !(parts.last() is RootDir) && !(parts.last() is Prefix)
}

/// The directory above the last component of a path, and the name that
/// is the last component: the root directory where the path has no
/// directory above; a path that does not end in a name names nothing.
pub open spec fn parent_and_name(blocks: Map<usize, Seq<u8>>, parts: Seq<PartView>) -> Result<
    ((u64, TreeView), Seq<u8>),
    KvError,
> {
    let above = if has_parent(parts) {
        dir_at(blocks, parts.drop_last())
    } else {
        dir_at(blocks, Seq::empty())
    };
    match above {
        Err(e) => Err(e),
        Ok(tree) => {
            if parts.len() > 0 && parts.last() is Normal {
                if valid_utf8(parts.last()->Normal_0) {
                    Ok((tree, parts.last()->Normal_0))
                } else {
                    Err(KvError::FileNameNotAllowed)
                }
            } else {
                Err(KvError::NotFound)
            }
        },
    }
}

/// The entry at a path.
pub open spec fn entry_at(blocks: Map<usize, Seq<u8>>, parts: Seq<PartView>) -> Result<
    (u64, Meta),
    KvError,
> {
    match parent_and_name(blocks, parts) {
        Err(e) => Err(e),
        Ok((tree, name)) => {
            if tree.1.contains_key(name) {
                Ok(tree.1[name])
            } else {
                Err(KvError::NotFound)
            }
        },
    }
}

/// The bytes of the file at a path.
pub open spec fn file_at(blocks: Map<usize, Seq<u8>>, parts: Seq<PartView>) -> Result<
    Seq<u8>,
    KvError,
> {
    match entry_at(blocks, parts) {
        Err(e) => Err(e),
        Ok(entry) => {
            if entry.1.mode != MODE_FILE {
                Err(KvError::PermissionDenied)
            } else if entry.0 > usize::MAX || !blocks.contains_key(entry.0 as usize) {
                Err(KvError::NotFound)
            } else {
                Ok(blocks[entry.0 as usize])
            }
        },
    }
}

/// What an operation on a store answers, measured by what the blocks
/// say: an answer is the one that the blocks give, and a store that
/// does not fail gives the answer of the blocks, or the failure.
pub open spec fn answers<T, V>(
    r: Result<T, KvError>,
    seen: spec_fn(T) -> V,
    want: Result<V, KvError>,
    reliable: bool,
) -> bool {
    &&& r is Ok ==> want is Ok && seen(r->Ok_0) == want->Ok_0
    &&& reliable && want is Ok ==> r is Ok
    &&& reliable && want is Err ==> r is Err && r->Err_0 == want->Err_0
}

/// The directory with its block, as the contracts see it.
pub open spec fn seen_tree(tree: Tree) -> (u64, TreeView) {
    (tree.index, tree.entries())
}

/// Reads the directory in block `index`.
pub fn read_tree_by_id<K: IntKv>(kv: &mut K, index: u64) -> (r: Result<Tree, KvError>)
    requires
        old(kv).inv(),
    ensures
        final(kv).inv(),
        final(kv).blocks() == old(kv).blocks(),
        old(kv).reliable() ==> final(kv).reliable(),
        old(kv).roomy() ==> final(kv).roomy(),
        r matches Ok(tree) ==> tree.wf() && tree.index == index && index <= usize::MAX,
        answers(
            r,
            |t: Tree| t.entries(),
            tree_at(old(kv).blocks(), index),
            old(kv).reliable(),
        ),
{
    if index > usize::MAX as u64 {
        return Err(KvError::NotFound);
    }
    if index == ROOT_ID {
        match kv.has(0) {
            Ok(true) => {},
            Ok(false) => {
                return Ok(Tree::new(index));
            },
            Err(e) => {
                return Err(e);
            },
        }
    }
    let bytes = match kv.read(index as usize) {
        Ok(bytes) => bytes,
        Err(e) => {
            return Err(e);
        },
    };
    match Tree::decode(bytes.as_slice(), index) {
        Ok(tree) => Ok(tree),
        Err(_) => Err(KvError::LocalError),
    }
}

/// Reads the root directory.
pub fn root_tree<K: IntKv>(kv: &mut K) -> (r: Result<Tree, KvError>)
    requires
        old(kv).inv(),
    ensures
        final(kv).inv(),
        final(kv).blocks() == old(kv).blocks(),
        old(kv).reliable() ==> final(kv).reliable(),
        old(kv).roomy() ==> final(kv).roomy(),
        r matches Ok(tree) ==> tree.wf() && tree.index == 0,
        answers(r, |t: Tree| t.entries(), tree_at(old(kv).blocks(), 0), old(kv).reliable()),
{
    read_tree_by_id(kv, ROOT_ID)
}

/// Reads the directory that the first `upto` components of `parts` lead to.
pub fn read_tree_by_path<K: IntKv>(kv: &mut K, parts: &Vec<PathPart>, upto: usize) -> (r: Result<
    Tree,
    KvError,
>)
    requires
        old(kv).inv(),
        upto <= parts@.len(),
    ensures
        final(kv).inv(),
        final(kv).blocks() == old(kv).blocks(),
        old(kv).reliable() ==> final(kv).reliable(),
        old(kv).roomy() ==> final(kv).roomy(),
        r matches Ok(tree) ==> tree.wf() && tree.index <= usize::MAX,
        answers(
            r,
            |t: Tree| seen_tree(t),
            dir_at(old(kv).blocks(), path_view(parts@).take(upto as int)),
            old(kv).reliable(),
        ),
{
    let ghost blocks = kv.blocks();
    let ghost path = path_view(parts@).take(upto as int);
    let ghost reliable = kv.reliable();
    let mut tree = match root_tree(kv) {
        Ok(tree) => tree,
        Err(e) => {
            return Err(e);
        },
    };
    let mut i: usize = 0;
    proof {
        assert(path.skip(0) =~= path);
    }
    while i < upto
        invariant
            i <= upto,
            upto <= parts@.len(),
            kv.inv(),
            kv.blocks() == blocks,
            blocks == old(kv).blocks(),
            reliable == old(kv).reliable(),
            reliable ==> kv.reliable(),
            old(kv).roomy() ==> kv.roomy(),
            path == path_view(parts@).take(upto as int),
            tree.wf(),
            tree.index <= usize::MAX,
            tree_at(blocks, 0) is Ok,
            dir_at(blocks, path) == walk(blocks, tree.index, tree.entries(), path.skip(i as int)),
        decreases upto - i,
    {
        let ghost rest = path.skip(i as int);
        proof {
            assert(rest[0] == parts@[i as int]@);
            assert(rest.skip(1) =~= path.skip(i + 1));
        }
        match &parts[i] {
            PathPart::RootDir => {},
            PathPart::Normal(name) => {
                if !is_utf8(name.as_slice()) {
                    return Err(KvError::FileNameNotAllowed);
                }
                let (index, meta) = match tree.find(name.as_slice()) {
                    Ok(entry) => entry,
                    Err(e) => {
                        return Err(e);
                    },
                };
                if !meta.is_dir() {
                    return Err(KvError::NotFound);
                }
                tree = match read_tree_by_id(kv, index) {
                    Ok(tree) => tree,
                    Err(e) => {
                        return Err(e);
                    },
                };
            },
            _ => {
                return Err(KvError::FileNameNotAllowed);
            },
        }
        i = i + 1;
    }
    proof {
        assert(path.skip(upto as int) =~= Seq::<PartView>::empty());
    }
    Ok(tree)
}

/// How many components of a path lead to the directory above its last
/// component.
pub fn parent_len(parts: &Vec<PathPart>) -> (upto: usize)
    ensures
        upto <= parts@.len(),
        path_view(parts@).take(upto as int) == above(path_view(parts@)),
{
    let n = parts.len();
    let ghost path = path_view(parts@);
    let with_parent = n > 0 && match &parts[n - 1] {
        PathPart::RootDir => false,
        PathPart::Prefix => false,
        _ => true,
    };
    proof {
        if n > 0 {
            assert(path.last() == parts@[n - 1]@);
            assert(path.take(n - 1) =~= path.drop_last());
        }
        assert(path.take(0) =~= Seq::<PartView>::empty());
    }
    if with_parent {
        n - 1
    } else {
        0
    }
}

/// Whether the walk through the first `upto` components of `parts` comes
/// to the directory in block `target`.
pub fn path_passes<K: IntKv>(kv: &mut K, parts: &Vec<PathPart>, upto: usize, target: u64) -> (r:
    Result<bool, KvError>)
    requires
        old(kv).inv(),
        upto <= parts@.len(),
    ensures
        final(kv).inv(),
        final(kv).blocks() == old(kv).blocks(),
        old(kv).reliable() ==> final(kv).reliable(),
        old(kv).roomy() ==> final(kv).roomy(),
        r matches Ok(b) ==> tree_at(old(kv).blocks(), 0) is Ok && b == passes(
            old(kv).blocks(),
            0,
            tree_at(old(kv).blocks(), 0)->Ok_0,
            path_view(parts@).take(upto as int),
            target,
        ),
        old(kv).reliable() && dir_at(old(kv).blocks(), path_view(parts@).take(upto as int)) is Ok
            ==> r is Ok,
{
    let ghost blocks = kv.blocks();
    let ghost path = path_view(parts@).take(upto as int);
    let ghost reliable = kv.reliable();
    let mut tree = match root_tree(kv) {
        Ok(tree) => tree,
        Err(e) => {
            return Err(e);
        },
    };
    let ghost root = tree.entries();
    let mut i: usize = 0;
    proof {
        assert(path.skip(0) =~= path);
    }
    while i < upto
        invariant
            i <= upto,
            upto <= parts@.len(),
            kv.inv(),
            kv.blocks() == blocks,
            blocks == old(kv).blocks(),
            reliable == old(kv).reliable(),
            reliable ==> kv.reliable(),
            old(kv).roomy() ==> kv.roomy(),
            path == path_view(parts@).take(upto as int),
            tree.wf(),
            tree_at(blocks, 0) == Ok::<TreeView, KvError>(root),
            dir_at(blocks, path) == walk(blocks, tree.index, tree.entries(), path.skip(i as int)),
            passes(blocks, 0, root, path, target) == passes(
                blocks,
                tree.index,
                tree.entries(),
                path.skip(i as int),
                target,
            ),
        decreases upto - i,
    {
        let ghost rest = path.skip(i as int);
        proof {
            assert(rest[0] == parts@[i as int]@);
            assert(rest.skip(1) =~= path.skip(i + 1));
        }
        if tree.index == target {
            return Ok(true);
        }
        match &parts[i] {
            PathPart::RootDir => {},
            PathPart::Normal(name) => {
                if !is_utf8(name.as_slice()) {
                    return Err(KvError::FileNameNotAllowed);
                }
                let (index, meta) = match tree.find(name.as_slice()) {
                    Ok(entry) => entry,
                    Err(e) => {
                        return Err(e);
                    },
                };
                if !meta.is_dir() {
                    return Err(KvError::NotFound);
                }
                tree = match read_tree_by_id(kv, index) {
                    Ok(tree) => tree,
                    Err(e) => {
                        return Err(e);
                    },
                };
            },
            _ => {
                return Err(KvError::FileNameNotAllowed);
            },
        }
        i = i + 1;
    }
    proof {
        assert(path.skip(upto as int) =~= Seq::<PartView>::empty());
    }
    Ok(tree.index == target)
}

/// The directory above the last component of a path with its block, and
/// the name that is the last component, as the contracts see them.
pub open spec fn seen_parent(found: (Tree, Vec<u8>)) -> ((u64, TreeView), Seq<u8>) {
    (seen_tree(found.0), found.1@)
}

/// Reads the directory above the last component of a path, and gives the
/// name that is the last component.
pub fn read_tree_name_from_path<K: IntKv>(kv: &mut K, parts: &Vec<PathPart>) -> (r: Result<
    (Tree, Vec<u8>),
    KvError,
>)
    requires
        old(kv).inv(),
    ensures
        final(kv).inv(),
        final(kv).blocks() == old(kv).blocks(),
        old(kv).reliable() ==> final(kv).reliable(),
        old(kv).roomy() ==> final(kv).roomy(),
        r matches Ok(found) ==> found.0.wf() && found.0.index <= usize::MAX && valid_utf8(
            found.1@,
        ),
        answers(
            r,
            |found: (Tree, Vec<u8>)| seen_parent(found),
            parent_and_name(old(kv).blocks(), path_view(parts@)),
            old(kv).reliable(),
        ),
{
    let n = parts.len();
    let ghost path = path_view(parts@);
    let upto = parent_len(parts);
    proof {
        if n > 0 {
            assert(path.last() == parts@[n - 1]@);
        }
    }
    let tree = match read_tree_by_path(kv, parts, upto) {
        Ok(tree) => tree,
        Err(e) => {
            return Err(e);
        },
    };
    if n == 0 {
        return Err(KvError::NotFound);
    }
    match &parts[n - 1] {
        PathPart::Normal(name) => {
            if !is_utf8(name.as_slice()) {
                return Err(KvError::FileNameNotAllowed);
            }
            Ok((tree, copy_bytes(name.as_slice())))
        },
        _ => Err(KvError::NotFound),
    }
}

/// Reads the entry at a path.
pub fn read_id_meta_by_path<K: IntKv>(kv: &mut K, parts: &Vec<PathPart>) -> (r: Result<
    (u64, Meta),
    KvError,
>)
    requires
        old(kv).inv(),
    ensures
        final(kv).inv(),
        final(kv).blocks() == old(kv).blocks(),
        old(kv).reliable() ==> final(kv).reliable(),
        old(kv).roomy() ==> final(kv).roomy(),
        answers(
            r,
            |e: (u64, Meta)| e,
            entry_at(old(kv).blocks(), path_view(parts@)),
            old(kv).reliable(),
        ),
{
    let (tree, name) = match read_tree_name_from_path(kv, parts) {
        Ok(found) => found,
        Err(e) => {
            return Err(e);
        },
    };
    tree.find(name.as_slice())
}

/// Reads the bytes of the file at a path; an entry that is no file is denied.
pub fn read_blob_by_path<K: IntKv>(kv: &mut K, parts: &Vec<PathPart>) -> (r: Result<
    Vec<u8>,
    KvError,
>)
    requires
        old(kv).inv(),
    ensures
        final(kv).inv(),
        final(kv).blocks() == old(kv).blocks(),
        old(kv).reliable() ==> final(kv).reliable(),
        old(kv).roomy() ==> final(kv).roomy(),
        answers(
            r,
            |b: Vec<u8>| b@,
            file_at(old(kv).blocks(), path_view(parts@)),
            old(kv).reliable(),
        ),
{
    let (id, meta) = match read_id_meta_by_path(kv, parts) {
        Ok(entry) => entry,
        Err(e) => {
            return Err(e);
        },
    };
    if !meta.is_file() {
        return Err(KvError::PermissionDenied);
    }
    read_blob_by_index(kv, id)
}

/// Reads the bytes of the file in block `index`.
pub fn read_blob_by_index<K: IntKv>(kv: &mut K, index: u64) -> (r: Result<Vec<u8>, KvError>)
    requires
        old(kv).inv(),
    ensures
        final(kv).inv(),
        final(kv).blocks() == old(kv).blocks(),
        old(kv).reliable() ==> final(kv).reliable(),
        old(kv).roomy() ==> final(kv).roomy(),
        r matches Ok(b) ==> index <= usize::MAX && old(kv).blocks().contains_key(index as usize)
            && b@ == old(kv).blocks()[index as usize],
        index > usize::MAX || !old(kv).blocks().contains_key(index as usize) ==> fails_with(
            r,
            KvError::NotFound,
        ),
        old(kv).reliable() && index <= usize::MAX && old(kv).blocks().contains_key(index as usize)
            ==> r is Ok,
{
    if index > usize::MAX as u64 {
        return Err(KvError::NotFound);
    }
    kv.read(index as usize)
}

/// A block number other than that of the root directory that holds no
/// block. Numbers are drawn at random from the 32-bit numbers; when
/// `RANDOM_DRAWS` draws in a row are taken, the numbers are tried in turn,
/// so that a free one is found if there is one.
pub fn find_free_index<K: IntKv>(kv: &mut K) -> (r: Result<usize, KvError>)
    requires
        old(kv).inv(),
    ensures
        final(kv).inv(),
        final(kv).blocks() == old(kv).blocks(),
        old(kv).reliable() ==> final(kv).reliable(),
        old(kv).roomy() ==> final(kv).roomy(),
        r matches Ok(i) ==> 0 < i <= u32::MAX && !old(kv).blocks().contains_key(i),
        old(kv).reliable() ==> r is Ok || fails_with(r, KvError::WriteZero),
        old(kv).reliable() && r is Err ==> forall|i: usize|
            0 < i <= u32::MAX ==> #[trigger] old(kv).blocks().contains_key(i),
{
    let mut draws: u32 = 0;
    while draws < RANDOM_DRAWS
        invariant
            kv.inv(),
            kv.blocks() == old(kv).blocks(),
            old(kv).reliable() ==> kv.reliable(),
            old(kv).roomy() ==> kv.roomy(),
        decreases RANDOM_DRAWS - draws,
    {
        let i = random_u32();
        if i != 0 {
            match kv.has(i as usize) {
                Ok(false) => {
                    return Ok(i as usize);
                },
                Ok(true) => {},
                Err(e) => {
                    return Err(e);
                },
            }
        }
        draws = draws + 1;
    }
    let mut i: u32 = 1;
    loop
        invariant
            i >= 1,
            kv.inv(),
            kv.blocks() == old(kv).blocks(),
            old(kv).reliable() ==> kv.reliable(),
            old(kv).roomy() ==> kv.roomy(),
            forall|j: usize| 0 < j < i ==> #[trigger] old(kv).blocks().contains_key(j),
        decreases u32::MAX - i,
    {
        match kv.has(i as usize) {
            Ok(false) => {
                return Ok(i as usize);
            },
            Ok(true) => {},
            Err(e) => {
                return Err(e);
            },
        }
        if i == u32::MAX {
            return Err(KvError::WriteZero);
        }
        i = i + 1;
    }
}

/// Writes `data` to a block that holds none, and names the block.
pub fn create_blob<K: IntKv>(kv: &mut K, data: Vec<u8>) -> (r: Result<usize, KvError>)
    requires
        old(kv).inv(),
    ensures
        final(kv).inv(),
        old(kv).reliable() && r is Ok ==> final(kv).reliable(),
        old(kv).roomy() ==> final(kv).roomy(),
        r matches Ok(i) ==> 0 < i <= u32::MAX && !old(kv).blocks().contains_key(i) && final(kv).blocks() == old(kv).blocks().insert(i, data@),
        forall|j: usize| #[trigger]
            old(kv).blocks().contains_key(j) ==> final(kv).blocks().contains_key(j) && final(kv).blocks()[j] == old(kv).blocks()[j],
        old(kv).reliable() ==> r is Ok || fails_with(r, KvError::WriteZero),
        old(kv).reliable() && old(kv).roomy() && r is Err ==> all_taken(old(kv).blocks()),
{
    let ghost blocks = kv.blocks();
    let index = match find_free_index(kv) {
        Ok(i) => i,
        Err(e) => {
            return Err(e);
        },
    };
    match kv.write(index, data) {
        Ok(()) => Ok(index),
        Err(e) => {
            proof {
                crate::kv::lemma_same_elsewhere(blocks, kv.blocks(), index);
            }
            Err(e)
        },
    }
}

/// Writes the directory to its block.
pub fn write_tree<K: IntKv>(kv: &mut K, tree: &Tree) -> (r: Result<(), KvError>)
    requires
        old(kv).inv(),
        tree.wf(),
        tree.index <= usize::MAX,
    ensures
        final(kv).inv(),
        old(kv).reliable() && r is Ok ==> final(kv).reliable(),
        old(kv).roomy() ==> final(kv).roomy(),
        r is Ok ==> final(kv).blocks() == old(kv).blocks().insert(
            tree.index as usize,
            tree_bytes(tree@),
        ) && tree_at(final(kv).blocks(), tree.index) == Ok::<TreeView, KvError>(tree.entries()),
        r is Err ==> final(kv).blocks().remove(tree.index as usize) == old(kv).blocks().remove(
            tree.index as usize,
        ),
        old(kv).reliable() ==> r is Ok || fails_with(r, KvError::WriteZero),
        old(kv).reliable() && old(kv).roomy() ==> r is Ok,
{
    let bytes = tree.encode();
    let count = tree.len();
    proof {
        assert(tree@.len() <= usize::MAX);
        lemma_parse_tree(tree@);
        crate::names::lemma_gathered_sorted(tree@);
    }
    kv.write(tree.index as usize, bytes)
}

/// What a `put` finds: the directory above the file with its block,
/// the name, the entry that is there, and the bytes that are kept.
pub struct PutPlan {
    pub dir: u64,
    pub tree: TreeView,
    pub name: Seq<u8>,
    pub existing: Option<(u64, Meta)>,
    pub kept: Seq<u8>,
}

/// What a `put` at `start` must find: where `start` is not 0, a file of
/// at least `start` bytes, whose first `start` bytes are kept; a name in a
/// directory; and under the name a file, or nothing.
pub open spec fn put_check(blocks: Map<usize, Seq<u8>>, parts: Seq<PartView>, start: u64) -> Result<
    PutPlan,
    KvError,
> {
    let kept: Result<Seq<u8>, KvError> = if start > 0 {
        match file_at(blocks, parts) {
            Err(e) => Err(e),
            Ok(bytes) => if bytes.len() < start {
                Err(KvError::PermissionDenied)
            } else {
                Ok(bytes.take(start as int))
            },
        }
    } else {
        Ok(Seq::empty())
    };
    match kept {
        Err(e) => Err(e),
        Ok(kept) => match parent_and_name(blocks, parts) {
            Err(e) => Err(e),
            Ok((tree, name)) => {
                if !tree.1.contains_key(name) {
                    Ok(PutPlan { dir: tree.0, tree: tree.1, name, existing: None, kept })
                } else if tree.1[name].1.mode != MODE_FILE {
                    Err(KvError::PermissionDenied)
                } else if tree.1[name].0 > usize::MAX {
                    Err(KvError::LocalError)
                } else {
                    Ok(
                        PutPlan {
                            dir: tree.0,
                            tree: tree.1,
                            name,
                            existing: Some(tree.1[name]),
                            kept,
                        },
                    )
                }
            },
        },
    }
}

/// What a `put` has done: the file holds the kept bytes and the input,
/// in the block it had or in one that held nothing; its entry names the
/// block, the new length and the time; no other block is changed.
pub open spec fn put_done(
    before: Map<usize, Seq<u8>>,
    after: Map<usize, Seq<u8>>,
    plan: PutPlan,
    input: Seq<u8>,
    now: Timestamp,
) -> bool {
    exists|blob: usize| #[trigger]
        put_done_at(before, after, plan, input, now, blob)
}

/// What a `put` has done, with the block of the file.
pub open spec fn put_done_at(
    before: Map<usize, Seq<u8>>,
    after: Map<usize, Seq<u8>>,
    plan: PutPlan,
    input: Seq<u8>,
    now: Timestamp,
    blob: usize,
) -> bool {
    let data = plan.kept + input;
    let mode = if plan.existing is Some {
        plan.existing.unwrap().1.mode
    } else {
        MODE_FILE
    };
    &&& plan.existing is Some ==> blob == plan.existing.unwrap().0
    &&& plan.existing is None ==> 0 < blob <= u32::MAX && !before.contains_key(blob)
    &&& after.contains_key(plan.dir as usize)
    &&& after == before.insert(blob, data).insert(plan.dir as usize, after[plan.dir as usize])
    &&& tree_at(after, plan.dir) == Ok::<TreeView, KvError>(
        plan.tree.insert(
            plan.name,
            (blob as u64, Meta { len: data.len() as u64, mode, mtime: now }),
        ),
    )
}

/// What a `del`, an `rmd` or the source of a `rename` must find: a name
/// in a directory, and an entry under it.
pub open spec fn entry_check(blocks: Map<usize, Seq<u8>>, parts: Seq<PartView>) -> Result<
    ((u64, TreeView), Seq<u8>),
    KvError,
> {
    match parent_and_name(blocks, parts) {
        Err(e) => Err(e),
        Ok((tree, name)) => {
            if tree.1.contains_key(name) {
                Ok((tree, name))
            } else {
                Err(KvError::NotFound)
            }
        },
    }
}

/// What a `del` must find: an entry that is a file, with a block of
/// its own that is there.
pub open spec fn del_check(blocks: Map<usize, Seq<u8>>, parts: Seq<PartView>) -> Result<
    ((u64, TreeView), Seq<u8>),
    KvError,
> {
    match entry_check(blocks, parts) {
        Err(e) => Err(e),
        Ok((tree, name)) => {
            if tree.1[name].1.mode != MODE_FILE {
                Err(KvError::PermissionDenied)
            } else if tree.1[name].0 > usize::MAX || tree.1[name].0 == tree.0 {
                Err(KvError::LocalError)
            } else if !blocks.contains_key(tree.1[name].0 as usize) {
                Err(KvError::NotFound)
            } else {
                Ok((tree, name))
            }
        },
    }
}

/// What a `del` has done: the entry is gone from its directory, and the
/// block of the file from the store; no other block is changed.
pub open spec fn del_done(
    before: Map<usize, Seq<u8>>,
    after: Map<usize, Seq<u8>>,
    found: ((u64, TreeView), Seq<u8>),
) -> bool {
    let dir = found.0.0 as usize;
    let blob = found.0.1[found.1].0 as usize;
    &&& after.contains_key(dir)
    &&& after == before.insert(dir, after[dir]).remove(blob)
    &&& tree_at(after, found.0.0) == Ok::<TreeView, KvError>(found.0.1.remove(found.1))
}

/// The directory that a walk from a directory leads to is the directory
/// in the block that the walk names.
pub proof fn lemma_walk_lands(
    blocks: Map<usize, Seq<u8>>,
    index: u64,
    tree: TreeView,
    parts: Seq<PartView>,
)
    requires
        tree_at(blocks, index) == Ok::<TreeView, KvError>(tree),
        walk(blocks, index, tree, parts) is Ok,
    ensures
        tree_at(blocks, walk(blocks, index, tree, parts)->Ok_0.0) == Ok::<TreeView, KvError>(
            walk(blocks, index, tree, parts)->Ok_0.1,
        ),
    decreases parts.len(),
{
    if parts.len() > 0 {
        match parts[0] {
            PartView::RootDir => {
                lemma_walk_lands(blocks, index, tree, parts.skip(1));
            },
            PartView::Normal(name) => {
                let next = tree_at(blocks, tree[name].0)->Ok_0;
                lemma_walk_lands(blocks, tree[name].0, next, parts.skip(1));
            },
            _ => {},
        }
    }
}

/// The directory above the last component of a path is the directory in
/// the block that is named with it: the root directory, or a block that
/// is there.
pub proof fn lemma_parent_lands(blocks: Map<usize, Seq<u8>>, parts: Seq<PartView>)
    requires
        parent_and_name(blocks, parts) is Ok,
    ensures
        tree_at(blocks, parent_and_name(blocks, parts)->Ok_0.0.0) == Ok::<TreeView, KvError>(
            parent_and_name(blocks, parts)->Ok_0.0.1,
        ),
        parent_and_name(blocks, parts)->Ok_0.0.0 == 0 || blocks.contains_key(
            parent_and_name(blocks, parts)->Ok_0.0.0 as usize,
        ),
        parent_and_name(blocks, parts)->Ok_0.0.0 <= usize::MAX,
{
    let root = tree_at(blocks, 0)->Ok_0;
    if has_parent(parts) {
        lemma_walk_lands(blocks, 0, root, parts.drop_last());
    } else {
        lemma_walk_lands(blocks, 0, root, Seq::empty());
    }
}

/// What an `mkd` must find: a name in a directory, and nothing under it.
pub open spec fn mkd_check(blocks: Map<usize, Seq<u8>>, parts: Seq<PartView>) -> Result<
    ((u64, TreeView), Seq<u8>),
    KvError,
> {
    match parent_and_name(blocks, parts) {
        Err(e) => Err(e),
        Ok((tree, name)) => {
            if tree.1.contains_key(name) {
                Err(KvError::AlreadyExists)
            } else {
                Ok((tree, name))
            }
        },
    }
}

/// What an `rmd` must find: an entry that is a directory without entries.
pub open spec fn rmd_check(blocks: Map<usize, Seq<u8>>, parts: Seq<PartView>) -> Result<
    ((u64, TreeView), Seq<u8>),
    KvError,
> {
    match entry_check(blocks, parts) {
        Err(e) => Err(e),
        Ok((tree, name)) => {
            if tree.1[name].1.mode != MODE_DIR {
                Err(KvError::PermissionDenied)
            } else {
                match tree_at(blocks, tree.1[name].0) {
                    Err(e) => Err(e),
                    Ok(sub) => {
                        if sub == TreeView::empty() {
                            Ok((tree, name))
                        } else {
                            Err(KvError::PermissionDenied)
                        }
                    },
                }
            }
        },
    }
}

/// What a `rename` must find: the new name in a directory with nothing
/// under it, and an entry under the old name, which is no directory that
/// the new name would lie in.
pub open spec fn rename_check(
    blocks: Map<usize, Seq<u8>>,
    from: Seq<PartView>,
    to: Seq<PartView>,
) -> Result<(((u64, TreeView), Seq<u8>), ((u64, TreeView), Seq<u8>)), KvError> {
    match parent_and_name(blocks, from) {
        Err(e) => Err(e),
        Ok(source) => match parent_and_name(blocks, to) {
            Err(e) => Err(e),
            Ok(target) => {
                if target.0.1.contains_key(target.1) {
                    Err(KvError::AlreadyExists)
                } else if !source.0.1.contains_key(source.1) {
                    Err(KvError::NotFound)
                } else if source.0.1[source.1].1.mode == MODE_DIR && parent_within(
                    blocks,
                    to,
                    source.0.1[source.1].0,
                ) {
                    Err(KvError::PermissionDenied)
                } else {
                    Ok((source, target))
                }
            },
        },
    }
}

/// The entries of a listing as the contracts see them.
pub open spec fn listing_view(list: Seq<(Vec<u8>, Meta)>) -> Seq<(Seq<u8>, Meta)> {
    Seq::new(list.len(), |i: int| (list[i].0@, list[i].1))
}

/// A store of files and directories over a block store.
pub struct IntKvFtpFs<K: IntKv> {
    /// The block store.
    pub kv: K,
    /// The number of the flush that was asked for last.
    pub flush_timer_id: u64,
}

impl<K: IntKv> IntKvFtpFs<K> {
    /// A store of files and directories over `kv`.
    pub fn new(kv: K) -> (fs: Self)
        requires
            kv.inv(),
        ensures
            fs.kv == kv,
            fs.flush_timer_id == 0,
    {
        IntKvFtpFs { kv, flush_timer_id: 0 }
    }

    /// The features on offer: a transfer can start inside a file.
    pub fn supported_features(&self) -> (bits: u32)
        ensures
            bits == 1,
    {
        1
    }

    /// Asks for a flush after the delay, and gives the number of the
    /// request. A request is void once a later one was made.
    pub fn schedule_flush(&mut self) -> (token: u64)
        ensures
            final(self).kv == old(self).kv,
            token == old(self).flush_timer_id.wrapping_add(1),
            final(self).flush_timer_id == token,
    {
        self.flush_timer_id = self.flush_timer_id.wrapping_add(1);
        self.flush_timer_id
    }

    /// Whether the request with the number `token` is the last one made,
    /// so that its flush is to run when its delay is over.
    pub fn flush_is_due(&self, token: u64) -> (due: bool)
        ensures
            due == (token == self.flush_timer_id),
    {
        token == self.flush_timer_id
    }

    /// Has the block store persist every change: after a flush that
    /// succeeds nothing waits for a flush there.
    pub fn flush(&mut self) -> (r: Result<(), KvError>)
        requires
            old(self).kv.inv(),
        ensures
            final(self).kv.inv(),
            final(self).kv.blocks() == old(self).kv.blocks(),
            final(self).flush_timer_id == old(self).flush_timer_id,
            r is Ok ==> final(self).kv.persisted(),
            old(self).kv.reliable() && r is Ok ==> final(self).kv.reliable(),
            old(self).kv.roomy() ==> final(self).kv.roomy(),
            old(self).kv.reliable() ==> r is Ok || fails_with(r, KvError::WriteZero),
            old(self).kv.reliable() && old(self).kv.roomy() ==> r is Ok,
    {
        self.kv.flush()
    }

    /// The metadata of the entry at `path`.
    pub fn metadata(&mut self, path: &Vec<PathPart>) -> (r: Result<Meta, KvError>)
        requires
            old(self).kv.inv(),
        ensures
            final(self).kv.inv(),
            final(self).kv.blocks() == old(self).kv.blocks(),
            final(self).flush_timer_id == old(self).flush_timer_id,
            old(self).kv.reliable() ==> final(self).kv.reliable(),
            old(self).kv.roomy() ==> final(self).kv.roomy(),
            answers(
                r,
                |m: Meta| m,
                match entry_at(old(self).kv.blocks(), path_view(path@)) {
                    Ok(e) => Ok(e.1),
                    Err(e) => Err(e),
                },
                old(self).kv.reliable(),
            ),
    {
        match read_id_meta_by_path(&mut self.kv, path) {
            Ok(entry) => Ok(entry.1),
            Err(e) => Err(e),
        }
    }

    /// The entries of the directory at `path`, in the order of their
    /// names: each name with its metadata.
    pub fn list(&mut self, path: &Vec<PathPart>) -> (r: Result<Vec<(Vec<u8>, Meta)>, KvError>)
        requires
            old(self).kv.inv(),
        ensures
            final(self).kv.inv(),
            final(self).kv.blocks() == old(self).kv.blocks(),
            final(self).flush_timer_id == old(self).flush_timer_id,
            old(self).kv.reliable() ==> final(self).kv.reliable(),
            old(self).kv.roomy() ==> final(self).kv.roomy(),
            r matches Ok(list) ==> crate::names::names_sorted(listing_view(list@)),
            answers(
                r,
                |list: Vec<(Vec<u8>, Meta)>| crate::names::name_map(listing_view(list@)),
                match dir_at(old(self).kv.blocks(), path_view(path@)) {
                    Ok(tree) => Ok(tree.1.map_values(|e: (u64, Meta)| e.1)),
                    Err(e) => Err(e),
                },
                old(self).kv.reliable(),
            ),
    {
        proof {
            assert(path_view(path@).take(path@.len() as int) =~= path_view(path@));
        }
        let tree = match read_tree_by_path(&mut self.kv, path, path.len()) {
            Ok(tree) => tree,
            Err(e) => {
                return Err(e);
            },
        };
        let mut list: Vec<(Vec<u8>, Meta)> = Vec::new();
        let n = tree.len();
        let mut i: usize = 0;
        while i < n
            invariant
                i <= n,
                n == tree@.len(),
                n == tree.items@.len(),
                list@.len() == i,
                forall|k: int|
                    0 <= k < i ==> (#[trigger] list@[k]).0@ == tree@[k].0 && list@[k].1
                        == tree@[k].1.1,
            decreases n - i,
        {
            let item = &tree.items[i];
            list.push((copy_bytes(item.name.as_slice()), item.meta));
            i = i + 1;
        }
        proof {
            lemma_listing(tree@, listing_view(list@));
        }
        Ok(list)
    }

    /// The bytes of the file at `path` from `start_pos` on: none where the
    /// file is not longer than that.
    pub fn get(&mut self, path: &Vec<PathPart>, start_pos: u64) -> (r: Result<Vec<u8>, KvError>)
        requires
            old(self).kv.inv(),
        ensures
            final(self).kv.inv(),
            final(self).kv.blocks() == old(self).kv.blocks(),
            final(self).flush_timer_id == old(self).flush_timer_id,
            old(self).kv.reliable() ==> final(self).kv.reliable(),
            old(self).kv.roomy() ==> final(self).kv.roomy(),
            answers(
                r,
                |b: Vec<u8>| b@,
                match file_at(old(self).kv.blocks(), path_view(path@)) {
                    Ok(bytes) => Ok(
                        if bytes.len() <= start_pos {
                            Seq::empty()
                        } else {
                            bytes.skip(start_pos as int)
                        },
                    ),
                    Err(e) => Err(e),
                },
                old(self).kv.reliable(),
            ),
    {
        let blob = match read_blob_by_path(&mut self.kv, path) {
            Ok(blob) => blob,
            Err(e) => {
                return Err(e);
            },
        };
        if blob.len() as u64 <= start_pos {
            Ok(Vec::new())
        } else {
            let rest = copy_range(blob.as_slice(), start_pos as usize, blob.len());
            assert(rest@ =~= blob@.skip(start_pos as int));
            Ok(rest)
        }
    }

    /// Changes the working directory: succeeds where `path` leads to a directory.
    pub fn cwd(&mut self, path: &Vec<PathPart>) -> (r: Result<(), KvError>)
        requires
            old(self).kv.inv(),
        ensures
            final(self).kv.inv(),
            final(self).kv.blocks() == old(self).kv.blocks(),
            final(self).flush_timer_id == old(self).flush_timer_id,
            old(self).kv.reliable() ==> final(self).kv.reliable(),
            old(self).kv.roomy() ==> final(self).kv.roomy(),
            r is Ok ==> dir_at(old(self).kv.blocks(), path_view(path@)) is Ok,
            old(self).kv.reliable() ==> match dir_at(old(self).kv.blocks(), path_view(path@)) {
                Ok(_) => r is Ok,
                Err(e) => r is Err && r->Err_0 == e,
            },
    {
        proof {
            assert(path_view(path@).take(path@.len() as int) =~= path_view(path@));
        }
        match read_tree_by_path(&mut self.kv, path, path.len()) {
            Ok(_) => Ok(()),
            Err(e) => Err(e),
        }
    }

    /// Writes `input` to the file at `path` from `start_pos` on, at the
    /// time `now`: the file then holds its first `start_pos` bytes and the
    /// input. A file that is not there is made. Returns the length of the
    /// input. An entry that is no file, or a start beyond the end of the
    /// file, is denied.
    pub fn put_at(
        &mut self,
        input: &[u8],
        path: &Vec<PathPart>,
        start_pos: u64,
        now: Timestamp,
    ) -> (r: Result<u64, KvError>)
        requires
            old(self).kv.inv(),
        ensures
            final(self).kv.inv(),
            old(self).kv.reliable() && r is Ok ==> final(self).kv.reliable(),
            old(self).kv.roomy() ==> final(self).kv.roomy(),
            r matches Ok(n) ==> n == input@.len() && put_check(
                old(self).kv.blocks(),
                path_view(path@),
                start_pos,
            ) is Ok && put_done(
                old(self).kv.blocks(),
                final(self).kv.blocks(),
                put_check(old(self).kv.blocks(), path_view(path@), start_pos)->Ok_0,
                input@,
                now,
            ),
            old(self).kv.reliable() && old(self).kv.roomy() && put_check(
                old(self).kv.blocks(),
                path_view(path@),
                start_pos,
            ) is Ok && r is Err ==> all_taken(old(self).kv.blocks()),
            old(self).kv.reliable() ==> match put_check(
                old(self).kv.blocks(),
                path_view(path@),
                start_pos,
            ) {
                Ok(_) => r is Ok || fails_with(r, KvError::WriteZero),
                Err(e) => r is Err && r->Err_0 == e && final(self).kv.blocks() == old(self).kv.blocks(),
            },
    {
        let ghost blocks = self.kv.blocks();
        let mut buf: Vec<u8> = Vec::new();
        if start_pos > 0 {
            let blob = match read_blob_by_path(&mut self.kv, path) {
                Ok(blob) => blob,
                Err(e) => {
                    return Err(e);
                },
            };
            if (blob.len() as u64) < start_pos {
                return Err(KvError::PermissionDenied);
            }
            put_range(&mut buf, blob.as_slice(), 0, start_pos as usize);
            assert(buf@ =~= blob@.take(start_pos as int));
        }
        let ghost kept = buf@;
        put_range(&mut buf, input, 0, input.len());
        assert(buf@ =~= kept + input@) by {
            assert(input@.subrange(0, input@.len() as int) =~= input@);
        }
        let written = input.len() as u64;
        let ghost data = buf@;
        let size = buf.len() as u64;
        let (mut tree, name) = match read_tree_name_from_path(&mut self.kv, path) {
            Ok(found) => found,
            Err(e) => {
                return Err(e);
            },
        };
        let ghost before = tree.entries();
        let entry: (u64, Meta) = match tree.find(name.as_slice()) {
            Ok((index, meta)) => {
                if !meta.is_file() {
                    return Err(KvError::PermissionDenied);
                }
                if index > usize::MAX as u64 {
                    return Err(KvError::LocalError);
                }
                match self.kv.write(index as usize, buf) {
                    Ok(()) => {},
                    Err(e) => {
                        return Err(e);
                    },
                }
                (index, Meta { len: size, mode: meta.mode, mtime: now })
            },
            Err(_) => {
                let index = match create_blob(&mut self.kv, buf) {
                    Ok(index) => index,
                    Err(e) => {
                        return Err(e);
                    },
                };
                (index as u64, Meta::file_at(size, now))
            },
        };
        let ghost middle = self.kv.blocks();
        tree.insert(name.as_slice(), entry.0, entry.1);
        match write_tree(&mut self.kv, &tree) {
            Ok(()) => {},
            Err(e) => {
                return Err(e);
            },
        }
        proof {
            let plan = put_check(blocks, path_view(path@), start_pos)->Ok_0;
            let after = self.kv.blocks();
            assert(after =~= blocks.insert(entry.0 as usize, data).insert(
                tree.index as usize,
                after[tree.index as usize],
            ));
            assert(put_done_at(blocks, after, plan, input@, now, entry.0 as usize));
        }
        self.schedule_flush();
        Ok(written)
    }

    /// Writes `input` to the file at `path` from `start_pos` on, now.
    pub fn put(&mut self, input: &[u8], path: &Vec<PathPart>, start_pos: u64) -> (r: Result<
        u64,
        KvError,
    >)
        requires
            old(self).kv.inv(),
        ensures
            final(self).kv.inv(),
            old(self).kv.reliable() && r is Ok ==> final(self).kv.reliable(),
            old(self).kv.roomy() ==> final(self).kv.roomy(),
            r matches Ok(n) ==> n == input@.len() && put_check(
                old(self).kv.blocks(),
                path_view(path@),
                start_pos,
            ) is Ok && exists|now: Timestamp| #[trigger]
                put_done(
                    old(self).kv.blocks(),
                    final(self).kv.blocks(),
                    put_check(old(self).kv.blocks(), path_view(path@), start_pos)->Ok_0,
                    input@,
                    now,
                ),
            old(self).kv.reliable() && old(self).kv.roomy() && put_check(
                old(self).kv.blocks(),
                path_view(path@),
                start_pos,
            ) is Ok && r is Err ==> all_taken(old(self).kv.blocks()),
            old(self).kv.reliable() ==> match put_check(
                old(self).kv.blocks(),
                path_view(path@),
                start_pos,
            ) {
                Ok(_) => r is Ok || fails_with(r, KvError::WriteZero),
                Err(e) => r is Err && r->Err_0 == e && final(self).kv.blocks() == old(self).kv.blocks(),
            },
    {
        let now = Timestamp::now();
        self.put_at(input, path, start_pos, now)
    }

    /// Deletes the file at `path`: its entry and its block. An entry that
    /// is no file is denied.
    pub fn del(&mut self, path: &Vec<PathPart>) -> (r: Result<(), KvError>)
        requires
            old(self).kv.inv(),
        ensures
            final(self).kv.inv(),
            old(self).kv.reliable() && r is Ok ==> final(self).kv.reliable(),
            old(self).kv.roomy() ==> final(self).kv.roomy(),
            r is Ok ==> del_check(old(self).kv.blocks(), path_view(path@)) is Ok && del_done(
                old(self).kv.blocks(),
                final(self).kv.blocks(),
                del_check(old(self).kv.blocks(), path_view(path@))->Ok_0,
            ),
            old(self).kv.reliable() && old(self).kv.roomy() && del_check(
                old(self).kv.blocks(),
                path_view(path@),
            ) is Ok ==> r is Ok,
            old(self).kv.reliable() ==> match del_check(
                old(self).kv.blocks(),
                path_view(path@),
            ) {
                Ok(_) => r is Ok || fails_with(r, KvError::WriteZero),
                Err(e) => r is Err && r->Err_0 == e && final(self).kv.blocks() == old(
                    self,
                ).kv.blocks(),
            },
    {
        let ghost blocks = self.kv.blocks();
        let (mut tree, name) = match read_tree_name_from_path(&mut self.kv, path) {
            Ok(found) => found,
            Err(e) => {
                return Err(e);
            },
        };
        let (id, meta) = match tree.find(name.as_slice()) {
            Ok(entry) => entry,
            Err(e) => {
                return Err(e);
            },
        };
        if !meta.is_file() {
            return Err(KvError::PermissionDenied);
        }
        if id > usize::MAX as u64 || id == tree.index {
            return Err(KvError::LocalError);
        }
        match self.kv.has(id as usize) {
            Ok(true) => {},
            Ok(false) => {
                return Err(KvError::NotFound);
            },
            Err(e) => {
                return Err(e);
            },
        }
        tree.remove(name.as_slice());
        match write_tree(&mut self.kv, &tree) {
            Ok(()) => {},
            Err(e) => {
                return Err(e);
            },
        }
        let ghost middle = self.kv.blocks();
        match self.kv.remove(id as usize) {
            Ok(()) => {},
            Err(e) => {
                return Err(e);
            },
        }
        proof {
            let after = self.kv.blocks();
            let found = del_check(blocks, path_view(path@))->Ok_0;
            lemma_del(blocks, middle, after, found, tree.index as usize, id as usize);
        }
        self.schedule_flush();
        Ok(())
    }

    /// Makes a directory at `path`, at the time `now`. A name that is
    /// taken exists already.
    pub fn mkd_at(&mut self, path: &Vec<PathPart>, now: Timestamp) -> (r: Result<(), KvError>)
        requires
            old(self).kv.inv(),
        ensures
            final(self).kv.inv(),
            old(self).kv.reliable() && r is Ok ==> final(self).kv.reliable(),
            old(self).kv.roomy() ==> final(self).kv.roomy(),
            r is Ok ==> mkd_check(old(self).kv.blocks(), path_view(path@)) is Ok && exists|
                made: usize,
            | #[trigger]
                mkd_done(
                    old(self).kv.blocks(),
                    final(self).kv.blocks(),
                    mkd_check(old(self).kv.blocks(), path_view(path@))->Ok_0,
                    now,
                    made,
                ),
            old(self).kv.reliable() && old(self).kv.roomy() && mkd_check(
                old(self).kv.blocks(),
                path_view(path@),
            ) is Ok && r is Err ==> all_taken(old(self).kv.blocks()),
            old(self).kv.reliable() ==> match mkd_check(
                old(self).kv.blocks(),
                path_view(path@),
            ) {
                Ok(_) => r is Ok || fails_with(r, KvError::WriteZero),
                Err(e) => r is Err && r->Err_0 == e && final(self).kv.blocks() == old(self).kv.blocks(),
            },
    {
        let ghost blocks = self.kv.blocks();
        let (mut tree, name) = match read_tree_name_from_path(&mut self.kv, path) {
            Ok(found) => found,
            Err(e) => {
                return Err(e);
            },
        };
        if tree.has(name.as_slice()) {
            return Err(KvError::AlreadyExists);
        }
        let new_tree = match self.create_tree() {
            Ok(new_tree) => new_tree,
            Err(e) => {
                return Err(e);
            },
        };
        let ghost middle = self.kv.blocks();
        tree.insert(name.as_slice(), new_tree.index, Meta::folder_at(now));
        match write_tree(&mut self.kv, &tree) {
            Ok(()) => {},
            Err(e) => {
                return Err(e);
            },
        }
        proof {
            let after = self.kv.blocks();
            let found = mkd_check(blocks, path_view(path@))->Ok_0;
            assert(after =~= blocks.insert(new_tree.index as usize, after[new_tree.index as usize]).insert(
                tree.index as usize,
                after[tree.index as usize],
            ));
            lemma_parent_lands(blocks, path_view(path@));
            assert(new_tree.index != tree.index);
            assert(after[new_tree.index as usize] == middle[new_tree.index as usize]);
            assert(tree_at(after, new_tree.index) == tree_at(middle, new_tree.index));
            assert(mkd_done(blocks, after, found, now, new_tree.index as usize));
        }
        self.schedule_flush();
        Ok(())
    }

    /// Makes a directory at `path`, now.
    pub fn mkd(&mut self, path: &Vec<PathPart>) -> (r: Result<(), KvError>)
        requires
            old(self).kv.inv(),
        ensures
            final(self).kv.inv(),
            old(self).kv.reliable() && r is Ok ==> final(self).kv.reliable(),
            old(self).kv.roomy() ==> final(self).kv.roomy(),
            r is Ok ==> mkd_check(old(self).kv.blocks(), path_view(path@)) is Ok && exists|
                now: Timestamp,
                made: usize,
            | #[trigger]
                mkd_done(
                    old(self).kv.blocks(),
                    final(self).kv.blocks(),
                    mkd_check(old(self).kv.blocks(), path_view(path@))->Ok_0,
                    now,
                    made,
                ),
            old(self).kv.reliable() && old(self).kv.roomy() && mkd_check(
                old(self).kv.blocks(),
                path_view(path@),
            ) is Ok && r is Err ==> all_taken(old(self).kv.blocks()),
            old(self).kv.reliable() ==> match mkd_check(
                old(self).kv.blocks(),
                path_view(path@),
            ) {
                Ok(_) => r is Ok || fails_with(r, KvError::WriteZero),
                Err(e) => r is Err && r->Err_0 == e && final(self).kv.blocks() == old(self).kv.blocks(),
            },
    {
        let now = Timestamp::now();
        self.mkd_at(path, now)
    }

    /// Writes an empty directory to a block that holds none.
    fn create_tree(&mut self) -> (r: Result<Tree, KvError>)
        requires
            old(self).kv.inv(),
        ensures
            final(self).kv.inv(),
            final(self).flush_timer_id == old(self).flush_timer_id,
            old(self).kv.reliable() && r is Ok ==> final(self).kv.reliable(),
            old(self).kv.roomy() ==> final(self).kv.roomy(),
            old(self).kv.reliable() ==> r is Ok || fails_with(r, KvError::WriteZero),
            old(self).kv.reliable() && old(self).kv.roomy() && r is Err ==> all_taken(
                old(self).kv.blocks(),
            ),
            r matches Ok(tree) ==> {
                &&& tree.wf()
                &&& 0 < tree.index <= u32::MAX
                &&& !old(self).kv.blocks().contains_key(tree.index as usize)
                &&& final(self).kv.blocks() == old(self).kv.blocks().insert(
                    tree.index as usize,
                    final(self).kv.blocks()[tree.index as usize],
                )
                &&& tree_at(final(self).kv.blocks(), tree.index) == Ok::<TreeView, KvError>(
                    TreeView::empty(),
                )
            },
            r is Err ==> forall|j: usize| #[trigger]
                old(self).kv.blocks().contains_key(j) ==> final(self).kv.blocks().contains_key(j)
                    && final(self).kv.blocks()[j] == old(self).kv.blocks()[j],
    {
        let ghost blocks = self.kv.blocks();
        let index = match find_free_index(&mut self.kv) {
            Ok(index) => index,
            Err(e) => {
                return Err(e);
            },
        };
        let tree = Tree::new(index as u64);
        match write_tree(&mut self.kv, &tree) {
            Ok(()) => {
                assert(self.kv.blocks() =~= blocks.insert(index, self.kv.blocks()[index]));
                Ok(tree)
            },
            Err(e) => {
                proof {
                    crate::kv::lemma_same_elsewhere(blocks, self.kv.blocks(), index);
                }
                Err(e)
            },
        }
    }

    /// Removes the directory at `path`: its entry and its block. An
    /// entry that is no directory, or a directory with entries, is denied.
    pub fn rmd(&mut self, path: &Vec<PathPart>) -> (r: Result<(), KvError>)
        requires
            old(self).kv.inv(),
        ensures
            final(self).kv.inv(),
            old(self).kv.reliable() && r is Ok ==> final(self).kv.reliable(),
            old(self).kv.roomy() ==> final(self).kv.roomy(),
            r is Ok ==> rmd_check(old(self).kv.blocks(), path_view(path@)) is Ok && ({
                let found = rmd_check(old(self).kv.blocks(), path_view(path@))->Ok_0;
                let gone = found.0.1[found.1].0;
                let after = final(self).kv.blocks();
                let middle = old(self).kv.blocks().insert(
                    found.0.0 as usize,
                    after[found.0.0 as usize],
                );
                &&& tree_at(middle, found.0.0) == Ok::<TreeView, KvError>(
                    found.0.1.remove(found.1),
                )
                &&& after == (if gone != 0 && gone != found.0.0 {
                    middle.remove(gone as usize)
                } else {
                    middle
                })
            }),
            old(self).kv.reliable() && old(self).kv.roomy() && rmd_check(
                old(self).kv.blocks(),
                path_view(path@),
            ) is Ok ==> r is Ok,
            old(self).kv.reliable() ==> match rmd_check(
                old(self).kv.blocks(),
                path_view(path@),
            ) {
                Ok(_) => r is Ok || fails_with(r, KvError::WriteZero),
                Err(e) => r is Err && r->Err_0 == e && final(self).kv.blocks() == old(self).kv.blocks(),
            },
    {
        let ghost blocks = self.kv.blocks();
        let (mut tree, name) = match read_tree_name_from_path(&mut self.kv, path) {
            Ok(found) => found,
            Err(e) => {
                return Err(e);
            },
        };
        let (index, meta) = match tree.find(name.as_slice()) {
            Ok(entry) => entry,
            Err(e) => {
                return Err(e);
            },
        };
        if !meta.is_dir() {
            return Err(KvError::PermissionDenied);
        }
        let sub = match read_tree_by_id(&mut self.kv, index) {
            Ok(sub) => sub,
            Err(e) => {
                return Err(e);
            },
        };
        if !sub.is_empty() {
            return Err(KvError::PermissionDenied);
        }
        tree.remove(name.as_slice());
        match write_tree(&mut self.kv, &tree) {
            Ok(()) => {},
            Err(e) => {
                return Err(e);
            },
        }
        let ghost middle = self.kv.blocks();
        proof {
            assert(middle =~= blocks.insert(tree.index as usize, middle[tree.index as usize]));
        }
        if index != ROOT_ID && index != tree.index {
            match self.kv.remove(index as usize) {
                Ok(()) => {},
                Err(e) => {
                    return Err(e);
                },
            }
            proof {
                let after = self.kv.blocks();
                assert(after[tree.index as usize] == middle[tree.index as usize]);
                assert(blocks.insert(tree.index as usize, after[tree.index as usize]) =~= middle);
            }
        }
        self.schedule_flush();
        Ok(())
    }

    /// Moves the entry at `from` to `to`. A new name that is taken exists
    /// already; a directory is not moved into itself or into a directory
    /// that lies in it: that is denied.
    pub fn rename(&mut self, from: &Vec<PathPart>, to: &Vec<PathPart>) -> (r: Result<(), KvError>)
        requires
            old(self).kv.inv(),
        ensures
            final(self).kv.inv(),
            old(self).kv.reliable() && r is Ok ==> final(self).kv.reliable(),
            old(self).kv.roomy() ==> final(self).kv.roomy(),
            r is Ok ==> rename_check(old(self).kv.blocks(), path_view(from@), path_view(to@)) is Ok
                && rename_done(
                old(self).kv.blocks(),
                final(self).kv.blocks(),
                rename_check(old(self).kv.blocks(), path_view(from@), path_view(to@))->Ok_0,
            ),
            old(self).kv.reliable() && old(self).kv.roomy() && rename_check(
                old(self).kv.blocks(),
                path_view(from@),
                path_view(to@),
            ) is Ok ==> r is Ok,
            old(self).kv.reliable() ==> match rename_check(
                old(self).kv.blocks(),
                path_view(from@),
                path_view(to@),
            ) {
                Ok(_) => r is Ok || fails_with(r, KvError::WriteZero),
                Err(e) => r is Err && r->Err_0 == e && final(self).kv.blocks() == old(self).kv.blocks(),
            },
    {
        let ghost blocks = self.kv.blocks();
        let (mut from_tree, from_name) = match read_tree_name_from_path(&mut self.kv, from) {
            Ok(found) => found,
            Err(e) => {
                return Err(e);
            },
        };
        let (mut to_tree, to_name) = match read_tree_name_from_path(&mut self.kv, to) {
            Ok(found) => found,
            Err(e) => {
                return Err(e);
            },
        };
        if to_tree.has(to_name.as_slice()) {
            return Err(KvError::AlreadyExists);
        }
        let item = match from_tree.find(from_name.as_slice()) {
            Ok(item) => item,
            Err(e) => {
                return Err(e);
            },
        };
        if item.1.is_dir() {
            let upto = parent_len(to);
            match path_passes(&mut self.kv, to, upto, item.0) {
                Ok(true) => {
                    return Err(KvError::PermissionDenied);
                },
                Ok(false) => {},
                Err(e) => {
                    return Err(e);
                },
            }
        }
        to_tree.insert(to_name.as_slice(), item.0, item.1);
        if to_tree.index == from_tree.index {
            to_tree.remove(from_name.as_slice());
            match write_tree(&mut self.kv, &to_tree) {
                Ok(()) => {},
                Err(e) => {
                    return Err(e);
                },
            }
            proof {
                let after = self.kv.blocks();
                assert(after =~= blocks.insert(to_tree.index as usize, after[to_tree.index as usize]));
                let found = rename_check(blocks, path_view(from@), path_view(to@))->Ok_0;
                lemma_rename(blocks, after, after, found);
            }
        } else {
            match write_tree(&mut self.kv, &to_tree) {
                Ok(()) => {},
                Err(e) => {
                    return Err(e);
                },
            }
            let ghost middle = self.kv.blocks();
            from_tree.remove(from_name.as_slice());
            match write_tree(&mut self.kv, &from_tree) {
                Ok(()) => {},
                Err(e) => {
                    return Err(e);
                },
            }
            proof {
                let after = self.kv.blocks();
                let found = rename_check(blocks, path_view(from@), path_view(to@))->Ok_0;
                assert(middle =~= blocks.insert(
                    to_tree.index as usize,
                    middle[to_tree.index as usize],
                ));
                assert(after =~= middle.insert(
                    from_tree.index as usize,
                    after[from_tree.index as usize],
                ));
                lemma_rename(blocks, middle, after, found);
            }
        }
        self.schedule_flush();
        Ok(())
    }
}

/// The two steps of a `del` together.
proof fn lemma_del(
    before: Map<usize, Seq<u8>>,
    middle: Map<usize, Seq<u8>>,
    after: Map<usize, Seq<u8>>,
    found: ((u64, TreeView), Seq<u8>),
    dir: usize,
    blob: usize,
)
    requires
        dir == found.0.0,
        blob == found.0.1[found.1].0,
        dir != blob,
        middle.contains_key(dir),
        middle == before.insert(dir, middle[dir]),
        tree_at(middle, found.0.0) == Ok::<TreeView, KvError>(found.0.1.remove(found.1)),
        after == middle.remove(blob),
    ensures
        del_done(before, after, found),
{
    assert(after[dir] == middle[dir]);
    assert(after =~= before.insert(dir, after[dir]).remove(blob));
}

/// The steps of a `rename` together.
proof fn lemma_rename(
    before: Map<usize, Seq<u8>>,
    middle: Map<usize, Seq<u8>>,
    after: Map<usize, Seq<u8>>,
    found: (((u64, TreeView), Seq<u8>), ((u64, TreeView), Seq<u8>)),
)
    requires
        found.0.0.0 <= usize::MAX,
        found.1.0.0 <= usize::MAX,
        middle.contains_key(found.1.0.0 as usize),
        middle == before.insert(found.1.0.0 as usize, middle[found.1.0.0 as usize]),
        found.0.0.0 == found.1.0.0 ==> after == middle && tree_at(middle, found.1.0.0) == Ok::<
            TreeView,
            KvError,
        >(found.1.0.1.insert(found.1.1, found.0.0.1[found.0.1]).remove(found.0.1)),
        found.0.0.0 != found.1.0.0 ==> {
            &&& tree_at(middle, found.1.0.0) == Ok::<TreeView, KvError>(
                found.1.0.1.insert(found.1.1, found.0.0.1[found.0.1]),
            )
            &&& after.contains_key(found.0.0.0 as usize)
            &&& after == middle.insert(found.0.0.0 as usize, after[found.0.0.0 as usize])
            &&& tree_at(after, found.0.0.0) == Ok::<TreeView, KvError>(
                found.0.0.1.remove(found.0.1),
            )
        },
    ensures
        rename_done(before, after, found),
{
    let s = found.0.0.0 as usize;
    let t = found.1.0.0 as usize;
    if found.0.0.0 == found.1.0.0 {
        assert(after =~= before.insert(t, after[t]).insert(s, after[s]));
    } else {
        assert(s != t);
        assert(after[t] == middle[t]);
        assert(after =~= before.insert(t, after[t]).insert(s, after[s]));
        assert(tree_at(after, found.1.0.0) == tree_at(middle, found.1.0.0));
    }
}

/// What an `mkd` has done: a block that held nothing holds an empty
/// directory, the directory above has an entry for it, and no other
/// block is changed.
pub open spec fn mkd_done(
    before: Map<usize, Seq<u8>>,
    after: Map<usize, Seq<u8>>,
    found: ((u64, TreeView), Seq<u8>),
    now: Timestamp,
    made: usize,
) -> bool {
    &&& 0 < made <= u32::MAX
    &&& !before.contains_key(made)
    &&& after == before.insert(made, after[made]).insert(
        found.0.0 as usize,
        after[found.0.0 as usize],
    )
    &&& tree_at(after, made as u64) == Ok::<TreeView, KvError>(TreeView::empty())
    &&& tree_at(after, found.0.0) == Ok::<TreeView, KvError>(
        found.0.1.insert(found.1, (made as u64, Meta { len: 0, mode: MODE_DIR, mtime: now })),
    )
}

/// What a `rename` has done: the entry stands under the new name and no
/// longer under the old one; only the blocks of the two directories are
/// changed.
pub open spec fn rename_done(
    before: Map<usize, Seq<u8>>,
    after: Map<usize, Seq<u8>>,
    found: (((u64, TreeView), Seq<u8>), ((u64, TreeView), Seq<u8>)),
) -> bool {
    let source = found.0;
    let target = found.1;
    let entry = source.0.1[source.1];
    &&& after == before.insert(target.0.0 as usize, after[target.0.0 as usize]).insert(
        source.0.0 as usize,
        after[source.0.0 as usize],
    )
    &&& if source.0.0 == target.0.0 {
        tree_at(after, target.0.0) == Ok::<TreeView, KvError>(
            target.0.1.insert(target.1, entry).remove(source.1),
        )
    } else {
        &&& tree_at(after, target.0.0) == Ok::<TreeView, KvError>(
            target.0.1.insert(target.1, entry),
        )
        &&& tree_at(after, source.0.0) == Ok::<TreeView, KvError>(source.0.1.remove(source.1))
    }
}

/// A listing made of the entries of a directory in their order lists
/// each name with its metadata.
pub proof fn lemma_listing(tree: crate::tree::TreeSeq, list: Seq<(Seq<u8>, Meta)>)
    requires
        crate::names::names_sorted(tree),
        list.len() == tree.len(),
        forall|k: int| 0 <= k < list.len() ==> (#[trigger] list[k]).0 == tree[k].0 && list[k].1
            == tree[k].1.1,
    ensures
        crate::names::names_sorted(list),
        crate::names::name_map(list) == crate::names::name_map(tree).map_values(
            |e: (u64, Meta)| e.1,
        ),
{
    let want = crate::names::name_map(tree).map_values(|e: (u64, Meta)| e.1);
    assert(crate::names::names_sorted(list)) by {
        assert forall|i: int, j: int| 0 <= i < j < list.len() implies crate::names::lex_less(
            (#[trigger] list[i]).0,
            (#[trigger] list[j]).0,
        ) by {
            assert(crate::names::lex_less(tree[i].0, tree[j].0));
        }
    }
    assert forall|n: Seq<u8>| crate::names::name_map(list).contains_key(n) == want.contains_key(
        n,
    ) by {
        if crate::names::name_map(list).contains_key(n) {
            let i = choose|i: int| crate::names::named_at(list, n, i);
            assert(crate::names::named_at(tree, n, i));
        }
        if crate::names::name_map(tree).contains_key(n) {
            let i = choose|i: int| crate::names::named_at(tree, n, i);
            assert(crate::names::named_at(list, n, i));
        }
    }
    assert forall|n: Seq<u8>| crate::names::name_map(list).contains_key(n) implies crate::names::name_map(
        list,
    )[n] == want[n] by {
        let i = crate::names::lemma_named_position(list, n);
        crate::names::lemma_named_entry(tree, i);
    }
    assert(crate::names::name_map(list) =~= want);
}

} // verus!
