use bincode::Options;
use rand::RngCore;
use rand::SeedableRng;
use rand_chacha::ChaChaRng;
use std::collections::BTreeMap;
use std::path::{Component, Path};
use x79d8::buffered::BufferedIntKv;
use x79d8::enc::EncIntKv;
use x79d8::error::KvError;
use x79d8::ftpfs::{
    find_free_index, read_tree_by_id, read_tree_by_path, IntKvFtpFs, PathPart, ROOT_ID,
    WRITE_DELAY_SECS,
};
use x79d8::kv::IntKv;
use x79d8::mem::MemIntKv;
use x79d8::meta::{Meta, Timestamp, MODE_DIR, MODE_FILE};
use x79d8::page_store::PageIntKv;
use x79d8::tree::Tree;

type Stack = PageIntKv<BufferedIntKv<EncIntKv<MemIntKv>>>;

fn parts(path: &str) -> Vec<PathPart> {
    Path::new(path)
        .components()
        .map(|c| match c {
            Component::Prefix(_) => PathPart::Prefix,
            Component::RootDir => PathPart::RootDir,
            Component::CurDir => PathPart::CurDir,
            Component::ParentDir => PathPart::ParentDir,
            Component::Normal(s) => PathPart::Normal(s.to_str().unwrap().as_bytes().to_vec()),
        })
        .collect()
}

fn stack_over(lower: MemIntKv) -> Stack {
    let rng = ChaChaRng::from_seed([3u8; 32]);
    let enc = EncIntKv::from_key_rng_kv([9u8; 32], rng, lower);
    let buffered = BufferedIntKv::new(enc).with_cache_size_limit(1 << 20);
    PageIntKv::new(1024 - 16, buffered).unwrap()
}

fn lower_of(stack: Stack) -> MemIntKv {
    stack.kv.kv.kv
}

fn at(secs: u64) -> Timestamp {
    Timestamp { secs, nanos: 7 }
}

#[test]
fn nested_directories_hold_a_file() {
    let mut fs = IntKvFtpFs::new(MemIntKv::new());
    fs.mkd(&parts("/a")).unwrap();
    fs.mkd(&parts("/a/b")).unwrap();
    assert_eq!(fs.put(b"payload", &parts("/a/b/f"), 0), Ok(7));
    assert_eq!(fs.get(&parts("/a/b/f"), 0), Ok(b"payload".to_vec()));
    assert_eq!(fs.get(&parts("/a/b/f"), 3), Ok(b"load".to_vec()));
    assert_eq!(fs.get(&parts("/a/b/f"), 7), Ok(Vec::new()));
    assert_eq!(fs.get(&parts("/a/b/f"), 70), Ok(Vec::new()));
    let meta = fs.metadata(&parts("/a/b/f")).unwrap();
    assert_eq!(meta.len(), 7);
    assert!(meta.is_file());
    assert!(!meta.is_dir());
    assert!(!meta.is_symlink());
    assert_eq!(meta.uid(), 0);
    assert_eq!(meta.gid(), 0);
    assert!(fs.metadata(&parts("/a/b")).unwrap().is_dir());
    assert_eq!(fs.cwd(&parts("/a/b")), Ok(()));
    assert_eq!(fs.cwd(&parts("/a/b/f")), Err(KvError::NotFound));
    assert_eq!(fs.cwd(&parts("/a/x")), Err(KvError::NotFound));
    assert_eq!(fs.get(&parts("/a/b"), 0), Err(KvError::PermissionDenied));
}

#[test]
fn put_at_the_end_appends() {
    let mut fs = IntKvFtpFs::new(MemIntKv::new());
    fs.put(b"first", &parts("/f"), 0).unwrap();
    assert_eq!(fs.put(b"second", &parts("/f"), 5), Ok(6));
    assert_eq!(fs.get(&parts("/f"), 0), Ok(b"firstsecond".to_vec()));
    assert_eq!(fs.metadata(&parts("/f")).unwrap().len(), 11);
    // A put inside the file keeps what is before its start only.
    assert_eq!(fs.put(b"X", &parts("/f"), 2), Ok(1));
    assert_eq!(fs.get(&parts("/f"), 0), Ok(b"fiX".to_vec()));
}

#[test]
fn put_beyond_the_end_is_denied() {
    let mut fs = IntKvFtpFs::new(MemIntKv::new());
    fs.put(b"first", &parts("/f"), 0).unwrap();
    assert_eq!(fs.put(b"x", &parts("/f"), 6), Err(KvError::PermissionDenied));
    assert_eq!(fs.get(&parts("/f"), 0), Ok(b"first".to_vec()));
    // A start inside a file that is not there finds no file.
    assert_eq!(fs.put(b"x", &parts("/g"), 1), Err(KvError::NotFound));
    fs.mkd(&parts("/d")).unwrap();
    assert_eq!(fs.put(b"x", &parts("/d"), 0), Err(KvError::PermissionDenied));
}

#[test]
fn rmd_of_a_directory_with_entries_is_denied() {
    let mut fs = IntKvFtpFs::new(MemIntKv::new());
    fs.mkd(&parts("/a")).unwrap();
    fs.put(b"x", &parts("/a/f"), 0).unwrap();
    assert_eq!(fs.rmd(&parts("/a")), Err(KvError::PermissionDenied));
    assert_eq!(fs.rmd(&parts("/a/f")), Err(KvError::PermissionDenied));
    assert_eq!(fs.del(&parts("/a")), Err(KvError::PermissionDenied));
    fs.del(&parts("/a/f")).unwrap();
    assert_eq!(fs.get(&parts("/a/f"), 0), Err(KvError::NotFound));
    let blocks_before = fs.kv.len();
    fs.rmd(&parts("/a")).unwrap();
    // The block of the directory goes with its entry.
    assert_eq!(fs.kv.len(), blocks_before - 1);
    assert_eq!(fs.list(&parts("/")), Ok(Vec::new()));
    assert_eq!(fs.rmd(&parts("/a")), Err(KvError::NotFound));
}

#[test]
fn rename_to_a_taken_name_exists_already() {
    let mut fs = IntKvFtpFs::new(MemIntKv::new());
    fs.mkd(&parts("/a")).unwrap();
    fs.put(b"x", &parts("/a/b"), 0).unwrap();
    assert_eq!(fs.rename(&parts("/a/b"), &parts("/a/c")), Ok(()));
    assert_eq!(fs.rename(&parts("/a/b"), &parts("/a/c")), Err(KvError::AlreadyExists));
    assert_eq!(fs.get(&parts("/a/c"), 0), Ok(b"x".to_vec()));
    assert_eq!(fs.get(&parts("/a/b"), 0), Err(KvError::NotFound));
    assert_eq!(fs.rename(&parts("/a/b"), &parts("/a/d")), Err(KvError::NotFound));
    assert_eq!(fs.mkd(&parts("/a")), Err(KvError::AlreadyExists));
    // To another directory.
    fs.mkd(&parts("/z")).unwrap();
    assert_eq!(fs.rename(&parts("/a/c"), &parts("/z/c")), Ok(()));
    assert_eq!(fs.get(&parts("/z/c"), 0), Ok(b"x".to_vec()));
    assert_eq!(fs.list(&parts("/a")), Ok(Vec::new()));
}

#[test]
fn list_is_in_name_order() {
    let mut fs = IntKvFtpFs::new(MemIntKv::new());
    fs.put_at(b"22", &parts("/b"), 0, at(5)).unwrap();
    fs.mkd_at(&parts("/c"), at(6)).unwrap();
    fs.put_at(b"1", &parts("/a"), 0, at(7)).unwrap();
    fs.put_at(b"", &parts("/ab"), 0, at(8)).unwrap();
    let list = fs.list(&parts("/")).unwrap();
    assert_eq!(
        list,
        vec![
            (b"a".to_vec(), Meta { len: 1, mode: MODE_FILE, mtime: at(7) }),
            (b"ab".to_vec(), Meta { len: 0, mode: MODE_FILE, mtime: at(8) }),
            (b"b".to_vec(), Meta { len: 2, mode: MODE_FILE, mtime: at(5) }),
            (b"c".to_vec(), Meta { len: 0, mode: MODE_DIR, mtime: at(6) }),
        ]
    );
    assert_eq!(fs.list(&parts("/a")), Err(KvError::NotFound));
    assert_eq!(fs.metadata(&parts("/b")).unwrap().modified(), at(5));
    // A put to a file that is there keeps its mode and sets its time.
    fs.put_at(b"333", &parts("/b"), 0, at(9)).unwrap();
    assert_eq!(
        fs.metadata(&parts("/b")),
        Ok(Meta { len: 3, mode: MODE_FILE, mtime: at(9) })
    );
}

#[test]
fn path_components_that_are_no_names_are_not_allowed() {
    let mut fs = IntKvFtpFs::new(MemIntKv::new());
    fs.mkd(&parts("/a")).unwrap();
    assert_eq!(fs.cwd(&parts("/a/../a")), Err(KvError::FileNameNotAllowed));
    assert_eq!(fs.cwd(&parts("./a")), Err(KvError::FileNameNotAllowed));
    assert_eq!(fs.cwd(&parts("/")), Ok(()));
    assert_eq!(fs.cwd(&parts("")), Ok(()));
    assert_eq!(fs.metadata(&parts("/")), Err(KvError::NotFound));
    assert_eq!(fs.metadata(&parts("/a/..")), Err(KvError::NotFound));
    let bad = vec![PathPart::RootDir, PathPart::Normal(vec![0xff, 0xfe])];
    assert_eq!(fs.mkd(&bad), Err(KvError::FileNameNotAllowed));
    assert_eq!(fs.put(b"x", &bad, 0), Err(KvError::FileNameNotAllowed));
    let below_bad = vec![PathPart::RootDir, PathPart::Normal(vec![0xff]), PathPart::Normal(b"f".to_vec())];
    assert_eq!(fs.metadata(&below_bad), Err(KvError::FileNameNotAllowed));
    assert_eq!(fs.metadata(&vec![PathPart::Prefix]), Err(KvError::NotFound));
    assert_eq!(fs.supported_features(), 1);
}

#[test]
fn tree_bytes_are_those_of_bincode() {
    let mut tree = Tree::new(4);
    tree.insert(b"zeta", 77, Meta { len: 5, mode: MODE_FILE, mtime: Timestamp { secs: 1_600_000_000, nanos: 123 } });
    tree.insert(b"alpha", 8, Meta { len: 0, mode: MODE_DIR, mtime: Timestamp { secs: 2, nanos: 999_999_999 } });
    tree.insert("\u{e9}t\u{e9}".as_bytes(), 9, Meta { len: 1, mode: MODE_FILE, mtime: Timestamp { secs: 3, nanos: 0 } });
    let mut map: BTreeMap<String, (u64, (u64, u64, std::time::SystemTime))> = BTreeMap::new();
    let time = |secs: u64, nanos: u32| std::time::UNIX_EPOCH + std::time::Duration::new(secs, nanos);
    map.insert("zeta".to_string(), (77, (5, MODE_FILE, time(1_600_000_000, 123))));
    map.insert("alpha".to_string(), (8, (0, MODE_DIR, time(2, 999_999_999))));
    map.insert("\u{e9}t\u{e9}".to_string(), (9, (1, MODE_FILE, time(3, 0))));
    let expected = bincode::options()
        .with_big_endian()
        .with_fixint_encoding()
        .allow_trailing_bytes()
        .serialize(&map)
        .unwrap();
    assert_eq!(tree.encode(), expected);
    let back = Tree::decode(&expected, 4).unwrap();
    assert_eq!(back.len(), 3);
    assert_eq!(back.find(b"zeta"), Ok((77, Meta { len: 5, mode: MODE_FILE, mtime: Timestamp { secs: 1_600_000_000, nanos: 123 } })));
    assert_eq!(back.find(b"nothing"), Err(KvError::NotFound));
    assert!(back.has(b"alpha"));
    assert!(!back.has(b"alph"));
    assert_eq!(back.encode(), expected);
    assert!(Tree::decode(&expected[..expected.len() - 1], 4).is_err());
    assert_eq!(Tree::decode(&[0, 0, 0, 0, 0, 0, 0, 1, 0, 0, 0, 0, 0, 0, 0, 1, 0xff], 4).err(), Some(KvError::InvalidData));
    assert_eq!(Tree::decode(&[0; 7], 4).err(), Some(KvError::InvalidData));
}

#[test]
fn root_is_empty_where_block_0_is_absent() {
    let mut kv = MemIntKv::new();
    let root = read_tree_by_id(&mut kv, ROOT_ID).unwrap();
    assert!(root.is_empty());
    assert_eq!(root.index, 0);
    assert_eq!(read_tree_by_id(&mut kv, 5).err(), Some(KvError::NotFound));
    kv.write(5, vec![1, 2, 3]).unwrap();
    assert_eq!(read_tree_by_id(&mut kv, 5).err(), Some(KvError::LocalError));
    assert_eq!(read_tree_by_path(&mut kv, &parts("/"), 1).unwrap().index, 0);
    for _ in 0..50 {
        let free = find_free_index(&mut kv).unwrap();
        assert!(free != 0 && free != 5 && free <= u32::MAX as usize);
    }
    assert_eq!(WRITE_DELAY_SECS, 5);
}

#[test]
fn delayed_flush_runs_for_the_last_request_only() {
    let mut fs = IntKvFtpFs::new(MemIntKv::new());
    let first = fs.schedule_flush();
    let second = fs.schedule_flush();
    assert_eq!(first, 1);
    assert_eq!(second, 2);
    assert!(!fs.flush_is_due(first));
    assert!(fs.flush_is_due(second));
    fs.put(b"x", &parts("/f"), 0).unwrap();
    assert!(!fs.flush_is_due(second));
    assert!(fs.flush_is_due(3));
    fs.flush_timer_id = u64::MAX;
    assert_eq!(fs.schedule_flush(), 0);
    assert_eq!(fs.flush(), Ok(()));
}

#[test]
fn a_file_in_a_directory_is_there_after_a_restart() {
    let mut fs = IntKvFtpFs::new(stack_over(MemIntKv::new()));
    fs.mkd(&parts("/d")).unwrap();
    fs.put(b"world", &parts("/d/hello"), 0).unwrap();
    fs.flush().unwrap();
    let lower = lower_of(fs.kv);
    for (_, block) in lower.map.iter() {
        assert_eq!(block.len(), 1024);
    }
    let mut fs = IntKvFtpFs::new(stack_over(lower));
    assert_eq!(fs.get(&parts("/d/hello"), 0), Ok(b"world".to_vec()));
    assert_eq!(fs.list(&parts("/d")).unwrap().len(), 1);
}

#[test]
fn a_large_file_is_stored_in_blocks_of_one_size() {
    let mut rng = ChaChaRng::from_seed([5u8; 32]);
    let mut data = vec![0u8; 3 << 20];
    rng.fill_bytes(&mut data);
    let mut fs = IntKvFtpFs::new(stack_over(MemIntKv::new()));
    assert_eq!(fs.put(&data, &parts("/big"), 0), Ok(3 << 20));
    fs.flush().unwrap();
    let lower = lower_of(fs.kv);
    assert!(lower.len() > (3 << 20) / 1024);
    for (_, block) in lower.map.iter() {
        assert_eq!(block.len(), 1024);
    }
    let mut fs = IntKvFtpFs::new(stack_over(lower));
    assert_eq!(fs.get(&parts("/big"), 0), Ok(data));
}

#[test]
fn block_count_is_that_of_the_recorded_pages() {
    let mut rng = ChaChaRng::from_seed([6u8; 32]);
    let mut fs = IntKvFtpFs::new(stack_over(MemIntKv::new()));
    let mut files: Vec<(String, Vec<u8>)> = Vec::new();
    for i in 0..100 {
        let len = (rng.next_u32() % 4097) as usize;
        let mut data = vec![0u8; len];
        rng.fill_bytes(&mut data);
        let name = format!("/file{}", i);
        fs.put(&data, &parts(&name), 0).unwrap();
        files.push((name, data));
    }
    for (name, _) in files.iter().take(50) {
        fs.del(&parts(name)).unwrap();
    }
    fs.flush().unwrap();
    let recorded = fs.kv.meta_pages.len() + fs.kv.data_page_sizes.entries.len();
    assert_eq!(fs.kv.kv.kv.kv.len(), recorded);
    fs.kv.verify().unwrap();
    let lower = lower_of(fs.kv);
    let mut fs = IntKvFtpFs::new(stack_over(lower));
    for (i, (name, data)) in files.iter().enumerate() {
        if i < 50 {
            assert_eq!(fs.get(&parts(name), 0), Err(KvError::NotFound));
        } else {
            assert_eq!(fs.get(&parts(name), 0).as_ref(), Ok(data));
        }
    }
    assert_eq!(fs.list(&parts("/")).unwrap().len(), 50);
}

#[test]
fn store_stack_holds_blocks_of_the_layers_above() {
    let mut kv = stack_over(MemIntKv::new());
    kv.write(1, vec![1; 3000]).unwrap();
    kv.write(2, Vec::new()).unwrap();
    assert_eq!(kv.read(1), Ok(vec![1; 3000]));
    kv.flush().unwrap();
    kv.remove(1).unwrap();
    kv.flush().unwrap();
    let mut kv = stack_over(lower_of(kv));
    assert_eq!(kv.has(1), Ok(false));
    assert_eq!(kv.read(1), Err(KvError::NotFound));
    assert_eq!(kv.read(2), Ok(Vec::new()));
}

#[test]
fn rename_of_a_directory_into_itself_is_denied() {
    let mut fs = IntKvFtpFs::new(MemIntKv::new());
    fs.mkd(&parts("/a")).unwrap();
    fs.mkd(&parts("/a/b")).unwrap();
    fs.mkd(&parts("/a/b/c")).unwrap();
    fs.put(b"x", &parts("/a/b/f"), 0).unwrap();
    let before = fs.kv.map.clone();
    assert_eq!(fs.rename(&parts("/a"), &parts("/a/b/c/a")), Err(KvError::PermissionDenied));
    assert_eq!(fs.rename(&parts("/a"), &parts("/a/b/d")), Err(KvError::PermissionDenied));
    assert_eq!(fs.rename(&parts("/a"), &parts("/a/d")), Err(KvError::PermissionDenied));
    assert_eq!(fs.rename(&parts("/a/b"), &parts("/a/b/c/d")), Err(KvError::PermissionDenied));
    assert_eq!(fs.kv.map, before);
    // A taken name is told first, and a directory that is not there.
    assert_eq!(fs.rename(&parts("/a"), &parts("/a/b")), Err(KvError::AlreadyExists));
    assert_eq!(fs.rename(&parts("/a"), &parts("/a/zz/d")), Err(KvError::NotFound));
    // A file may go down, and a directory up or aside.
    assert_eq!(fs.rename(&parts("/a/b/f"), &parts("/a/b/c/f")), Ok(()));
    assert_eq!(fs.rename(&parts("/a/b/c"), &parts("/c")), Ok(()));
    assert_eq!(fs.rename(&parts("/a/b"), &parts("/c/b")), Ok(()));
    assert_eq!(fs.rename(&parts("/a"), &parts("/c/b/a")), Ok(()));
    assert_eq!(fs.get(&parts("/c/f"), 0), Ok(b"x".to_vec()));
    assert_eq!(fs.list(&parts("/c/b/a")), Ok(Vec::new()));
    assert_eq!(fs.list(&parts("/")).map(|l| l.len()), Ok(1));
}
