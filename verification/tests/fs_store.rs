use rand::RngCore;
use rand::SeedableRng;
use rand_chacha::ChaChaRng;
use std::collections::BTreeMap;
use std::cell::RefCell;
use std::collections::HashMap;
use std::rc::Rc;
use x79d8::error::KvError;
use x79d8::fs::{decode_wal, encode_wal, ignore_not_found, FileOp, FsIntKv, State};
use x79d8::sorted_map::SortedMap;
use x79d8::kv::IntKv;

fn rand_id(rng: &mut ChaChaRng, m: &BTreeMap<usize, Vec<u8>>) -> usize {
    let n = (rng.next_u32() as usize) % m.len();
    m.keys().nth(n).cloned().unwrap()
}

fn rand_data(rng: &mut ChaChaRng) -> Vec<u8> {
    let len = (1 << (rng.next_u32() % 18)) as u32;
    let len = (rng.next_u32() % len) as usize;
    let b: u8 = (rng.next_u32() & 255) as u8;
    vec![b; len]
}

fn exercise<F, K>(mut reload_kv: F, n: usize) -> K
where
    F: FnMut(Option<K>) -> K,
    K: IntKv,
{
    let mut kv = reload_kv(None);
    for i in 0..n {
        let data = vec![i as u8; i * 541];
        kv.write(i, data).unwrap();
    }
    for _ in 0..=1 {
        for i in 0..n {
            let data = vec![i as u8; i * 541];
            assert_eq!(kv.read(i).unwrap(), data);
            assert!(kv.has(i).unwrap());
        }
        kv.flush().unwrap();
        kv = reload_kv(Some(kv));
    }

    for i in 0..n {
        kv.remove(i).unwrap();
    }
    for _ in 0..=1 {
        for i in 0..n {
            assert!(!kv.has(i).unwrap());
        }
        kv.flush().unwrap();
        kv = reload_kv(Some(kv));
    }

    let mut rng = ChaChaRng::from_seed(Default::default());
    let mut m: BTreeMap<usize, Vec<u8>> = BTreeMap::new();
    for _ in 0..(n * 10) {
        match rng.next_u32() % 3 {
            0 => {
                if !m.is_empty() {
                    let id = rand_id(&mut rng, &m);
                    kv.remove(id).unwrap();
                    assert!(!kv.has(id).unwrap());
                    m.remove(&id);
                }
            }
            1 => {
                let id = rng.next_u32() as usize;
                let data = rand_data(&mut rng);
                kv.write(id, data.clone()).unwrap();
                assert!(kv.has(id).unwrap());
                m.insert(id, data);
            }
            2 => {
                if !m.is_empty() {
                    let id = rand_id(&mut rng, &m);
                    let data = rand_data(&mut rng);
                    kv.write(id, data.clone()).unwrap();
                    assert!(kv.has(id).unwrap());
                    m.insert(id, data);
                }
            }
            _ => {}
        }
    }
    for _ in 0..=1 {
        for (k, v) in &m {
            let l = kv.read(*k).ok();
            let r = Some(v.clone());
            assert_eq!(l.as_ref().map(|v| v.len()), r.as_ref().map(|v| v.len()), "read key {}", k);
            assert_eq!(l, r);
        }
        kv.flush().unwrap();
        kv = reload_kv(Some(kv));
    }

    kv
}

type Disk = Rc<RefCell<BTreeMap<String, Vec<u8>>>>;

/// A directory in memory, and the store that decides over it.
struct DirKv {
    state: FsIntKv,
    disk: Disk,
}

fn carry_out(disk: &Disk, state: &FsIntKv, op: &FileOp) {
    let mut files = disk.borrow_mut();
    match op {
        FileOp::Sync(i) => {
            assert!(files.contains_key(&state.get_path_for_index_wal(*i, true)));
        }
        FileOp::PublishWal(bytes) => {
            assert!(!files.contains_key(&state.wal_path()));
            files.insert(state.wal_path(), bytes.clone());
        }
        FileOp::Commit(i) => {
            if let Some(bytes) = files.remove(&state.get_path_for_index_wal(*i, true)) {
                files.insert(state.get_path_for_index_wal(*i, false), bytes);
            }
        }
        FileOp::Discard(i) => {
            files.remove(&state.get_path_for_index_wal(*i, false));
        }
        FileOp::RemoveWal => {
            files.remove(&state.wal_path());
        }
    }
}

impl DirKv {
    fn open(disk: &Disk) -> DirKv {
        let state = FsIntKv::new("dir");
        let wal = ignore_not_found(
            disk.borrow().get("wal").cloned().ok_or(KvError::NotFound),
            Vec::new(),
        )
        .unwrap();
        for op in FsIntKv::wal_checkpoint(&wal).unwrap() {
            carry_out(disk, &state, &op);
        }
        DirKv { state, disk: disk.clone() }
    }
}

impl IntKv for DirKv {
    fn read(&mut self, index: usize) -> Result<Vec<u8>, KvError> {
        let name = self.state.read(index)?;
        self.disk.borrow().get(&name).cloned().ok_or(KvError::NotFound)
    }

    fn write(&mut self, index: usize, data: Vec<u8>) -> Result<(), KvError> {
        let name = self.state.write(index);
        self.disk.borrow_mut().insert(name, data);
        Ok(())
    }

    fn remove(&mut self, index: usize) -> Result<(), KvError> {
        let on_disk = self.disk.borrow().contains_key(&self.state.get_path_for_index_wal(index, false));
        if let Some(pending) = self.state.remove(index, on_disk)? {
            self.disk.borrow_mut().remove(&pending);
        }
        Ok(())
    }

    fn has(&mut self, index: usize) -> Result<bool, KvError> {
        match self.state.has(index) {
            Some(b) => Ok(b),
            None => Ok(self.disk.borrow().contains_key(&self.state.get_path_for_index(index))),
        }
    }

    fn flush(&mut self) -> Result<(), KvError> {
        for op in self.state.flush_wal() {
            carry_out(&self.disk, &self.state, &op);
        }
        self.state.flush();
        Ok(())
    }
}

#[test]
fn test_fsint_kv() {
    let disk: Disk = Rc::new(RefCell::new(BTreeMap::new()));
    exercise(|_| DirKv::open(&disk), 10);
    assert!(!disk.borrow().contains_key("wal"));
    assert!(disk.borrow().keys().all(|name| !name.ends_with('p')));
}

#[test]
fn file_names_are_decimal() {
    let kv = FsIntKv::new("somewhere");
    assert_eq!(kv.dir, "somewhere");
    assert_eq!(kv.get_path_for_index_wal(0, false), "0");
    assert_eq!(kv.get_path_for_index_wal(7, true), "7p");
    assert_eq!(kv.get_path_for_index_wal(4294967295, false), "4294967295");
    assert_eq!(kv.get_path_for_index_wal(1024, true), "1024p");
    assert_eq!(kv.get_path_for_index_wal(usize::MAX, false), usize::MAX.to_string());
    assert_eq!(kv.wal_path(), "wal");
    let mut kv = kv;
    assert_eq!(kv.get_path_for_index(12), "12");
    assert_eq!(kv.write(12), "12p");
    assert_eq!(kv.get_path_for_index(12), "12p");
    assert_eq!(kv.read(12), Ok("12p".to_string()));
    assert_eq!(kv.has(12), Some(true));
    assert_eq!(kv.has(13), None);
    assert_eq!(kv.remove(12, false), Ok(Some("12p".to_string())));
    assert_eq!(kv.has(12), Some(false));
    assert_eq!(kv.read(12), Err(KvError::NotFound));
    assert_eq!(kv.get_path_for_index(12), "12");
    assert_eq!(kv.remove(12, true), Err(KvError::NotFound));
    assert_eq!(kv.remove(13, false), Err(KvError::NotFound));
    assert_eq!(kv.remove(13, true), Ok(None));
    assert_eq!(kv.has(13), Some(false));
}

#[test]
fn flush_plan_has_four_phases() {
    let mut kv = FsIntKv::new("d");
    assert_eq!(kv.flush_wal(), Vec::new());
    kv.write(5);
    kv.write(3);
    kv.remove(9, true).unwrap();
    let wal = vec![
        3, 0, 0, 0, 0, 0, 0, 0, // three entries
        3, 0, 0, 0, 0, 0, 0, 0, 0, 0, 0, 0, // 3 written
        5, 0, 0, 0, 0, 0, 0, 0, 0, 0, 0, 0, // 5 written
        9, 0, 0, 0, 0, 0, 0, 0, 1, 0, 0, 0, // 9 removed
    ];
    assert_eq!(
        kv.flush_wal(),
        vec![
            FileOp::Sync(3),
            FileOp::Sync(5),
            FileOp::PublishWal(wal.clone()),
            FileOp::Commit(3),
            FileOp::Commit(5),
            FileOp::Discard(9),
            FileOp::RemoveWal,
        ]
    );
    assert_eq!(
        FsIntKv::wal_checkpoint(&wal),
        Ok(vec![FileOp::Commit(3), FileOp::Commit(5), FileOp::Discard(9), FileOp::RemoveWal])
    );
    assert_eq!(FsIntKv::wal_checkpoint(&[]), Ok(Vec::new()));
    assert_eq!(FsIntKv::wal_checkpoint(&wal[..30]), Err(KvError::InvalidData));
    assert_eq!(FsIntKv::wal_checkpoint(&[1, 0, 0, 0, 0, 0, 0, 0, 3, 0, 0, 0, 0, 0, 0, 0, 2, 0, 0, 0]), Err(KvError::InvalidData));
    kv.flush();
    assert_eq!(kv.flush_wal(), Vec::new());
    assert_eq!(kv.has(5), None);
}

#[test]
fn wal_bytes_are_those_of_bincode() {
    let mut one: HashMap<usize, u32> = HashMap::new();
    one.insert(77, 1);
    let mut overlay: SortedMap<State> = SortedMap::new();
    overlay.insert(77, State::Removed);
    assert_eq!(encode_wal(&overlay), bincode::serialize(&one).unwrap());
    let mut other: HashMap<usize, u32> = HashMap::new();
    other.insert(1 << 40, 0);
    let mut overlay: SortedMap<State> = SortedMap::new();
    overlay.insert(1 << 40, State::Modified);
    let bytes = bincode::serialize(&other).unwrap();
    assert_eq!(encode_wal(&overlay), bytes);
    let back = decode_wal(&bytes).unwrap();
    assert_eq!(back.entries, vec![(1 << 40, State::Modified)]);
    assert_eq!(ignore_not_found(Err(KvError::NotFound), 5), Ok(5));
    assert_eq!(ignore_not_found(Err(KvError::Io), 5), Err(KvError::Io));
    assert_eq!(ignore_not_found(Ok(4), 5), Ok(4));
}

fn crash_after(steps_done: usize) {
    let disk: Disk = Rc::new(RefCell::new(BTreeMap::new()));
    let mut kv = DirKv::open(&disk);
    for i in 0..100usize {
        kv.write(i, vec![i as u8; i]).unwrap();
    }
    kv.flush().unwrap();
    for i in 0..50usize {
        kv.remove(i).unwrap();
    }
    for i in 90..100usize {
        kv.write(i, vec![7; 3]).unwrap();
    }
    // The flush is interrupted.
    let plan = kv.state.flush_wal();
    let published = plan.iter().position(|op| matches!(op, FileOp::PublishWal(_))).unwrap();
    assert_eq!(published, 10);
    for op in plan.iter().take(published + 1 + steps_done) {
        carry_out(&disk, &kv.state, op);
    }
    let mut kv = DirKv::open(&disk);
    for i in 0..100usize {
        if i < 50 {
            assert_eq!(kv.has(i), Ok(false));
            assert_eq!(kv.read(i), Err(KvError::NotFound));
        } else if i < 90 {
            assert_eq!(kv.read(i), Ok(vec![i as u8; i]));
        } else {
            assert_eq!(kv.read(i), Ok(vec![7; 3]));
        }
    }
    assert!(!disk.borrow().contains_key("wal"));
    assert_eq!(disk.borrow().len(), 50);
    // Opening once more changes nothing.
    let files = disk.borrow().clone();
    DirKv::open(&disk);
    assert_eq!(*disk.borrow(), files);
}

#[test]
fn crash_before_any_rename_is_recovered() {
    crash_after(0);
}

#[test]
fn crash_in_the_middle_of_the_renames_is_recovered() {
    crash_after(1);
    crash_after(25);
    crash_after(59);
    crash_after(60);
}

#[test]
fn crash_before_the_log_is_published_leaves_the_old_blocks() {
    let disk: Disk = Rc::new(RefCell::new(BTreeMap::new()));
    let mut kv = DirKv::open(&disk);
    kv.write(1, vec![1]).unwrap();
    kv.flush().unwrap();
    kv.write(1, vec![2]).unwrap();
    kv.write(2, vec![3]).unwrap();
    let plan = kv.state.flush_wal();
    carry_out(&disk, &kv.state, &plan[0]);
    let mut kv = DirKv::open(&disk);
    assert_eq!(kv.read(1), Ok(vec![1]));
    assert_eq!(kv.has(2), Ok(false));
}

#[test]
fn log_is_carried_out_in_block_order_whatever_its_order() {
    // Two entries, the later block first: block 9 written, block 3 removed.
    let mut wal: Vec<u8> = Vec::new();
    wal.extend_from_slice(&2u64.to_le_bytes());
    wal.extend_from_slice(&9u64.to_le_bytes());
    wal.extend_from_slice(&0u32.to_le_bytes());
    wal.extend_from_slice(&3u64.to_le_bytes());
    wal.extend_from_slice(&1u32.to_le_bytes());
    let mut sorted: Vec<u8> = Vec::new();
    sorted.extend_from_slice(&2u64.to_le_bytes());
    sorted.extend_from_slice(&3u64.to_le_bytes());
    sorted.extend_from_slice(&1u32.to_le_bytes());
    sorted.extend_from_slice(&9u64.to_le_bytes());
    sorted.extend_from_slice(&0u32.to_le_bytes());
    let steps = FsIntKv::wal_checkpoint(&wal).unwrap();
    assert_eq!(steps, FsIntKv::wal_checkpoint(&sorted).unwrap());
    assert_eq!(steps, vec![FileOp::Discard(3), FileOp::Commit(9), FileOp::RemoveWal]);
    // A store that is new has nothing to flush, and then only what was written.
    let mut kv = FsIntKv::new("dir");
    assert_eq!(kv.flush_wal(), Vec::new());
    kv.write(4);
    assert_eq!(
        kv.flush_wal(),
        vec![
            FileOp::Sync(4),
            FileOp::PublishWal(encode_wal(&kv.overlay)),
            FileOp::Commit(4),
            FileOp::RemoveWal
        ]
    );
}
