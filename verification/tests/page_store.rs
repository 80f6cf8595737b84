use rand::RngCore;
use rand::SeedableRng;
use rand_chacha::ChaChaRng;
use std::collections::BTreeMap;
use x79d8::error::KvError;
use x79d8::kv::IntKv;
use x79d8::mem::MemIntKv;
use x79d8::page_store::PageIntKv;

fn rand_id(rng: &mut ChaChaRng, m: &BTreeMap<usize, Vec<u8>>) -> usize {
    let n = (rng.next_u32() as usize) % m.len();
    m.keys().nth(n).cloned().unwrap()
}

fn rand_data(rng: &mut ChaChaRng) -> Vec<u8> {
    let len = (1 << (rng.next_u32() % 18)) as u32;
    let len = (rng.next_u32() % len) as usize;
    let b: u8 = (rng.next_u32() & 255) as u8;
    vec![b; len]
}

fn exercise<F, K>(mut reload_kv: F, n: usize) -> K
where
    F: FnMut(Option<K>) -> K,
    K: IntKv,
{
    let mut kv = reload_kv(None);
    for i in 0..n {
        let data = vec![i as u8; i * 541];
        kv.write(i, data).unwrap();
    }
    for _ in 0..=1 {
        for i in 0..n {
            let data = vec![i as u8; i * 541];
            assert_eq!(kv.read(i).unwrap(), data);
            assert!(kv.has(i).unwrap());
        }
        kv.flush().unwrap();
        kv = reload_kv(Some(kv));
    }

    for i in 0..n {
        kv.remove(i).unwrap();
    }
    for _ in 0..=1 {
        for i in 0..n {
            assert!(!kv.has(i).unwrap());
        }
        kv.flush().unwrap();
        kv = reload_kv(Some(kv));
    }

    let mut rng = ChaChaRng::from_seed(Default::default());
    let mut m: BTreeMap<usize, Vec<u8>> = BTreeMap::new();
    for _ in 0..(n * 10) {
        match rng.next_u32() % 3 {
            0 => {
                if !m.is_empty() {
                    let id = rand_id(&mut rng, &m);
                    kv.remove(id).unwrap();
                    assert!(!kv.has(id).unwrap());
                    m.remove(&id);
                }
            }
            1 => {
                let id = rng.next_u32() as usize;
                let data = rand_data(&mut rng);
                kv.write(id, data.clone()).unwrap();
                assert!(kv.has(id).unwrap());
                m.insert(id, data);
            }
            2 => {
                if !m.is_empty() {
                    let id = rand_id(&mut rng, &m);
                    let data = rand_data(&mut rng);
                    kv.write(id, data.clone()).unwrap();
                    assert!(kv.has(id).unwrap());
                    m.insert(id, data);
                }
            }
            _ => {}
        }
    }
    for _ in 0..=1 {
        for (k, v) in &m {
            let l = kv.read(*k).ok();
            let r = Some(v.clone());
            assert_eq!(l.as_ref().map(|v| v.len()), r.as_ref().map(|v| v.len()), "read key {}", k);
            assert_eq!(l, r);
        }
        kv.flush().unwrap();
        kv = reload_kv(Some(kv));
    }

    kv
}

fn test_page_kv_size(size: u64, n: usize) {
    let mut kv = exercise(
        |kv| kv.unwrap_or_else(|| PageIntKv::new(size, MemIntKv::new()).unwrap()),
        n,
    );
    kv.verify().unwrap();

    let mut orig_kv = Some(kv.kv);
    let mut kv = exercise(
        |kv| {
            kv.unwrap_or_else(|| {
                let kv = orig_kv.take().unwrap();
                PageIntKv::new(size, kv).unwrap()
            })
        },
        n,
    );
    kv.verify().unwrap();
}

#[test]
fn test_page_kv_64() {
    test_page_kv_size(64, 10);
}

#[test]
fn test_page_kv_1024() {
    test_page_kv_size(1024, 100);
}

#[test]
fn test_page_kv_16384() {
    test_page_kv_size(16384, 100);
}

#[test]
fn page_blocks_below_all_have_the_page_size() {
    let mut kv = PageIntKv::new(128, MemIntKv::new()).unwrap();
    kv.write(7, vec![1u8; 1000]).unwrap();
    kv.write(8, vec![2u8; 10]).unwrap();
    kv.write(9, Vec::new()).unwrap();
    kv.flush().unwrap();
    assert!(kv.kv.len() > 8);
    for (_, block) in kv.kv.map.iter() {
        assert_eq!(block.len(), 128);
    }
    assert_eq!(kv.read(7), Ok(vec![1u8; 1000]));
    assert_eq!(kv.read(9), Ok(Vec::new()));
    assert_eq!(kv.kv.len(), kv.meta_pages.len() + kv.data_page_sizes.entries.len());
}

#[test]
fn page_store_is_empty_below_after_all_is_removed() {
    let mut kv = PageIntKv::new(64, MemIntKv::new()).unwrap();
    for i in 0..20usize {
        kv.write(i, vec![i as u8; i * 17]).unwrap();
    }
    kv.flush().unwrap();
    for i in 0..20usize {
        kv.remove(i).unwrap();
    }
    kv.flush().unwrap();
    assert_eq!(kv.kv.len(), 1);
    assert_eq!(kv.kv.map.get(&0).map(|b| b.len()), Some(64));
    assert_eq!(kv.remove(3), Err(KvError::NotFound));
}

#[test]
fn page_write_is_refused_where_a_page_takes_no_byte() {
    let mut kv = PageIntKv::new(32, MemIntKv::new()).unwrap();
    assert_eq!(kv.write(1, vec![1, 2, 3]), Err(KvError::WriteZero));
    assert_eq!(kv.has(1), Ok(false));
    assert_eq!(kv.read(1), Err(KvError::NotFound));
}
