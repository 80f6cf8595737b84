use rand::RngCore;
use rand::SeedableRng;
use rand_chacha::ChaChaRng;
use std::collections::BTreeMap;
use x79d8::error::KvError;
use x79d8::kv::IntKv;
use x79d8::buffered::{BufferedIntKv, CacheEntry};
use x79d8::mem::MemIntKv;

fn rand_id(rng: &mut ChaChaRng, m: &BTreeMap<usize, Vec<u8>>) -> usize {
    let n = (rng.next_u32() as usize) % m.len();
    m.keys().nth(n).cloned().unwrap()
}

fn rand_data(rng: &mut ChaChaRng) -> Vec<u8> {
    let len = (1 << (rng.next_u32() % 18)) as u32;
    let len = (rng.next_u32() % len) as usize;
    let b: u8 = (rng.next_u32() & 255) as u8;
    vec![b; len]
}

fn exercise<F, K>(mut reload_kv: F, n: usize) -> K
where
    F: FnMut(Option<K>) -> K,
    K: IntKv,
{
    let mut kv = reload_kv(None);
    for i in 0..n {
        let data = vec![i as u8; i * 541];
        kv.write(i, data).unwrap();
    }
    for _ in 0..=1 {
        for i in 0..n {
            let data = vec![i as u8; i * 541];
            assert_eq!(kv.read(i).unwrap(), data);
            assert!(kv.has(i).unwrap());
        }
        kv.flush().unwrap();
        kv = reload_kv(Some(kv));
    }

    for i in 0..n {
        kv.remove(i).unwrap();
    }
    for _ in 0..=1 {
        for i in 0..n {
            assert!(!kv.has(i).unwrap());
        }
        kv.flush().unwrap();
        kv = reload_kv(Some(kv));
    }

    let mut rng = ChaChaRng::from_seed(Default::default());
    let mut m: BTreeMap<usize, Vec<u8>> = BTreeMap::new();
    for _ in 0..(n * 10) {
        match rng.next_u32() % 3 {
            0 => {
                if !m.is_empty() {
                    let id = rand_id(&mut rng, &m);
                    kv.remove(id).unwrap();
                    assert!(!kv.has(id).unwrap());
                    m.remove(&id);
                }
            }
            1 => {
                let id = rng.next_u32() as usize;
                let data = rand_data(&mut rng);
                kv.write(id, data.clone()).unwrap();
                assert!(kv.has(id).unwrap());
                m.insert(id, data);
            }
            2 => {
                if !m.is_empty() {
                    let id = rand_id(&mut rng, &m);
                    let data = rand_data(&mut rng);
                    kv.write(id, data.clone()).unwrap();
                    assert!(kv.has(id).unwrap());
                    m.insert(id, data);
                }
            }
            _ => {}
        }
    }
    for _ in 0..=1 {
        for (k, v) in &m {
            let l = kv.read(*k).ok();
            let r = Some(v.clone());
            assert_eq!(l.as_ref().map(|v| v.len()), r.as_ref().map(|v| v.len()), "read key {}", k);
            assert_eq!(l, r);
        }
        kv.flush().unwrap();
        kv = reload_kv(Some(kv));
    }

    kv
}

#[test]
fn test_buffered() {
    exercise(|kv| kv.unwrap_or_else(|| BufferedIntKv::new(MemIntKv::new())), 100);
}

#[test]
fn buffered_changes_reach_the_store_below_at_flush() {
    let mut kv = BufferedIntKv::new(MemIntKv::new());
    kv.write(1, vec![1, 2, 3]).unwrap();
    kv.write(2, vec![4]).unwrap();
    assert_eq!(kv.kv.len(), 0);
    assert_eq!(kv.read(1), Ok(vec![1, 2, 3]));
    kv.remove(2).unwrap();
    assert_eq!(kv.has(2), Ok(false));
    assert_eq!(kv.remove(2), Err(KvError::NotFound));
    kv.flush().unwrap();
    assert_eq!(kv.kv.len(), 1);
    assert_eq!(kv.kv.map.get(&1), Some(&vec![1, 2, 3]));
    assert_eq!(kv.changes.entries.len(), 0);
    // A fresh layer over the same store holds the same blocks.
    let mut again = BufferedIntKv::new(kv.kv);
    assert_eq!(again.read(1), Ok(vec![1, 2, 3]));
    assert_eq!(again.has(2), Ok(false));
    assert_eq!(again.read(2), Err(KvError::NotFound));
}

#[test]
fn buffered_cache_forgets_bytes_beyond_its_bound() {
    let mut lower = MemIntKv::new();
    lower.write(1, vec![1u8; 6]).unwrap();
    lower.write(2, vec![2u8; 6]).unwrap();
    lower.write(3, vec![3u8; 6]).unwrap();
    let mut kv = BufferedIntKv::new(lower).with_cache_size_limit(10);
    assert_eq!(kv.has(9), Ok(false));
    assert_eq!(kv.read(1), Ok(vec![1u8; 6]));
    assert_eq!(kv.cache_size, 6);
    assert_eq!(kv.read(2), Ok(vec![2u8; 6]));
    // 12 bytes are more than the bound: the bytes of block 1 are gone,
    // those of block 2 were put in afterwards, the absence of 9 is kept.
    assert_eq!(kv.cache_size, 6);
    let held: Vec<u64> = kv
        .cache
        .entries
        .iter()
        .filter(|e| matches!(e.1, CacheEntry::Data(_)))
        .map(|e| e.0)
        .collect();
    assert_eq!(held, vec![2]);
    assert!(kv.cache.entries.iter().any(|e| e.0 == 9 && matches!(e.1, CacheEntry::Present(false))));
    assert_eq!(kv.read(1), Ok(vec![1u8; 6]));
    assert_eq!(kv.read(3), Ok(vec![3u8; 6]));
}

#[test]
fn buffered_cache_without_bound_keeps_all() {
    let mut lower = MemIntKv::new();
    for i in 0..10usize {
        lower.write(i, vec![i as u8; 100]).unwrap();
    }
    let mut kv = BufferedIntKv::new(lower);
    for i in 0..10usize {
        assert_eq!(kv.read(i), Ok(vec![i as u8; 100]));
    }
    assert_eq!(kv.cache_size, 1000);
    assert_eq!(kv.cache.entries.len(), 10);
}
