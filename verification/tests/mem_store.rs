use rand::RngCore;
use rand::SeedableRng;
use rand_chacha::ChaChaRng;
use std::collections::BTreeMap;
use x79d8::error::KvError;
use x79d8::kv::IntKv;
use x79d8::mem::MemIntKv;

fn rand_id(rng: &mut ChaChaRng, m: &BTreeMap<usize, Vec<u8>>) -> usize {
    let n = (rng.next_u32() as usize) % m.len();
    m.keys().nth(n).cloned().unwrap()
}

fn rand_data(rng: &mut ChaChaRng) -> Vec<u8> {
    let len = (1 << (rng.next_u32() % 18)) as u32;
    let len = (rng.next_u32() % len) as usize;
    let b: u8 = (rng.next_u32() & 255) as u8;
    vec![b; len]
}

fn exercise<F, K>(mut reload_kv: F, n: usize) -> K
where
    F: FnMut(Option<K>) -> K,
    K: IntKv,
{
    let mut kv = reload_kv(None);
    for i in 0..n {
        let data = vec![i as u8; i * 541];
        kv.write(i, data).unwrap();
    }
    for _ in 0..=1 {
        for i in 0..n {
            let data = vec![i as u8; i * 541];
            assert_eq!(kv.read(i).unwrap(), data);
            assert!(kv.has(i).unwrap());
        }
        kv.flush().unwrap();
        kv = reload_kv(Some(kv));
    }

    for i in 0..n {
        kv.remove(i).unwrap();
    }
    for _ in 0..=1 {
        for i in 0..n {
            assert!(!kv.has(i).unwrap());
        }
        kv.flush().unwrap();
        kv = reload_kv(Some(kv));
    }

    let mut rng = ChaChaRng::from_seed(Default::default());
    let mut m: BTreeMap<usize, Vec<u8>> = BTreeMap::new();
    for _ in 0..(n * 10) {
        match rng.next_u32() % 3 {
            0 => {
                if !m.is_empty() {
                    let id = rand_id(&mut rng, &m);
                    kv.remove(id).unwrap();
                    assert!(!kv.has(id).unwrap());
                    m.remove(&id);
                }
            }
            1 => {
                let id = rng.next_u32() as usize;
                let data = rand_data(&mut rng);
                kv.write(id, data.clone()).unwrap();
                assert!(kv.has(id).unwrap());
                m.insert(id, data);
            }
            2 => {
                if !m.is_empty() {
                    let id = rand_id(&mut rng, &m);
                    let data = rand_data(&mut rng);
                    kv.write(id, data.clone()).unwrap();
                    assert!(kv.has(id).unwrap());
                    m.insert(id, data);
                }
            }
            _ => {}
        }
    }
    for _ in 0..=1 {
        for (k, v) in &m {
            let l = kv.read(*k).ok();
            let r = Some(v.clone());
            assert_eq!(l.as_ref().map(|v| v.len()), r.as_ref().map(|v| v.len()), "read key {}", k);
            assert_eq!(l, r);
        }
        kv.flush().unwrap();
        kv = reload_kv(Some(kv));
    }

    kv
}

#[test]
fn test_mem_int_kv() {
    exercise(|kv| kv.unwrap_or_else(MemIntKv::new), 200);
}

#[test]
fn mem_remove_of_absent_block_is_not_found() {
    let mut kv = MemIntKv::new();
    assert_eq!(kv.remove(7), Err(KvError::NotFound));
    assert_eq!(kv.len(), 0);
    kv.write(7, vec![1, 2, 3]).unwrap();
    assert_eq!(kv.read(7), Ok(vec![1, 2, 3]));
    assert_eq!(kv.read(8), Err(KvError::NotFound));
    kv.remove(7).unwrap();
    assert_eq!(kv.has(7), Ok(false));
    assert_eq!(kv.read(7), Err(KvError::NotFound));
}
