use aes::cipher::{AsyncStreamCipher, KeyIvInit};
use blake2::Digest;
use rand::RngCore;
use rand::SeedableRng;
use rand_chacha::ChaChaRng;
use std::collections::BTreeMap;
use x79d8::error::KvError;
use x79d8::kv::IntKv;
use x79d8::enc::{Count, EncIntKv};
use x79d8::mem::MemIntKv;

fn rand_id(rng: &mut ChaChaRng, m: &BTreeMap<usize, Vec<u8>>) -> usize {
    let n = (rng.next_u32() as usize) % m.len();
    m.keys().nth(n).cloned().unwrap()
}

fn rand_data(rng: &mut ChaChaRng) -> Vec<u8> {
    let len = (1 << (rng.next_u32() % 18)) as u32;
    let len = (rng.next_u32() % len) as usize;
    let b: u8 = (rng.next_u32() & 255) as u8;
    vec![b; len]
}

fn exercise<F, K>(mut reload_kv: F, n: usize) -> K
where
    F: FnMut(Option<K>) -> K,
    K: IntKv,
{
    let mut kv = reload_kv(None);
    for i in 0..n {
        let data = vec![i as u8; i * 541];
        kv.write(i, data).unwrap();
    }
    for _ in 0..=1 {
        for i in 0..n {
            let data = vec![i as u8; i * 541];
            assert_eq!(kv.read(i).unwrap(), data);
            assert!(kv.has(i).unwrap());
        }
        kv.flush().unwrap();
        kv = reload_kv(Some(kv));
    }

    for i in 0..n {
        kv.remove(i).unwrap();
    }
    for _ in 0..=1 {
        for i in 0..n {
            assert!(!kv.has(i).unwrap());
        }
        kv.flush().unwrap();
        kv = reload_kv(Some(kv));
    }

    let mut rng = ChaChaRng::from_seed(Default::default());
    let mut m: BTreeMap<usize, Vec<u8>> = BTreeMap::new();
    for _ in 0..(n * 10) {
        match rng.next_u32() % 3 {
            0 => {
                if !m.is_empty() {
                    let id = rand_id(&mut rng, &m);
                    kv.remove(id).unwrap();
                    assert!(!kv.has(id).unwrap());
                    m.remove(&id);
                }
            }
            1 => {
                let id = rng.next_u32() as usize;
                let data = rand_data(&mut rng);
                kv.write(id, data.clone()).unwrap();
                assert!(kv.has(id).unwrap());
                m.insert(id, data);
            }
            2 => {
                if !m.is_empty() {
                    let id = rand_id(&mut rng, &m);
                    let data = rand_data(&mut rng);
                    kv.write(id, data.clone()).unwrap();
                    assert!(kv.has(id).unwrap());
                    m.insert(id, data);
                }
            }
            _ => {}
        }
    }
    for _ in 0..=1 {
        for (k, v) in &m {
            let l = kv.read(*k).ok();
            let r = Some(v.clone());
            assert_eq!(l.as_ref().map(|v| v.len()), r.as_ref().map(|v| v.len()), "read key {}", k);
            assert_eq!(l, r);
        }
        kv.flush().unwrap();
        kv = reload_kv(Some(kv));
    }

    kv
}

fn zero_rng() -> ChaChaRng {
    ChaChaRng::from_seed(Default::default())
}

#[test]
fn test_enc_kv() {
    exercise(
        |opt_kv| {
            opt_kv.unwrap_or_else(|| {
                let kv = MemIntKv::new();
                let key = [0; 32];
                EncIntKv::from_key_rng_kv(key, zero_rng(), kv)
            })
        },
        50,
    );
}

#[test]
fn enc_same_block_written_twice_is_stored_differently() {
    let mut kv = EncIntKv::from_key_rng_kv([7u8; 32], zero_rng(), MemIntKv::new());
    kv.write(42, b"same".to_vec()).unwrap();
    let first = kv.kv.map.get(&42).cloned().unwrap();
    assert_eq!(kv.read(42), Ok(b"same".to_vec()));
    kv.write(42, b"same".to_vec()).unwrap();
    let second = kv.kv.map.get(&42).cloned().unwrap();
    assert_ne!(first, second);
    assert_ne!(first[..16], second[..16]);
    assert_eq!(first.len(), 4 + EncIntKv::<MemIntKv>::iv_header_size());
    assert_eq!(second.len(), 20);
    assert_eq!(kv.read(42), Ok(b"same".to_vec()));
    // Both stored forms hold the block.
    let mut other = EncIntKv::from_key_rng_kv([7u8; 32], zero_rng(), MemIntKv::new());
    other.kv.write(42, first).unwrap();
    assert_eq!(other.read(42), Ok(b"same".to_vec()));
    // The stored bytes are not the block in the clear.
    assert_ne!(second[16..].to_vec(), b"same".to_vec());
}

#[test]
fn enc_altered_count_gives_other_bytes() {
    let mut kv = EncIntKv::from_key_rng_kv([1u8; 32], zero_rng(), MemIntKv::new());
    let data = vec![9u8; 64];
    kv.write(5, data.clone()).unwrap();
    let mut stored = kv.kv.map.get(&5).cloned().unwrap();
    stored[3] ^= 0x10;
    kv.kv.write(5, stored).unwrap();
    let read = kv.read(5).unwrap();
    assert_eq!(read.len(), 64);
    assert_ne!(read, data);
}

#[test]
fn enc_read_of_absent_block_is_not_found() {
    let mut kv = EncIntKv::from_key_rng_kv([1u8; 32], zero_rng(), MemIntKv::new());
    assert_eq!(kv.read(3), Err(KvError::NotFound));
    assert_eq!(kv.has(3), Ok(false));
    assert_eq!(kv.remove(3), Err(KvError::NotFound));
}

#[test]
fn enc_block_below_without_count_is_unexpected_eof() {
    let mut lower = MemIntKv::new();
    lower.write(1, vec![0u8; 15]).unwrap();
    lower.write(2, vec![0u8; 16]).unwrap();
    let mut kv = EncIntKv::from_key_rng_kv([1u8; 32], zero_rng(), lower);
    assert_eq!(kv.read(1), Err(KvError::UnexpectedEof));
    assert_eq!(kv.read(2), Ok(Vec::new()));
    assert_eq!(kv.write(1, vec![1]), Err(KvError::UnexpectedEof));
}

#[test]
fn count_bytes_and_bump() {
    let c = Count(0x0102030405060708, 0xfffffffffffffffe);
    let bytes = c.to_bytes();
    assert_eq!(bytes, vec![1, 2, 3, 4, 5, 6, 7, 8, 255, 255, 255, 255, 255, 255, 255, 254]);
    assert_eq!(Count::read_from(&bytes), Ok(c));
    assert_eq!(Count::read_from(&bytes[..15]), Err(KvError::UnexpectedEof));
    assert_eq!(c.bump_by(4), Count(0x010203040506070d, 0xffffffffffffffff));
    assert_eq!(Count(u64::MAX, u64::MAX).bump_by(2), Count(2, 0));
    let mut rng = zero_rng();
    let d = c.bump(&mut rng);
    assert_eq!(d.1, 0xffffffffffffffff);
    assert_eq!((d.0.wrapping_sub(c.0)) & 1, 1);
}

#[test]
fn enc_stored_form_is_count_and_aes_cfb_under_the_hashed_vector() {
    let key = [0x5au8; 32];
    let mut kv = EncIntKv::from_key_rng_kv(key, zero_rng(), MemIntKv::new());
    let data: Vec<u8> = (0..100u8).collect();
    kv.write(0x1234, data.clone()).unwrap();
    let stored = kv.kv.map.get(&0x1234).cloned().unwrap();
    assert_eq!(stored.len(), 116);
    let count = Count::read_from(&stored).unwrap();
    assert_eq!(stored[..16].to_vec(), count.to_bytes());
    let mut hasher = blake2::Blake2s256::new();
    hasher.update(&key);
    hasher.update(&count.to_bytes());
    hasher.update(&0x1234u64.to_be_bytes());
    let digest = hasher.finalize().to_vec();
    assert_eq!(digest.len(), 32);
    let iv: [u8; 16] = digest[..16].try_into().unwrap();
    let mut expected = data.clone();
    cfb_mode::Encryptor::<aes::Aes256>::new(&key.into(), &iv.into()).encrypt(&mut expected);
    assert_ne!(expected, data);
    assert_eq!(stored[16..].to_vec(), expected);
    let mut back = stored[16..].to_vec();
    cfb_mode::Decryptor::<aes::Aes256>::new(&key.into(), &iv.into()).decrypt(&mut back);
    assert_eq!(back, data);
    assert_eq!(kv.read(0x1234), Ok(data));
    // The same block at another place is stored under another vector.
    kv.write(0x1235, (0..100u8).collect()).unwrap();
    let other = kv.kv.map.get(&0x1235).cloned().unwrap();
    assert_ne!(other[16..], stored[16..]);
}

#[test]
fn enc_layer_seeded_by_the_system_stores_each_time_differently() {
    let data = b"the same block".to_vec();
    let mut one = EncIntKv::from_key_kv([3u8; 32], MemIntKv::new());
    let mut two = EncIntKv::from_key_kv([3u8; 32], MemIntKv::new());
    one.write(1, data.clone()).unwrap();
    two.write(1, data.clone()).unwrap();
    let first = one.kv.map.get(&1).cloned().unwrap();
    let second = two.kv.map.get(&1).cloned().unwrap();
    assert_ne!(first[..16], second[..16]);
    assert_ne!(first, second);
    // Each reads what the other has stored: the key is the same.
    two.kv.write(2, first).unwrap();
    assert_eq!(two.read(2).map(|b| b.len()), Ok(data.len()));
    assert_eq!(one.read(1), Ok(data.clone()));
    assert_eq!(two.read(1), Ok(data));
}

#[test]
fn enc_second_write_bumps_the_count() {
    let mut kv = EncIntKv::from_key_rng_kv([0u8; 32], zero_rng(), MemIntKv::new());
    kv.write(42, b"same".to_vec()).unwrap();
    let first = kv.kv.map.get(&42).cloned().unwrap();
    kv.write(42, b"same".to_vec()).unwrap();
    let second = kv.kv.map.get(&42).cloned().unwrap();
    assert_eq!(first.len(), 20);
    assert_eq!(second.len(), 20);
    let a = Count::read_from(&first).unwrap();
    let b = Count::read_from(&second).unwrap();
    assert_eq!(b.1, a.1.wrapping_add(1));
    assert_eq!(b.0.wrapping_sub(a.0) & 1, 1);
    assert_ne!(first[..16], second[..16]);
    // A block of nothing but a count holds the empty block.
    kv.write(7, Vec::new()).unwrap();
    assert_eq!(kv.kv.map.get(&7).map(|b| b.len()), Some(16));
    assert_eq!(kv.read(7), Ok(Vec::new()));
}
