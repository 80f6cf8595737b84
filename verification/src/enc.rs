//! The encryption layer: each block is stored as a count in the clear
//! followed by the block under AES-256 in CFB mode. The count changes with
//! every write, and with it the initialization vector.
use crate::bytes::{
    be64, copy_range, from_be64, get_be64, lemma_be64_round_trip, put_be64, put_range,
};
use crate::error::{fails_with, KvError};
use crate::kv::{IntKv, lemma_same_elsewhere};
use aes::cipher::AsyncStreamCipher;
use aes::cipher::KeyIvInit;
use blake2::Digest;
use rand::RngCore;
use vstd::prelude::*;

verus! {

/// How many bytes the count takes at the start of a stored block.
pub const IV_HEADER_SIZE: usize = 16;

/// The generator of random numbers of `rand_chacha`.
#[verifier::external_type_specification]
#[verifier::external_body]
pub struct ExChaChaRng(rand_chacha::ChaChaRng);

/// The BLAKE2s-256 digest of a byte string.
pub uninterp spec fn blake2s256(data: Seq<u8>) -> Seq<u8>;

/// What AES-256 in CFB mode makes of `data` under `key` and the
/// initialization vector `iv` when it encrypts.
pub uninterp spec fn aes256_cfb_encrypt(key: Seq<u8>, iv: Seq<u8>, data: Seq<u8>) -> Seq<u8>;

/// What AES-256 in CFB mode makes of `data` under `key` and the
/// initialization vector `iv` when it decrypts.
pub uninterp spec fn aes256_cfb_decrypt(key: Seq<u8>, iv: Seq<u8>, data: Seq<u8>) -> Seq<u8>;

/// The digest that `blake2::Blake2s256` computes of `data`: the named
/// digest, which has 32 bytes.
#[verifier::external_body]
fn blake2s_digest(data: &[u8]) -> (out: Vec<u8>)
    ensures
        out@ == blake2s256(data@),
        out@.len() == 32,
{
    let mut hasher = blake2::Blake2s256::new();
    hasher.update(data);
    hasher.finalize().to_vec()
}

/// Encrypts `data` with `cfb_mode::Encryptor<aes::Aes256>`: the result is
/// the named encryption, it is as long as `data`, and decrypting it
/// under the same key and initialization vector gives `data` back.
#[verifier::external_body]
fn cfb_encrypt(key: &[u8], iv: &[u8], data: Vec<u8>) -> (out: Vec<u8>)
    requires
        key@.len() == 32,
        iv@.len() == 16,
    ensures
        out@ == aes256_cfb_encrypt(key@, iv@, data@),
        out@.len() == data@.len(),
        aes256_cfb_decrypt(key@, iv@, out@) == data@,
{
    let mut data = data;
    let cipher = cfb_mode::Encryptor::<aes::Aes256>::new(key.into(), iv.into());
    cipher.encrypt(&mut data);
    data
}

/// Decrypts `data` with `cfb_mode::Decryptor<aes::Aes256>`: the result is
/// the named decryption, and it is as long as `data`.
#[verifier::external_body]
fn cfb_decrypt(key: &[u8], iv: &[u8], data: Vec<u8>) -> (out: Vec<u8>)
    requires
        key@.len() == 32,
        iv@.len() == 16,
    ensures
        out@ == aes256_cfb_decrypt(key@, iv@, data@),
        out@.len() == data@.len(),
{
    let mut data = data;
    let cipher = cfb_mode::Decryptor::<aes::Aes256>::new(key.into(), iv.into());
    cipher.decrypt(&mut data);
    data
}

/// The next number of the generator, as `RngCore::next_u64` gives it.
/// Nothing is promised of it.
#[verifier::external_body]
fn rng_next_u64(rng: &mut rand_chacha::ChaChaRng) -> u64 {
    rng.next_u64()
}

/// A generator seeded by the operating system, as
/// `SeedableRng::from_entropy` gives it.
#[verifier::external_body]
fn rng_from_entropy() -> rand_chacha::ChaChaRng {
    rand::SeedableRng::from_entropy()
}

/// The count at the start of a stored block: two numbers that differ from
/// write to write, so that no initialization vector is used twice.
#[derive(Clone, Copy, Debug, PartialEq, Eq, Structural)]
pub struct Count(pub u64, pub u64);

/// The sixteen bytes of a count: both numbers, most significant byte first.
pub open spec fn count_bytes(c: Count) -> Seq<u8> {
    be64(c.0) + be64(c.1)
}

/// The count that the first sixteen bytes of a block spell.
pub open spec fn count_of(block: Seq<u8>) -> Count {
    Count(from_be64(block.subrange(0, 8)), from_be64(block.subrange(8, 16)))
}

/// The count that follows `c` when the generator gives `r`: the first
/// number grows by `r` with its lowest bit set, the second by one, both
/// modulo 2^64.
pub open spec fn bumped(c: Count, r: u64) -> Count {
    Count(c.0.wrapping_add(r | 1), c.1.wrapping_add(1))
}

/// What is hashed for the initialization vector: the key, the count, and
/// the index in eight bytes, most significant first.
pub open spec fn iv_input(key: Seq<u8>, count: Count, index: usize) -> Seq<u8> {
    key + count_bytes(count) + be64(index as u64)
}

/// The initialization vector of block `index` with `count`: the first
/// sixteen bytes of the digest.
pub open spec fn iv_of(key: Seq<u8>, count: Count, index: usize) -> Seq<u8> {
    blake2s256(iv_input(key, count, index)).subrange(0, 16)
}

/// The stored form of `data` as block `index` with `count`.
pub open spec fn sealed(key: Seq<u8>, index: usize, count: Count, data: Seq<u8>) -> Seq<u8> {
    count_bytes(count) + aes256_cfb_encrypt(key, iv_of(key, count, index), data)
}

/// What the stored block `block` holds as block `index`.
pub open spec fn opened(key: Seq<u8>, index: usize, block: Seq<u8>) -> Seq<u8> {
    aes256_cfb_decrypt(
        key,
        iv_of(key, count_of(block), index),
        block.subrange(16, block.len() as int),
    )
}

/// The count is read back from its bytes, whatever follows them.
pub proof fn lemma_count_round_trip(c: Count, rest: Seq<u8>)
    ensures
        count_bytes(c).len() == 16,
        count_of(count_bytes(c) + rest) == c,
        (count_bytes(c) + rest).subrange(16, (count_bytes(c) + rest).len() as int) == rest,
{
    lemma_be64_round_trip(c.0);
    lemma_be64_round_trip(c.1);
    let block = count_bytes(c) + rest;
    assert(block.subrange(0, 8) =~= be64(c.0));
    assert(block.subrange(8, 16) =~= be64(c.1));
    assert(block.subrange(16, block.len() as int) =~= rest);
}

/// A count and the one that follows it have different bytes.
pub proof fn lemma_bumped_differs(c: Count, r: u64)
    ensures
        bumped(c, r) != c,
        count_bytes(bumped(c, r)) != count_bytes(c),
{
    let d = bumped(c, r);
    assert(d.1 != c.1);
    lemma_be64_round_trip(c.1);
    lemma_be64_round_trip(d.1);
    if count_bytes(d) == count_bytes(c) {
        assert(count_bytes(d).subrange(8, 16) =~= be64(d.1));
        assert(count_bytes(c).subrange(8, 16) =~= be64(c.1));
    }
}

/// Stored blocks with different counts are different.
pub proof fn lemma_sealed_differs(block: Seq<u8>, c: Count, rest: Seq<u8>)
    requires
        block.len() >= 16,
        count_bytes(c) != count_bytes(count_of(block)),
    ensures
        count_bytes(c) + rest != block,
{
    lemma_be64_round_trip(c.0);
    lemma_be64_round_trip(c.1);
    if count_bytes(c) + rest == block {
        lemma_count_round_trip(c, rest);
    }
}

/// The blocks that a store below holds, decrypted.
pub open spec fn opened_blocks(key: Seq<u8>, lower: Map<usize, Seq<u8>>) -> Map<usize, Seq<u8>> {
    Map::new(|i: usize| lower.contains_key(i), |i: usize| opened(key, i, lower[i]))
}

/// Stores below that differ at one place hold the same blocks elsewhere,
/// and so does the layer.
pub proof fn lemma_frame(key: Seq<u8>, a: Map<usize, Seq<u8>>, b: Map<usize, Seq<u8>>, index: usize)
    requires
        b.remove(index) == a.remove(index),
    ensures
        opened_blocks(key, b).remove(index) == opened_blocks(key, a).remove(index),
        forall|j: usize| j != index ==> (#[trigger] b.contains_key(j) == a.contains_key(j)),
        forall|j: usize| j != index && #[trigger] a.contains_key(j) ==> b[j] == a[j],
{
    lemma_same_elsewhere(a, b, index);
    assert(opened_blocks(key, b).remove(index) =~= opened_blocks(key, a).remove(index));
}

impl Count {
    /// A count of two numbers from the generator.
    pub fn new_random(rng: &mut rand_chacha::ChaChaRng) -> Count {
        let a = rng_next_u64(rng);
        let b = rng_next_u64(rng);
        Count(a, b)
    }

    /// The count at the start of a stored block.
    pub fn read_from(data: &[u8]) -> (r: Result<Count, KvError>)
        ensures
            data@.len() < 16 <==> fails_with(r, KvError::UnexpectedEof),
            data@.len() >= 16 ==> r == Ok::<Count, KvError>(count_of(data@)),
    {
        if data.len() < 16 {
            return Err(KvError::UnexpectedEof);
        }
        let a = get_be64(data, 0);
        let b = get_be64(data, 8);
        Ok(Count(a, b))
    }

    /// The count that follows this one, with a number from the generator.
    pub fn bump(self, rng: &mut rand_chacha::ChaChaRng) -> (c: Count)
        ensures
            exists|r: u64| c == bumped(self, r),
            c != self,
    {
        let r = rng_next_u64(rng);
        let c = self.bump_by(r);
        proof {
            lemma_bumped_differs(self, r);
        }
        c
    }

    /// The count that follows this one when the generator gives `r`.
    pub fn bump_by(self, r: u64) -> (c: Count)
        ensures
            c == bumped(self, r),
    {
        Count(self.0.wrapping_add(r | 1), self.1.wrapping_add(1))
    }

    /// The sixteen bytes of the count.
    pub fn to_bytes(self) -> (out: Vec<u8>)
        ensures
            out@ == count_bytes(self),
            out@.len() == 16,
    {
        let mut out: Vec<u8> = Vec::new();
        put_be64(&mut out, self.0);
        put_be64(&mut out, self.1);
        proof {
            lemma_be64_round_trip(self.0);
            lemma_be64_round_trip(self.1);
            assert(out@ =~= count_bytes(self));
        }
        out
    }
}

/// A block store that keeps its blocks encrypted in the store below.
pub struct EncIntKv<K: IntKv> {
    /// The key: 32 bytes.
    pub key: [u8; 32],
    /// The generator for the counts.
    pub rng: rand_chacha::ChaChaRng,
    /// The store below.
    pub kv: K,
}

impl<K: IntKv> EncIntKv<K> {
    /// How many bytes a stored block is longer than the block.
    pub fn iv_header_size() -> (n: usize)
        ensures
            n == 16,
    {
        IV_HEADER_SIZE
    }

    /// A layer with the key `key` over `kv` that takes its counts from `rng`.
    pub fn from_key_rng_kv(key: [u8; 32], rng: rand_chacha::ChaChaRng, kv: K) -> (layer: Self)
        requires
            kv.inv(),
        ensures
            layer.inv(),
            layer.key == key,
            layer.kv == kv,
    {
        EncIntKv { key, rng, kv }
    }

    /// A layer with the key `key` over `kv`, with a generator seeded by the
    /// operating system.
    pub fn from_key_kv(key: [u8; 32], kv: K) -> (layer: Self)
        requires
            kv.inv(),
        ensures
            layer.inv(),
            layer.key == key,
            layer.kv == kv,
    {
        let rng = rng_from_entropy();
        Self::from_key_rng_kv(key, rng, kv)
    }

    /// The initialization vector of block `index` with `count`.
    fn iv(&self, index: usize, count: Count) -> (out: Vec<u8>)
        ensures
            out@ == iv_of(self.key@, count, index),
            out@.len() == 16,
    {
        let mut input: Vec<u8> = Vec::new();
        put_range(&mut input, self.key.as_slice(), 0, 32);
        let count_part = count.to_bytes();
        put_range(&mut input, count_part.as_slice(), 0, 16);
        put_be64(&mut input, index as u64);
        proof {
            assert(self.key@.subrange(0, 32) =~= self.key@);
            assert(count_part@.subrange(0, 16) =~= count_part@);
            assert(input@ =~= iv_input(self.key@, count, index));
        }
        let digest = blake2s_digest(input.as_slice());
        copy_range(digest.as_slice(), 0, 16)
    }

    /// Every block below is long enough to hold a count.
    pub open spec fn all_sealed(&self) -> bool {
        forall|i: usize| #[trigger]
            self.kv.blocks().contains_key(i) ==> self.kv.blocks()[i].len() >= 16
    }
}

impl<K: IntKv> IntKv for EncIntKv<K> {
    /// What holds of the layer between calls.
    open spec fn inv(&self) -> bool {
        self.kv.inv()
    }

    /// The blocks that the layer holds.
    open spec fn blocks(&self) -> Map<usize, Seq<u8>> {
        opened_blocks(self.key@, self.kv.blocks())
    }

    /// Whether no call fails for a reason of the store below.
    open spec fn reliable(&self) -> bool {
        self.kv.reliable() && self.all_sealed()
    }

    /// The layer has room where the store below has.
    open spec fn roomy(&self) -> bool {
        self.kv.roomy()
    }

    /// Nothing waits for a flush where nothing does below: the layer
    /// holds no block back.
    open spec fn persisted(&self) -> bool {
        self.kv.persisted()
    }

    /// Reads the block below, and decrypts what follows its count. A block
    /// below that is shorter than a count is an unexpected end.
    fn read(&mut self, index: usize) -> (r: Result<Vec<u8>, KvError>)
        ensures
            final(self).key == old(self).key,
            old(self).kv.blocks().contains_key(index) && old(self).kv.blocks()[index].len() < 16
                ==> r is Err,
            old(self).kv.reliable() && old(self).kv.blocks().contains_key(index) && old(
                self,
            ).kv.blocks()[index].len() < 16 ==> fails_with(r, KvError::UnexpectedEof),
            old(self).kv.reliable() && old(self).kv.blocks().contains_key(index) && old(
                self,
            ).kv.blocks()[index].len() >= 16 ==> r is Ok,
            r matches Ok(b) ==> b@.len() + 16 == old(self).kv.blocks()[index].len() && b@
                == opened(old(self).key@, index, old(self).kv.blocks()[index]),
    {
        let data = match self.kv.read(index) {
            Ok(data) => data,
            Err(e) => {
                assert(self.blocks() =~= old(self).blocks());
                return Err(e);
            },
        };
        assert(self.blocks() =~= old(self).blocks());
        let count = match Count::read_from(data.as_slice()) {
            Ok(count) => count,
            Err(e) => {
                return Err(e);
            },
        };
        let iv = self.iv(index, count);
        let body = copy_range(data.as_slice(), 16, data.len());
        Ok(cfb_decrypt(self.key.as_slice(), iv.as_slice(), body))
    }

    /// Stores the block encrypted, after a count: the count that follows
    /// the one of the block that is there, or a count from the generator
    /// where there is none. The stored bytes differ from those that were
    /// there, also where the same block is written again. A block below
    /// that is too short to hold a count is an unexpected end, and
    /// nothing is written then.
    fn write(&mut self, index: usize, data: Vec<u8>) -> (r: Result<(), KvError>)
        ensures
            final(self).key == old(self).key,
            old(self).kv.reliable() && old(self).kv.blocks().contains_key(index) && old(
                self,
            ).kv.blocks()[index].len() < 16 ==> fails_with(r, KvError::UnexpectedEof) && final(self).kv.blocks() == old(self).kv.blocks(),
            old(self).kv.reliable() && old(self).kv.roomy() && (old(self).kv.blocks().contains_key(
                index,
            ) ==> old(self).kv.blocks()[index].len() >= 16) ==> r is Ok,
            r is Ok ==> final(self).kv.blocks() == old(self).kv.blocks().insert(
                index,
                final(self).kv.blocks()[index],
            ) && final(self).kv.blocks()[index].len() == data@.len() + 16,
            r is Ok && old(self).kv.blocks().contains_key(index) ==> exists|r0: u64|
                final(self).kv.blocks()[index] == sealed(
                    old(self).key@,
                    index,
                    #[trigger] bumped(count_of(old(self).kv.blocks()[index]), r0),
                    data@,
                ),
            r is Ok ==> final(self).kv.blocks().contains_key(index) && exists|c: Count|
                final(self).kv.blocks()[index] == #[trigger] sealed(old(self).key@, index, c, data@),
            r is Ok && old(self).kv.blocks().contains_key(index) ==> final(self).kv.blocks()[index]
                != old(self).kv.blocks()[index],
    {
        let ghost lower0 = self.kv.blocks();
        let ghost mut given: u64 = 0;
        let present = match self.kv.has(index) {
            Ok(b) => b,
            Err(e) => {
                assert(self.blocks() =~= old(self).blocks());
                return Err(e);
            },
        };
        let count = if present {
            let old_data = match self.kv.read(index) {
                Ok(d) => d,
                Err(e) => {
                    assert(self.blocks() =~= old(self).blocks());
                    return Err(e);
                },
            };
            let old_count = match Count::read_from(old_data.as_slice()) {
                Ok(c) => c,
                Err(e) => {
                    assert(self.blocks() =~= old(self).blocks());
                    return Err(e);
                },
            };
            let r = rng_next_u64(&mut self.rng);
            proof {
                lemma_bumped_differs(old_count, r);
                given = r;
            }
            old_count.bump_by(r)
        } else {
            Count::new_random(&mut self.rng)
        };
        assert(self.kv.blocks() == lower0);
        let iv = self.iv(index, count);
        let mut new_data = count.to_bytes();
        let cipher = cfb_encrypt(self.key.as_slice(), iv.as_slice(), data);
        put_range(&mut new_data, cipher.as_slice(), 0, cipher.len());
        proof {
            assert(cipher@.subrange(0, cipher@.len() as int) =~= cipher@);
            assert(new_data@ == sealed(self.key@, index, count, data@));
            lemma_count_round_trip(count, cipher@);
            assert(opened(self.key@, index, new_data@) == data@);
            if present {
                lemma_sealed_differs(lower0[index], count, cipher@);
            }
        }
        let ghost stored = new_data@;
        let r = self.kv.write(index, new_data);
        proof {
            if r is Ok {
                assert(self.kv.blocks() =~= lower0.insert(index, self.kv.blocks()[index]));
                if present {
                    assert(count == bumped(count_of(lower0[index]), given));
                }
                assert(self.blocks() =~= old(self).blocks().insert(index, data@));
                assert(old(self).reliable() ==> self.all_sealed());
            }
            assert(self.kv.blocks().remove(index) =~= lower0.remove(index));
            lemma_frame(self.key@, lower0, self.kv.blocks(), index);
            assert(self.blocks().remove(index) =~= old(self).blocks().remove(index));
        }
        r
    }

    /// Removes the block below. Its count is forgotten with it.
    fn remove(&mut self, index: usize) -> (r: Result<(), KvError>)
        ensures
            final(self).key == old(self).key,
    {
        let ghost lower0 = self.kv.blocks();
        let r = self.kv.remove(index);
        proof {
            if r is Ok {
                assert(self.blocks() =~= old(self).blocks().remove(index));
            }
            if !lower0.contains_key(index) {
                assert(self.blocks() =~= old(self).blocks());
            }
            assert(self.kv.blocks().remove(index) =~= lower0.remove(index));
            lemma_frame(self.key@, lower0, self.kv.blocks(), index);
            assert(self.blocks().remove(index) =~= old(self).blocks().remove(index));
            if old(self).reliable() {
                assert forall|i: usize| #[trigger]
                    self.kv.blocks().contains_key(i) implies self.kv.blocks()[i].len() >= 16 by {
                    if i != index {
                        assert(lower0.contains_key(i));
                    } else {
                        assert(lower0.contains_key(i));
                    }
                }
            }
        }
        r
    }

    /// Whether there is a block below.
    fn has(&mut self, index: usize) -> (r: Result<bool, KvError>)
        ensures
            final(self).key == old(self).key,
    {
        let r = self.kv.has(index);
        assert(self.blocks() =~= old(self).blocks());
        r
    }

    /// Has the store below persist its blocks: after a flush that succeeds
    /// nothing waits for a flush below.
    fn flush(&mut self) -> (r: Result<(), KvError>)
        ensures
            final(self).key == old(self).key,
            r is Ok ==> final(self).kv.persisted(),
    {
        let r = self.kv.flush();
        assert(self.blocks() =~= old(self).blocks());
        r
    }
}

} // verus!
