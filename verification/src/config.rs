//! The configuration of a directory: how its key is derived and how its
//! blocks are laid out.
use crate::enc::IV_HEADER_SIZE;
use crate::error::{fails_with, KvError};
use vstd::prelude::*;
use vstd::string::*;

verus! {

/// The name of the file that holds the configuration.
pub const CONFIG_FILE: &'static str = "x79d8cfg.json";

/// The hexadecimal digit of `d`, in lower case.
pub open spec fn hex_digit(d: int) -> char {
    if d == 0 {
        '0'
    } else if d == 1 {
        '1'
    } else if d == 2 {
        '2'
    } else if d == 3 {
        '3'
    } else if d == 4 {
        '4'
    } else if d == 5 {
        '5'
    } else if d == 6 {
        '6'
    } else if d == 7 {
        '7'
    } else if d == 8 {
        '8'
    } else if d == 9 {
        '9'
    } else if d == 10 {
        'a'
    } else if d == 11 {
        'b'
    } else if d == 12 {
        'c'
    } else if d == 13 {
        'd'
    } else if d == 14 {
        'e'
    } else {
        'f'
    }
}

/// The bytes in hexadecimal: two digits in lower case for each byte, the
/// upper half of the byte first.
pub open spec fn hex_of(data: Seq<u8>) -> Seq<char> {
    Seq::new(
        2 * data.len(),
        |i: int|
            if i % 2 == 0 {
                hex_digit(data[i / 2] as int / 16)
            } else {
                hex_digit(data[i / 2] as int % 16)
            },
    )
}

/// The value of a hexadecimal digit, in either case; none for any other
/// character.
pub open spec fn hex_value(c: char) -> Option<int> {
    let v = c as int;
    if 48 <= v <= 57 {
        Some(v - 48)
    } else if 97 <= v <= 102 {
        Some(v - 87)
    } else if 65 <= v <= 70 {
        Some(v - 55)
    } else {
        None
    }
}

/// The bytes that a string of hexadecimal digits spells, two digits for
/// each byte, the upper half first; none where the string has an odd
/// number of characters or one that is no hexadecimal digit.
pub open spec fn hex_decoded(s: Seq<char>) -> Option<Seq<u8>>
    decreases s.len(),
{
    if s.len() == 0 {
        Some(Seq::empty())
    } else if s.len() == 1 {
        None
    } else {
        match (
            hex_decoded(s.take(s.len() - 2)),
            hex_value(s[s.len() - 2]),
            hex_value(s[s.len() - 1]),
        ) {
            (Some(bytes), Some(high), Some(low)) => Some(bytes.push((high * 16 + low) as u8)),
            _ => None,
        }
    }
}

/// A digit that was written has the value it was written for.
pub proof fn lemma_hex_digit(d: int)
    requires
        0 <= d < 16,
    ensures
        hex_value(hex_digit(d)) == Some(d),
{
}

/// Bytes that were written in hexadecimal are read back from it.
pub proof fn lemma_hex_round_trip(data: Seq<u8>)
    ensures
        hex_decoded(hex_of(data)) == Some(data),
    decreases data.len(),
{
    let s = hex_of(data);
    if data.len() == 0 {
        assert(s.len() == 0);
    } else {
        let n = data.len() as int;
        let rest = data.drop_last();
        assert(s.take(s.len() - 2) =~= hex_of(rest));
        lemma_hex_round_trip(rest);
        let b = data[n - 1] as int;
        assert(s[s.len() - 2] == hex_digit(b / 16));
        assert(s[s.len() - 1] == hex_digit(b % 16));
        lemma_hex_digit(b / 16);
        lemma_hex_digit(b % 16);
        assert(((b / 16) * 16 + b % 16) as u8 == data[n - 1]);
        assert(rest.push(data[n - 1]) =~= data);
    }
}

/// The key that scrypt derives from a password and a salt with the
/// parameters `log_n`, `r` and `p`; none where the parameters are not valid.
pub uninterp spec fn scrypt_key(password: Seq<u8>, salt: Seq<u8>, log_n: u8, r: u32, p: u32) -> Option<
    Seq<u8>,
>;

/// The bytes in hexadecimal, as `hex::encode` writes them: two digits in
/// lower case for each byte.
#[verifier::external_body]
fn hex_encode(data: &[u8]) -> (out: String)
    ensures
        out@ == hex_of(data@),
{
    hex::encode(data)
}

/// The bytes that `hex::decode` reads from a string: those that its
/// hexadecimal digits spell, in either case; none where the string has an
/// odd length or a character that is no hexadecimal digit.
#[verifier::external_body]
fn hex_decode(s: &str) -> (out: Option<Vec<u8>>)
    ensures
        out is Some == hex_decoded(s@) is Some,
        out is Some ==> out->0@ == hex_decoded(s@)->0,
{
    hex::decode(s).ok()
}

/// The key of 32 bytes that `scrypt::scrypt` derives with the parameters
/// that `scrypt::Params::new` makes of `log_n`, `r` and `p`: the named
/// result, which is none where the parameters are refused.
#[verifier::external_body]
fn scrypt_derive(password: &[u8], salt: &[u8], log_n: u8, r: u32, p: u32) -> (out: Option<[u8; 32]>)
    ensures
        out is Some == scrypt_key(password@, salt@, log_n, r, p) is Some,
        out is Some ==> out->0@ == scrypt_key(password@, salt@, log_n, r, p)->0,
{
    let params = scrypt::Params::new(log_n, r, p).ok()?;
    let mut output = [0u8; 32];
    scrypt::scrypt(password, salt, &params, &mut output).ok()?;
    Some(output)
}

/// A salt of 32 bytes drawn by `rand::random`. Nothing is promised of its
/// bytes.
#[verifier::external_body]
fn random_salt() -> (salt: Vec<u8>)
    ensures
        salt@.len() == 32,
{
    let salt: [u8; 32] = rand::random();
    salt.to_vec()
}

/// The bound of the cache where none is configured: 256 MiB.
pub fn default_cache_size_limit() -> (n: usize)
    ensures
        n == 268435456,
{
    268435456
}

/// The logarithm of the scrypt parameter N where none is configured.
pub fn default_scrypt_log_n() -> (n: u8)
    ensures
        n == 15,
{
    15
}

/// The scrypt parameter r where none is configured.
pub fn default_scrypt_r() -> (n: u32)
    ensures
        n == 8,
{
    8
}

/// The scrypt parameter p where none is configured.
pub fn default_scrypt_p() -> (n: u32)
    ensures
        n == 1,
{
    1
}

/// The block size in KB where none is configured.
pub fn default_block_size_kb() -> (n: u16)
    ensures
        n == 1024,
{
    1024
}

/// The configuration of a directory.
pub struct Config {
    /// The salt of the key in hexadecimal; empty where nothing is encrypted.
    pub salt_hex: String,
    /// The size of a block in KB (0: blocks are as long as what they hold).
    pub block_size_kb: u16,
    /// The logarithm of the scrypt parameter N.
    pub scrypt_log_n: u8,
    /// The scrypt parameter r.
    pub scrypt_r: u32,
    /// The scrypt parameter p.
    pub scrypt_p: u32,
    /// The most bytes that the cache holds.
    pub cache_size_limit: usize,
}

impl Config {
    /// The configuration of a new directory with the salt `salt`, which is
    /// empty where nothing is to be encrypted: the other scrypt parameters
    /// and the bound of the cache are those used where none is configured.
    pub fn with_salt(salt: &[u8], block_size_kb: u16, scrypt_log_n: u8) -> (config: Config)
        ensures
            config.salt_hex@ == hex_of(salt@),
            hex_decoded(config.salt_hex@) == Some(salt@),
            config.block_size_kb == block_size_kb,
            config.scrypt_log_n == scrypt_log_n,
            config.scrypt_r == 8,
            config.scrypt_p == 1,
            config.cache_size_limit == 268435456,
    {
        proof {
            lemma_hex_round_trip(salt@);
        }
        Config {
            salt_hex: hex_encode(salt),
            block_size_kb,
            scrypt_log_n,
            scrypt_r: default_scrypt_r(),
            scrypt_p: default_scrypt_p(),
            cache_size_limit: default_cache_size_limit(),
        }
    }

    /// The configuration of a new directory: with a salt of 32 random
    /// bytes where `encrypted`, else with none.
    pub fn generate(block_size_kb: u16, encrypted: bool, scrypt_log_n: u8) -> (config: Config)
        ensures
            config.salt_hex@.len() == (if encrypted {
                64nat
            } else {
                0nat
            }),
            config.block_size_kb == block_size_kb,
            config.scrypt_log_n == scrypt_log_n,
            config.scrypt_r == 8,
            config.scrypt_p == 1,
            config.cache_size_limit == 268435456,
    {
        if encrypted {
            let salt = random_salt();
            Config::with_salt(salt.as_slice(), block_size_kb, scrypt_log_n)
        } else {
            let none: Vec<u8> = Vec::new();
            Config::with_salt(none.as_slice(), block_size_kb, scrypt_log_n)
        }
    }

    /// Whether the blocks are encrypted: whether there is a salt.
    pub fn is_encrypted(&self) -> (b: bool)
        ensures
            b == (self.salt_hex@.len() > 0),
    {
        !self.salt_hex.as_str().is_empty()
    }

    /// How many bytes of a block the encryption takes for itself.
    pub fn page_overhead(&self) -> (n: u64)
        ensures
            n == (if self.salt_hex@.len() > 0 {
                16u64
            } else {
                0u64
            }),
    {
        if self.is_encrypted() {
            IV_HEADER_SIZE as u64
        } else {
            0
        }
    }

    /// The size of a page of the paging layer: the size of a block less
    /// what the encryption takes; none where blocks have no fixed size.
    pub fn page_size(&self) -> (r: Option<u64>)
        ensures
            self.block_size_kb == 0 ==> r is None,
            self.block_size_kb > 0 ==> r == Some(
                (self.block_size_kb as u64 * 1024 - (if self.salt_hex@.len() > 0 {
                    16int
                } else {
                    0int
                })) as u64,
            ),
    {
        if self.block_size_kb == 0 {
            None
        } else {
            let block_size: u64 = (self.block_size_kb as u64) * 1024;
            Some(block_size - self.page_overhead())
        }
    }

    /// The key that the password gives with the salt and the scrypt
    /// parameters of this configuration. A salt that is no hexadecimal
    /// string, and parameters that scrypt refuses, are invalid data.
    pub fn password_derive(&self, password: &str) -> (r: Result<[u8; 32], KvError>)
        ensures
            r matches Ok(key) ==> hex_decoded(self.salt_hex@) is Some && scrypt_key(
                password.spec_bytes(),
                hex_decoded(self.salt_hex@)->0,
                self.scrypt_log_n,
                self.scrypt_r,
                self.scrypt_p,
            ) == Some(key@),
            r is Err ==> fails_with(r, KvError::InvalidData) && (hex_decoded(self.salt_hex@) is None
                || scrypt_key(
                password.spec_bytes(),
                hex_decoded(self.salt_hex@)->0,
                self.scrypt_log_n,
                self.scrypt_r,
                self.scrypt_p,
            ) is None),
    {
        let salt = match hex_decode(self.salt_hex.as_str()) {
            Some(salt) => salt,
            None => {
                return Err(KvError::InvalidData);
            },
        };
        Config::key_from(
            scrypt_derive(
                password.as_bytes(),
                salt.as_slice(),
                self.scrypt_log_n,
                self.scrypt_r,
                self.scrypt_p,
            ),
        )
    }

    /// The key that was derived, or invalid data where none was.
    pub fn key_from(derived: Option<[u8; 32]>) -> (r: Result<[u8; 32], KvError>)
        ensures
            r == (match derived {
                Some(key) => Ok(key),
                None => Err(KvError::InvalidData),
            }),
    {
        match derived {
            Some(key) => Ok(key),
            None => Err(KvError::InvalidData),
        }
    }
}

} // verus!
