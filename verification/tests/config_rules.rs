use x79d8::config::{
    default_block_size_kb, default_cache_size_limit, default_scrypt_log_n, default_scrypt_p,
    default_scrypt_r, Config, CONFIG_FILE,
};
use x79d8::error::KvError;

fn config(salt_hex: &str, log_n: u8, r: u32, p: u32) -> Config {
    Config {
        salt_hex: salt_hex.to_string(),
        block_size_kb: 4,
        scrypt_log_n: log_n,
        scrypt_r: r,
        scrypt_p: p,
        cache_size_limit: default_cache_size_limit(),
    }
}

fn unhex(s: &str) -> Vec<u8> {
    (0..s.len() / 2).map(|i| u8::from_str_radix(&s[2 * i..2 * i + 2], 16).unwrap()).collect()
}

#[test]
fn config_defaults() {
    assert_eq!(CONFIG_FILE, "x79d8cfg.json");
    assert_eq!(default_cache_size_limit(), 256 * 1024 * 1024);
    assert_eq!(default_scrypt_log_n(), 15);
    assert_eq!(default_scrypt_r(), 8);
    assert_eq!(default_scrypt_p(), 1);
    assert_eq!(default_block_size_kb(), 1024);
}

#[test]
fn config_salt_is_written_in_hexadecimal() {
    let c = Config::with_salt(&[0x00, 0xab, 0xff, 0x10, 0x09], 16, 12);
    assert_eq!(c.salt_hex, "00abff1009");
    assert_eq!(c.block_size_kb, 16);
    assert_eq!(c.scrypt_log_n, 12);
    assert_eq!(c.scrypt_r, 8);
    assert_eq!(c.scrypt_p, 1);
    assert_eq!(c.cache_size_limit, 268435456);
    assert!(c.is_encrypted());
    let plain = Config::with_salt(&[], 16, 12);
    assert_eq!(plain.salt_hex, "");
    assert!(!plain.is_encrypted());
}

#[test]
fn config_generated_has_a_salt_of_32_bytes_where_encrypted() {
    let a = Config::generate(8, true, 10);
    let b = Config::generate(8, true, 10);
    assert_eq!(a.salt_hex.len(), 64);
    assert!(a.salt_hex.bytes().all(|c| c.is_ascii_digit() || (b'a'..=b'f').contains(&c)));
    assert_ne!(a.salt_hex, b.salt_hex);
    assert!(a.is_encrypted());
    assert_eq!(a.block_size_kb, 8);
    assert_eq!(a.scrypt_log_n, 10);
    let plain = Config::generate(8, false, 10);
    assert_eq!(plain.salt_hex, "");
    assert!(!plain.is_encrypted());
}

#[test]
fn config_page_size_leaves_room_for_the_encryption() {
    let mut c = Config::with_salt(&[1, 2, 3], 4, 10);
    assert_eq!(c.page_overhead(), 16);
    assert_eq!(c.page_size(), Some(4096 - 16));
    c.block_size_kb = 1;
    assert_eq!(c.page_size(), Some(1008));
    c.block_size_kb = u16::MAX;
    assert_eq!(c.page_size(), Some(65535 * 1024 - 16));
    c.block_size_kb = 0;
    assert_eq!(c.page_size(), None);
    let mut plain = Config::with_salt(&[], 4, 10);
    assert_eq!(plain.page_overhead(), 0);
    assert_eq!(plain.page_size(), Some(4096));
    plain.block_size_kb = 0;
    assert_eq!(plain.page_size(), None);
}

#[test]
fn config_key_is_that_of_scrypt() {
    // The salt "NaCl" in hexadecimal.
    let c = config("4e61436c", 10, 8, 16);
    assert_eq!(
        c.password_derive("password").map(|k| k.to_vec()),
        Ok(unhex("fdbabe1c9d3472007856e7190d01e9fe7c6ad7cbc8237830e77376634b373162"))
    );
    let empty = config("", 4, 1, 1);
    assert_eq!(
        empty.password_derive("").map(|k| k.to_vec()),
        Ok(unhex("77d6576238657b203b19ca42c18a0497f16b4844e3074ae8dfdffa3fede21442"))
    );
    // Upper case digits spell the same salt; another salt gives another key.
    let upper = config("4E61436C", 10, 8, 16);
    assert_eq!(upper.password_derive("password"), c.password_derive("password"));
    let other = config("4e61436d", 10, 8, 16);
    assert_ne!(other.password_derive("password"), c.password_derive("password"));
    assert_ne!(c.password_derive("Password"), c.password_derive("password"));
}

#[test]
fn config_key_of_a_bad_salt_or_bad_parameters_is_invalid_data() {
    assert_eq!(config("4e61436", 4, 1, 1).password_derive("x"), Err(KvError::InvalidData));
    assert_eq!(config("zz", 4, 1, 1).password_derive("x"), Err(KvError::InvalidData));
    assert_eq!(config("00", 64, 1, 1).password_derive("x"), Err(KvError::InvalidData));
    assert_eq!(config("00", 4, 0, 1).password_derive("x"), Err(KvError::InvalidData));
    assert_eq!(config("00", 4, 1, 0).password_derive("x"), Err(KvError::InvalidData));
    assert!(config("00", 4, 1, 1).password_derive("x").is_ok());
    assert_eq!(Config::key_from(None), Err(KvError::InvalidData));
    assert_eq!(Config::key_from(Some([7u8; 32])), Ok([7u8; 32]));
}
