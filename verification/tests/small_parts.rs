use x79d8::bytes::{
    copy_bytes, copy_range, get_be32, get_be64, get_le32, get_le64, put_be32, put_be64, put_le32,
    put_le64, put_range, same_bytes,
};
use x79d8::meta::{Meta, Timestamp, MODE_DIR, MODE_FILE, MODE_SYMLINK};
use x79d8::names::{lex_rank, Rank};
use x79d8::sorted_map::SortedMap;

#[test]
fn integers_are_written_byte_by_byte() {
    let mut buf = vec![0xeeu8];
    put_be64(&mut buf, 0x0102030405060708);
    put_be32(&mut buf, 0x0a0b0c0d);
    put_le64(&mut buf, 0x0102030405060708);
    put_le32(&mut buf, 0x0a0b0c0d);
    assert_eq!(
        buf,
        vec![
            0xee, 1, 2, 3, 4, 5, 6, 7, 8, 0x0a, 0x0b, 0x0c, 0x0d, 8, 7, 6, 5, 4, 3, 2, 1, 0x0d,
            0x0c, 0x0b, 0x0a
        ]
    );
    assert_eq!(get_be64(&buf, 1), 0x0102030405060708);
    assert_eq!(get_be32(&buf, 9), 0x0a0b0c0d);
    assert_eq!(get_le64(&buf, 13), 0x0102030405060708);
    assert_eq!(get_le32(&buf, 21), 0x0a0b0c0d);
    let mut all = Vec::new();
    put_be64(&mut all, u64::MAX);
    put_le32(&mut all, 0);
    assert_eq!(all, vec![255, 255, 255, 255, 255, 255, 255, 255, 0, 0, 0, 0]);
    assert_eq!(get_be64(&all, 0), u64::MAX);
    assert_eq!(get_be32(&all, 6), 0xffff0000);
}

#[test]
fn ranges_of_bytes_are_copied() {
    let src = [10u8, 11, 12, 13, 14];
    let mut buf = vec![1u8];
    put_range(&mut buf, &src, 1, 4);
    put_range(&mut buf, &src, 2, 2);
    assert_eq!(buf, vec![1, 11, 12, 13]);
    assert_eq!(copy_range(&src, 0, 5), src.to_vec());
    assert_eq!(copy_range(&src, 4, 5), vec![14]);
    assert_eq!(copy_bytes(&src), src.to_vec());
    assert_eq!(copy_bytes(&[]), Vec::<u8>::new());
    assert!(same_bytes(&src, &[10, 11, 12, 13, 14]));
    assert!(!same_bytes(&src, &[10, 11, 12, 13]));
    assert!(!same_bytes(&src, &[10, 11, 12, 13, 15]));
    assert!(same_bytes(&[], &[]));
}

#[test]
fn sorted_map_keeps_its_keys_in_order() {
    let mut map: SortedMap<u8> = SortedMap::new();
    assert!(map.is_empty());
    assert_eq!(map.insert(50, 5), None);
    assert_eq!(map.insert(10, 1), None);
    assert_eq!(map.insert(u64::MAX, 9), None);
    assert_eq!(map.insert(30, 3), None);
    assert_eq!(map.insert(30, 4), Some(3));
    assert_eq!(map.entries, vec![(10, 1), (30, 4), (50, 5), (u64::MAX, 9)]);
    assert_eq!(map.len(), 4);
    assert_eq!(map.key_at(2), 50);
    assert_eq!(*map.value_at(1), 4);
    assert_eq!(map.lower_bound(0), 0);
    assert_eq!(map.lower_bound(10), 0);
    assert_eq!(map.lower_bound(11), 1);
    assert_eq!(map.lower_bound(50), 2);
    assert_eq!(map.lower_bound(51), 3);
    assert_eq!(map.lower_bound(u64::MAX), 3);
    assert!(map.contains_key(30));
    assert!(!map.contains_key(31));
    assert_eq!(map.get(50), Some(&5));
    assert_eq!(map.get(0), None);
    assert_eq!(map.remove(30), Some(4));
    assert_eq!(map.remove(30), None);
    assert_eq!(map.pop_last(), Some((u64::MAX, 9)));
    assert_eq!(map.entries, vec![(10, 1), (50, 5)]);
    assert_eq!(map.pop_last(), Some((50, 5)));
    assert_eq!(map.pop_last(), Some((10, 1)));
    assert_eq!(map.pop_last(), None);
    assert!(map.is_empty());
}

#[test]
fn names_are_ordered_as_byte_strings() {
    assert_eq!(lex_rank(b"", b""), Rank::Same);
    assert_eq!(lex_rank(b"abc", b"abc"), Rank::Same);
    assert_eq!(lex_rank(b"", b"a"), Rank::Before);
    assert_eq!(lex_rank(b"ab", b"abc"), Rank::Before);
    assert_eq!(lex_rank(b"abc", b"ab"), Rank::After);
    assert_eq!(lex_rank(b"abd", b"abca"), Rank::After);
    assert_eq!(lex_rank(b"Z", b"a"), Rank::Before);
    assert_eq!(lex_rank(&[0x7f], &[0x80]), Rank::Before);
    assert_eq!(lex_rank(&[0xff], &[0x00, 0xff]), Rank::After);
}

#[test]
fn meta_of_files_and_directories() {
    let at = Timestamp { secs: 1_700_000_000, nanos: 5 };
    let dir = Meta::folder_at(at);
    assert_eq!(dir, Meta { len: 0, mode: MODE_DIR, mtime: at });
    assert!(dir.is_dir());
    assert!(!dir.is_file());
    assert!(!dir.is_symlink());
    assert_eq!(dir.len(), 0);
    let file = Meta::file_at(77, at);
    assert_eq!(file, Meta { len: 77, mode: MODE_FILE, mtime: at });
    assert!(file.is_file());
    assert!(!file.is_dir());
    assert!(!file.is_symlink());
    assert_eq!(file.len(), 77);
    assert_eq!(file.modified(), at);
    assert_eq!(file.uid(), 0);
    assert_eq!(file.gid(), 0);
    let link = Meta { len: 1, mode: MODE_SYMLINK, mtime: at };
    assert!(link.is_symlink());
    assert!(!link.is_file());
    assert_eq!(MODE_DIR, 0o040000);
    assert_eq!(MODE_FILE, 0o100644);
    assert_eq!(MODE_SYMLINK, 0o120000);
}

#[test]
fn meta_of_now_is_of_this_time() {
    let before = std::time::SystemTime::now()
        .duration_since(std::time::UNIX_EPOCH)
        .unwrap()
        .as_secs();
    let file = Meta::new_file(12);
    let dir = Meta::new_folder();
    let now = Timestamp::now();
    assert_eq!(file.len(), 12);
    assert!(file.is_file());
    assert!(dir.is_dir());
    assert_eq!(dir.len(), 0);
    assert!(before <= file.modified().secs);
    assert!(file.modified().secs <= dir.modified().secs);
    assert!(dir.modified().secs <= now.secs);
    assert!(now.secs <= before + 60);
    assert!(now.nanos < 1_000_000_000);
}
