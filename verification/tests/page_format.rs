use bincode::Options;
use std::collections::BTreeMap;
use x79d8::error::KvError;
use x79d8::kv::IntKv;
use x79d8::mem::MemIntKv;
use x79d8::page_check::load_metadata;
use x79d8::page_codec::{Chunk, DataPage, MetaPage};
use x79d8::page_store::{choose_first_page, pack_meta_pages, PageIntKv};
use x79d8::sorted_map::SortedMap;

fn big_endian<T: serde::Serialize>(value: &T, page_size: usize) -> Vec<u8> {
    let mut bytes = bincode::options()
        .with_big_endian()
        .with_fixint_encoding()
        .allow_trailing_bytes()
        .serialize(value)
        .unwrap();
    if bytes.len() < page_size {
        bytes.resize(page_size, 0);
    }
    bytes
}

fn sorted_of(entries: &[(u64, u64)]) -> SortedMap<u64> {
    let mut map = SortedMap::new();
    for (k, v) in entries {
        map.insert(*k, *v);
    }
    map
}

#[test]
fn data_page_bytes_are_those_of_bincode() {
    let mut page = DataPage::new();
    page.put(9, Chunk { next_page_index: 17, data: Vec::new() });
    page.put(3, Chunk { next_page_index: 0, data: vec![1, 2, 3] });
    let mut same: BTreeMap<u64, (u64, Vec<u8>)> = BTreeMap::new();
    same.insert(3, (0, vec![1, 2, 3]));
    same.insert(9, (17, Vec::new()));
    assert_eq!(page.size(), 8 + 24 + 3 + 24);
    assert!(page.has_size(59));
    assert!(!page.has_size(60));
    let bytes = page.encode(128);
    assert_eq!(bytes.len(), 128);
    assert_eq!(bytes, big_endian(&same, 128));
    assert_eq!(page.encode(10), big_endian(&same, 0));
    let back = DataPage::decode(&bytes).unwrap();
    assert_eq!(back.len(), 2);
    assert_eq!(back.key_at(0), 3);
    assert_eq!(back.chunk_at(0).data, vec![1, 2, 3]);
    assert_eq!(back.get(9).map(|c| c.next_page_index), Some(17));
    assert!(back.get(4).is_none());
    assert_eq!(DataPage::decode(&bytes[..20]).err(), Some(KvError::InvalidData));
    assert_eq!(DataPage::decode(&[0, 0]).err(), Some(KvError::InvalidData));
    let empty = DataPage::new();
    assert!(empty.is_empty());
    assert_eq!(empty.size(), 8);
    assert_eq!(empty.encode(16), vec![0u8; 16]);
}

#[test]
fn data_page_with_keys_out_of_order_is_read_and_told() {
    let mut bytes = Vec::new();
    bytes.extend_from_slice(&2u64.to_be_bytes());
    for key in [8u64, 5] {
        bytes.extend_from_slice(&key.to_be_bytes());
        bytes.extend_from_slice(&0u64.to_be_bytes());
        bytes.extend_from_slice(&1u64.to_be_bytes());
        bytes.push(key as u8);
    }
    let (page, in_order) = DataPage::decode_checked(&bytes).unwrap();
    assert!(!in_order);
    assert_eq!(page.len(), 2);
    assert_eq!(page.key_at(0), 5);
    assert_eq!(page.get(8).map(|c| c.data.clone()), Some(vec![8u8]));
}

#[test]
fn meta_page_bytes_are_those_of_bincode() {
    let mut page = MetaPage::new();
    page.map_index = sorted_of(&[(1, 10), (700, 11)]);
    page.data_size_indexes = sorted_of(&[(10, 40), (11, 4000), (12, 8)]);
    assert_eq!(page.count(), 5);
    let mut index: BTreeMap<u64, u64> = BTreeMap::new();
    index.insert(1, 10);
    index.insert(700, 11);
    let mut sizes: BTreeMap<u64, u64> = BTreeMap::new();
    sizes.insert(10, 40);
    sizes.insert(11, 4000);
    sizes.insert(12, 8);
    let bytes = page.encode(5, 256);
    assert_eq!(bytes, big_endian(&(5u64, index, sizes), 256));
    assert_eq!(bytes.len(), 256);
    let back = MetaPage::decode(&bytes).unwrap();
    assert_eq!(back.next_page_index, 5);
    assert_eq!(back.map_index.entries, vec![(1, 10), (700, 11)]);
    assert_eq!(back.data_size_indexes.entries, vec![(10, 40), (11, 4000), (12, 8)]);
    assert_eq!(MetaPage::decode(&bytes[..30]).err(), Some(KvError::InvalidData));
    assert_eq!(MetaPage::new().encode(0, 24), vec![0u8; 24]);
}

#[test]
fn first_page_is_the_first_that_fits_or_the_emptiest() {
    let sizes = sorted_of(&[(4, 100), (6, 60), (9, 20), (12, 20)]);
    // 30 bytes and the 24 of a chunk fit pages 6, 9 and 12: the first is taken.
    assert_eq!(choose_first_page(&sizes, 128, 30), Some(6));
    assert_eq!(choose_first_page(&sizes, 128, 4), Some(4));
    assert_eq!(choose_first_page(&sizes, 128, 5), Some(6));
    assert_eq!(choose_first_page(&sizes, 128, 84), Some(9));
    assert_eq!(choose_first_page(&sizes, 128, 85), None);
    // A value beyond a page starts in the page that holds least.
    assert_eq!(choose_first_page(&sizes, 128, 105), Some(9));
    assert_eq!(choose_first_page(&sizes, 128, 100_000), Some(9));
    let full = sorted_of(&[(4, 110), (6, 104)]);
    assert_eq!(choose_first_page(&full, 128, 105), None);
    assert_eq!(choose_first_page(&full, 128, 0), Some(6));
    assert_eq!(choose_first_page(&SortedMap::new(), 128, 1), None);
    assert_eq!(choose_first_page(&sizes, 128, u64::MAX), Some(9));
}

#[test]
fn meta_pages_hold_as_many_entries_as_fit() {
    let index = sorted_of(&[(1, 10), (2, 10), (3, 11), (4, 12), (5, 12)]);
    let sizes = sorted_of(&[(10, 90), (11, 91)]);
    // 24 bytes and 16 for each of two entries.
    let pages = pack_meta_pages(&index, &sizes, 56).unwrap();
    assert_eq!(pages.len(), 4);
    assert_eq!(pages[0].map_index.entries, vec![(1, 10), (2, 10)]);
    assert_eq!(pages[2].map_index.entries, vec![(5, 12)]);
    assert_eq!(pages[2].data_size_indexes.entries, vec![(10, 90)]);
    assert_eq!(pages[3].data_size_indexes.entries, vec![(11, 91)]);
    let one = pack_meta_pages(&index, &sizes, 4096).unwrap();
    assert_eq!(one.len(), 1);
    assert_eq!(one[0].count(), 7);
    let none = pack_meta_pages(&SortedMap::new(), &SortedMap::new(), 24).unwrap();
    assert_eq!(none.len(), 1);
    assert_eq!(none[0].count(), 0);
    assert!(pack_meta_pages(&index, &sizes, 39).is_none());
    assert!(pack_meta_pages(&SortedMap::new(), &SortedMap::new(), 23).is_none());
}

#[test]
fn page_layer_reopened_holds_the_same_blocks() {
    let mut kv = PageIntKv::new(96, MemIntKv::new()).unwrap();
    for i in 0..40usize {
        kv.write(i * 3, vec![i as u8; i * 11]).unwrap();
    }
    kv.remove(6).unwrap();
    kv.flush().unwrap();
    let index = kv.map_index.entries.clone();
    let sizes = kv.data_page_sizes.entries.clone();
    let places = kv.meta_pages.clone();
    assert!(places.len() > 1);
    let mut again = PageIntKv::new(96, kv.kv).unwrap();
    assert_eq!(again.map_index.entries, index);
    assert_eq!(again.data_page_sizes.entries, sizes);
    assert_eq!(again.meta_pages, places);
    assert!(again.dirty_data_pages.is_empty());
    for i in 0..40usize {
        if i == 2 {
            assert_eq!(again.read(6), Err(KvError::NotFound));
            assert_eq!(again.has(6), Ok(false));
        } else {
            assert_eq!(again.read(i * 3), Ok(vec![i as u8; i * 11]));
        }
    }
    assert_eq!(again.verify(), Ok(()));
}

#[test]
fn page_layer_writes_nothing_below_before_flush() {
    let mut kv = PageIntKv::new(64, MemIntKv::new()).unwrap();
    kv.write(1, vec![7u8; 500]).unwrap();
    assert_eq!(kv.kv.len(), 0);
    kv.flush().unwrap();
    let below = kv.kv.map.clone();
    assert_eq!(below.len(), kv.meta_pages.len() + kv.data_page_sizes.len());
    kv.write(1, vec![8u8; 20]).unwrap();
    kv.write(2, vec![9u8; 300]).unwrap();
    kv.remove(2).unwrap();
    assert_eq!(kv.kv.map, below);
    assert_eq!(kv.read(1), Ok(vec![8u8; 20]));
    // A flush with nothing changed writes nothing.
    kv.flush().unwrap();
    let after = kv.kv.map.clone();
    kv.flush().unwrap();
    assert_eq!(kv.kv.map, after);
    assert_eq!(after.len(), kv.meta_pages.len() + kv.data_page_sizes.len());
}

#[test]
fn page_layer_on_blocks_that_are_no_pages_is_invalid_data() {
    // Block 0 is no meta page.
    let mut lower = MemIntKv::new();
    lower.write(0, vec![1, 2, 3]).unwrap();
    assert_eq!(PageIntKv::new(64, lower).err(), Some(KvError::InvalidData));
    // A meta page that is linked to itself.
    let mut lower = MemIntKv::new();
    lower.write(0, MetaPage::new().encode(5, 64)).unwrap();
    lower.write(5, MetaPage::new().encode(5, 64)).unwrap();
    assert_eq!(load_metadata(&mut lower).err(), Some(KvError::InvalidData));
    assert_eq!(PageIntKv::new(64, lower).err(), Some(KvError::InvalidData));
    // A meta page that is linked to a block that is not there.
    let mut lower = MemIntKv::new();
    lower.write(0, MetaPage::new().encode(9, 64)).unwrap();
    assert_eq!(PageIntKv::new(64, lower).err(), Some(KvError::InvalidData));
    // A logical index whose first page is not recorded.
    let mut page = MetaPage::new();
    page.map_index = sorted_of(&[(1, 2)]);
    let mut lower = MemIntKv::new();
    lower.write(0, page.encode(0, 64)).unwrap();
    assert_eq!(PageIntKv::new(64, lower).err(), Some(KvError::InvalidData));
    // A data page that is recorded with another size than it has.
    let mut data = DataPage::new();
    data.put(1, Chunk { next_page_index: 0, data: vec![4, 5] });
    let mut page = MetaPage::new();
    page.map_index = sorted_of(&[(1, 2)]);
    page.data_size_indexes = sorted_of(&[(2, 33)]);
    let mut lower = MemIntKv::new();
    lower.write(0, page.encode(0, 64)).unwrap();
    lower.write(2, data.encode(64)).unwrap();
    assert_eq!(PageIntKv::new(64, lower).err(), Some(KvError::InvalidData));
    // The same blocks with the true size are a layer.
    page.data_size_indexes = sorted_of(&[(2, 34)]);
    let mut lower = MemIntKv::new();
    lower.write(0, page.encode(0, 64)).unwrap();
    lower.write(2, data.encode(64)).unwrap();
    let mut kv = PageIntKv::new(64, lower).unwrap();
    assert_eq!(kv.read(1), Ok(vec![4, 5]));
    assert_eq!(kv.page_size(), 64);
}

#[test]
fn page_layer_with_a_changed_record_does_not_pass_the_check() {
    let mut kv = PageIntKv::new(64, MemIntKv::new()).unwrap();
    kv.write(1, vec![7u8; 100]).unwrap();
    kv.write(2, vec![8u8; 10]).unwrap();
    assert_eq!(kv.verify(), Ok(()));
    kv.flush().unwrap();
    assert_eq!(kv.verify(), Ok(()));
    let head = *kv.map_index.get(2).unwrap();
    kv.map_index.insert(3, head);
    assert_eq!(kv.verify(), Err(KvError::InvalidData));
    kv.map_index.remove(3);
    assert_eq!(kv.verify(), Ok(()));
    kv.map_index.remove(2);
    assert_eq!(kv.verify(), Err(KvError::InvalidData));
    kv.map_index.insert(2, head);
    let size = *kv.data_page_sizes.get(head).unwrap();
    kv.data_page_sizes.insert(head, size + 1);
    assert_eq!(kv.verify(), Err(KvError::InvalidData));
    kv.data_page_sizes.insert(head, size);
    kv.meta_pages.push(head);
    assert_eq!(kv.verify(), Err(KvError::InvalidData));
    kv.meta_pages.pop();
    assert_eq!(kv.verify(), Ok(()));
    assert_eq!(kv.read(1), Ok(vec![7u8; 100]));
}

#[test]
fn page_layer_with_a_stored_page_without_chunks_is_invalid_data() {
    // A recorded data page that holds no chunk and is reached by no chain.
    let mut page = MetaPage::new();
    page.data_size_indexes = sorted_of(&[(2, 8)]);
    let mut lower = MemIntKv::new();
    lower.write(0, page.encode(0, 64)).unwrap();
    lower.write(2, DataPage::new().encode(64)).unwrap();
    assert_eq!(PageIntKv::new(64, lower).err(), Some(KvError::InvalidData));
    // A meta page in a block of another size than a page.
    let mut lower = MemIntKv::new();
    lower.write(0, MetaPage::new().encode(0, 64)).unwrap();
    assert_eq!(PageIntKv::new(128, lower).err(), Some(KvError::InvalidData));
    let mut lower = MemIntKv::new();
    lower.write(0, MetaPage::new().encode(0, 64)).unwrap();
    let mut kv = PageIntKv::new(64, lower).unwrap();
    assert_eq!(kv.verify(), Ok(()));
    // A page that was emptied and not yet flushed is no fault.
    kv.write(1, vec![1u8; 10]).unwrap();
    kv.flush().unwrap();
    kv.remove(1).unwrap();
    assert_eq!(kv.verify(), Ok(()));
    kv.flush().unwrap();
    assert_eq!(kv.verify(), Ok(()));
    assert_eq!(kv.kv.len(), 1);
    // A meta block that was cut short below does not pass.
    kv.kv.write(0, vec![0u8; 24]).unwrap();
    assert_eq!(kv.verify(), Err(KvError::InvalidData));
}

#[test]
fn page_of_32_bytes_takes_the_empty_value_and_no_other() {
    let mut kv = PageIntKv::new(32, MemIntKv::new()).unwrap();
    assert_eq!(kv.write(1, Vec::new()), Ok(()));
    assert_eq!(kv.read(1), Ok(Vec::new()));
    assert_eq!(kv.has(1), Ok(true));
    assert_eq!(kv.write(1, Vec::new()), Ok(()));
    assert_eq!(kv.write(2, Vec::new()), Ok(()));
    assert_eq!(kv.write(1, vec![7]), Err(KvError::WriteZero));
    assert_eq!(kv.read(1), Ok(Vec::new()));
    assert_eq!(kv.verify(), Ok(()));
    // A meta page of 32 bytes takes no entry: the index cannot be stored.
    assert_eq!(kv.flush(), Err(KvError::WriteZero));
    assert_eq!(kv.read(1), Ok(Vec::new()));
    assert_eq!(kv.read(2), Ok(Vec::new()));
    assert_eq!(kv.read(3), Err(KvError::NotFound));
    let mut small = PageIntKv::new(31, MemIntKv::new()).unwrap();
    assert_eq!(small.write(1, Vec::new()), Err(KvError::WriteZero));
    assert_eq!(small.has(1), Ok(false));
}

#[test]
fn page_chunks_fill_a_page_before_the_next() {
    let mut kv = PageIntKv::new(64, MemIntKv::new()).unwrap();
    // A page of 64 bytes takes 8 bytes, 24 for a chunk, and 32 of the value.
    kv.write(5, (0..100u8).collect()).unwrap();
    assert_eq!(kv.data_page_sizes.len(), 4);
    let mut lens: Vec<usize> = Vec::new();
    let mut cur = *kv.map_index.get(5).unwrap();
    while cur != 0 {
        let page = kv.dirty_data_pages.get(cur).unwrap();
        assert_eq!(page.len(), 1);
        let chunk = page.get(5).unwrap();
        lens.push(chunk.data.len());
        cur = chunk.next_page_index;
    }
    assert_eq!(lens, vec![32, 32, 32, 4]);
    // A short value then shares the last page, which has room for it.
    kv.write(6, vec![9u8; 4]).unwrap();
    assert_eq!(kv.data_page_sizes.len(), 4);
    // A shorter value gives back the pages it no longer needs at the flush.
    kv.write(5, vec![1u8; 10]).unwrap();
    assert_eq!(kv.read(5), Ok(vec![1u8; 10]));
    kv.flush().unwrap();
    assert_eq!(kv.kv.len(), kv.meta_pages.len() + kv.data_page_sizes.len());
    assert_eq!(kv.read(6), Ok(vec![9u8; 4]));
}
