use tiny_lsm::error::LsmError;
use tiny_lsm::iterators::concat_iterator::SstConcatIterator;
use tiny_lsm::iterators::StorageIterator;
use tiny_lsm::key::{KeySlice, KeyVec};
use tiny_lsm::table::{BlockMeta, FileObject, SsTable, SsTableBuilder, SsTableIterator};

fn key(k: &[u8], ts: u64) -> KeySlice<'_> {
    KeySlice::from_slice(k, ts)
}

fn name(i: usize) -> Vec<u8> {
    format!("key{:04}", i).into_bytes()
}

fn build(from: usize, to: usize, id: usize) -> SsTable {
    let mut builder = SsTableBuilder::new(64);
    for i in from..to {
        builder.add(key(&name(i), (i % 5) as u64), format!("value{}", i).as_bytes());
    }
    match builder.build(id) {
        Ok(t) => t,
        Err(_) => panic!("the table cannot be built"),
    }
}

fn rest<I: StorageIterator>(iter: &mut I) -> Vec<(Vec<u8>, u64, Vec<u8>)> {
    let mut out = Vec::new();
    while iter.is_valid() {
        out.push((iter.key().key_ref().to_vec(), iter.key().ts(), iter.value().to_vec()));
        assert!(iter.next().is_ok());
    }
    out
}

fn expected(from: usize, to: usize) -> Vec<(Vec<u8>, u64, Vec<u8>)> {
    (from..to).map(|i| (name(i), (i % 5) as u64, format!("value{}", i).into_bytes())).collect()
}

#[test]
fn table_gives_back_its_entries() {
    let table = build(0, 50, 3);
    assert_eq!(table.sst_id(), 3);
    assert_eq!(table.max_ts(), 0);
    assert!(table.num_of_blocks() > 5);
    assert_eq!(table.first_key().as_key_slice().key_ref(), &name(0)[..]);
    assert_eq!(table.last_key().as_key_slice().key_ref(), &name(49)[..]);
    let mut iter = SsTableIterator::create_and_seek_to_first(&table);
    assert_eq!(iter.num_active_iterators(), 1);
    assert_eq!(rest(&mut iter), expected(0, 50));
    assert!(!iter.is_valid());
    iter.seek_to_first();
    assert_eq!(rest(&mut iter), expected(0, 50));
}

#[test]
fn table_seeks_across_blocks() {
    let table = build(0, 50, 3);
    for i in 0..50 {
        let mut iter = SsTableIterator::create_and_seek_to_key(&table, key(&name(i), u64::MAX));
        assert_eq!(rest(&mut iter), expected(i, 50));
        // The version with timestamp 0 comes after all others.
        let mut iter = SsTableIterator::create_and_seek_to_key(&table, key(&name(i), 0));
        assert_eq!(rest(&mut iter), expected(if i % 5 == 0 { i } else { i + 1 }, 50));
    }
    let mut iter = SsTableIterator::create_and_seek_to_key(&table, key(b"zzz", 0));
    assert!(!iter.is_valid());
    iter.seek_to_key(key(b"a", 0));
    assert_eq!(iter.key().key_ref(), &name(0)[..]);
}

#[test]
fn filter_of_a_table_lets_its_keys_pass() {
    let table = build(0, 50, 3);
    let bloom = table.bloom().as_ref().unwrap();
    for i in 0..50 {
        let k = name(i);
        if tiny_lsm::deps::is_hashable(&k) {
            assert!(bloom.may_contain(farmhash::fingerprint32(&k)));
        }
        assert!(bloom.may_contain_key(&k));
    }
    assert!(!bloom.may_contain_key(b"zz"));
    // A key without a hash passes every filter.
    assert!(!tiny_lsm::deps::is_hashable(&[0xff; 8]));
    assert!(bloom.may_contain_key(&[0xff; 8]));
}

#[test]
fn stored_table_is_opened_again() {
    let table = build(0, 50, 3);
    let content = table.file_content().to_vec();
    let opened = match SsTable::open(8, FileObject { data: content }) {
        Ok(t) => t,
        Err(_) => panic!("the table cannot be opened"),
    };
    assert_eq!(opened.sst_id(), 8);
    assert_eq!(opened.max_ts(), 4);
    assert_eq!(opened.num_of_blocks(), table.num_of_blocks());
    assert_eq!(opened.first_key().as_key_slice().key_ref(), &name(0)[..]);
    assert_eq!(opened.last_key().as_key_slice().key_ref(), &name(49)[..]);
    assert_eq!(rest(&mut SsTableIterator::create_and_seek_to_first(&opened)), expected(0, 50));
}

#[test]
fn every_broken_byte_of_a_table_is_noticed() {
    let table = build(0, 6, 3);
    let content = table.file_content().to_vec();
    for i in 0..content.len() {
        let mut data = content.clone();
        data[i] ^= 0x40;
        assert!(matches!(
            SsTable::open(1, FileObject { data }),
            Err(LsmError::Corrupted)
        ));
    }
    for n in 0..content.len() {
        let data = content[..n].to_vec();
        assert!(matches!(
            SsTable::open(1, FileObject { data }),
            Err(LsmError::Corrupted)
        ));
    }
}

#[test]
fn table_without_entries() {
    let builder = SsTableBuilder::new(64);
    assert_eq!(builder.estimated_size(), 0);
    let table = match builder.build(1) {
        Ok(t) => t,
        Err(_) => panic!("the table cannot be built"),
    };
    assert_eq!(table.num_of_blocks(), 0);
    assert!(table.first_key().is_empty());
    assert!(!SsTableIterator::create_and_seek_to_first(&table).is_valid());
    assert!(!SsTableIterator::create_and_seek_to_key(&table, key(b"a", 0)).is_valid());
    let content = table.file_content().to_vec();
    let opened = match SsTable::open(1, FileObject { data: content }) {
        Ok(t) => t,
        Err(_) => panic!("the table cannot be opened"),
    };
    assert_eq!(opened.num_of_blocks(), 0);
}

#[test]
fn estimated_size_counts_finished_blocks() {
    let mut builder = SsTableBuilder::new(32);
    builder.add(key(b"a", 0), b"1");
    assert_eq!(builder.estimated_size(), 0);
    builder.add(key(b"b", 0), b"2222222222");
    // One entry of 16 bytes, a checksum, one offset, the count, and the block's checksum.
    assert_eq!(builder.estimated_size(), 16 + 4 + 2 + 2 + 4);
}

#[test]
fn notes_on_blocks_are_decoded() {
    let notes = vec![
        BlockMeta {
            offset: 0,
            first_key: KeyVec::from_vec_with_ts(b"a".to_vec(), 4),
            last_key: KeyVec::from_vec_with_ts(b"bb".to_vec(), 2),
        },
        BlockMeta {
            offset: 77,
            first_key: KeyVec::from_vec_with_ts(b"c".to_vec(), 1),
            last_key: KeyVec::from_vec_with_ts(b"d".to_vec(), 9),
        },
    ];
    let mut buf: Vec<u8> = Vec::new();
    BlockMeta::encode_block_meta(&notes, &mut buf);
    assert_eq!(&buf[..11], &[0, 0, 0, 2, 0, 0, 0, 0, 0, 1, b'a']);
    let decoded = match BlockMeta::decode_block_meta(&buf) {
        Ok(ms) => ms,
        Err(_) => panic!("the notes cannot be decoded"),
    };
    assert_eq!(decoded.len(), 2);
    assert_eq!(decoded[1].offset, 77);
    assert_eq!(decoded[0].last_key.as_key_slice().key_ref(), b"bb");
    assert_eq!(decoded[1].last_key.as_key_slice().ts(), 9);
    buf[4] = 1;
    assert!(matches!(BlockMeta::decode_block_meta(&buf), Err(LsmError::Corrupted)));
    assert!(matches!(BlockMeta::decode_block_meta(&[0; 7]), Err(LsmError::Corrupted)));
}

#[test]
fn tables_are_concatenated() {
    let a = build(0, 10, 1);
    let empty = match SsTableBuilder::new(64).build(2) {
        Ok(t) => t,
        Err(_) => panic!("the table cannot be built"),
    };
    let b = build(10, 20, 3);
    let mut iter = SstConcatIterator::create_and_seek_to_first(vec![&a, &empty, &b]);
    assert_eq!(iter.num_active_iterators(), 1);
    assert_eq!(rest(&mut iter), expected(0, 20));
    for i in 0..20 {
        let mut iter = SstConcatIterator::create_and_seek_to_key(
            vec![&a, &empty, &b],
            key(&name(i), u64::MAX),
        );
        assert_eq!(rest(&mut iter), expected(i, 20));
    }
    let mut none = SstConcatIterator::create_and_seek_to_key(vec![&a, &b], key(b"z", 0));
    assert!(!none.is_valid());
    assert!(none.next().is_ok());
    assert!(!SstConcatIterator::create_and_seek_to_first(vec![]).is_valid());
}
