use tiny_lsm::deps::Bound;
use tiny_lsm::iterators::StorageIterator;
use tiny_lsm::key::KeySlice;
use tiny_lsm::mem_table::{map_bound_keybytes, map_bound_lower, map_bound_upper, MemTable};
use tiny_lsm::table::{SsTableBuilder, SsTableIterator};

fn put(m: &mut MemTable, k: &[u8], ts: u64, v: &[u8]) {
    assert!(m.put(KeySlice::from_slice(k, ts), v).is_ok());
}

fn rest<I: StorageIterator>(mut iter: I) -> Vec<(Vec<u8>, u64, Vec<u8>)> {
    let mut out = Vec::new();
    while iter.is_valid() {
        out.push((iter.key().key_ref().to_vec(), iter.key().ts(), iter.value().to_vec()));
        assert!(iter.next().is_ok());
    }
    out
}

fn sample() -> MemTable {
    let mut m = MemTable::create(4);
    put(&mut m, b"b", 2, b"b2");
    put(&mut m, b"a", 1, b"a1");
    put(&mut m, b"b", 5, b"b5");
    put(&mut m, b"c", 0, b"c0");
    m
}

#[test]
fn get_finds_the_version_without_timestamp() {
    let mut m = sample();
    assert_eq!(m.id(), 4);
    assert_eq!(m.get(b"c").as_deref(), Some(&b"c0"[..]));
    assert!(m.get(b"a").is_none());
    assert!(m.for_testing_put_slice(b"a", b"a0").is_ok());
    assert_eq!(m.for_testing_get_slice(b"a").as_deref(), Some(&b"a0"[..]));
    assert!(m.for_testing_put_slice(b"a", b"again").is_ok());
    assert_eq!(m.get(b"a").as_deref(), Some(&b"again"[..]));
}

#[test]
fn scan_gives_versions_from_newest_to_oldest() {
    let m = sample();
    let all = rest(m.scan(Bound::Unbounded, Bound::Unbounded));
    let keys: Vec<(&[u8], u64)> = all.iter().map(|e| (&e.0[..], e.1)).collect();
    assert_eq!(keys, vec![(&b"a"[..], 1), (&b"b"[..], 5), (&b"b"[..], 2), (&b"c"[..], 0)]);
    assert_eq!(all[1].2, b"b5".to_vec());
}

#[test]
fn scan_has_all_versions_of_its_ends_or_none() {
    let m = sample();
    let count = |lo: Bound<&[u8]>, up: Bound<&[u8]>| rest(m.for_testing_scan_slice(lo, up)).len();
    assert_eq!(count(Bound::Included(b"b"), Bound::Included(b"b")), 2);
    assert_eq!(count(Bound::Excluded(b"b"), Bound::Unbounded), 1);
    assert_eq!(count(Bound::Included(b"b"), Bound::Unbounded), 3);
    assert_eq!(count(Bound::Unbounded, Bound::Excluded(b"b")), 1);
    assert_eq!(count(Bound::Unbounded, Bound::Included(b"b")), 3);
    assert_eq!(count(Bound::Included(b"x"), Bound::Unbounded), 0);
    assert_eq!(count(Bound::Included(b"c"), Bound::Included(b"a")), 0);
}

#[test]
fn cursor_at_the_empty_key_counts_as_exhausted() {
    let mut m = sample();
    put(&mut m, b"", 3, b"nobody");
    let mut iter = m.scan(Bound::Unbounded, Bound::Unbounded);
    assert!(!iter.is_valid());
    assert!(iter.next().is_ok());
    assert!(iter.is_valid());
    assert_eq!(iter.key().key_ref(), b"a");
    assert_eq!(rest(m.scan(Bound::Included(b"a"), Bound::Unbounded)).len(), 4);
}

#[test]
fn size_counts_keys_timestamps_and_values() {
    let mut m = MemTable::create(0);
    assert!(m.is_empty());
    assert_eq!(m.approximate_size(), 0);
    put(&mut m, b"key", 1, b"value");
    assert_eq!(m.approximate_size(), 3 + 8 + 5);
    assert!(!m.is_empty());
    // An overwritten version counts again.
    put(&mut m, b"key", 1, b"");
    assert_eq!(m.approximate_size(), 16 + 11);
    let batch: Vec<(KeySlice<'_>, &[u8])> =
        vec![(KeySlice::from_slice(b"x", 2), b"1"), (KeySlice::from_slice(b"y", 2), b"2")];
    assert!(m.put_batch(&batch).is_ok());
    assert_eq!(m.approximate_size(), 27 + 20);
    assert_eq!(rest(m.scan(Bound::Unbounded, Bound::Unbounded)).len(), 3);
}

#[test]
fn flush_adds_all_versions_to_a_table() {
    let m = sample();
    let mut builder = SsTableBuilder::new(64);
    assert!(m.flush(&mut builder).is_ok());
    let table = match builder.build(4) {
        Ok(t) => t,
        Err(_) => panic!("the table cannot be built"),
    };
    assert_eq!(
        rest(SsTableIterator::create_and_seek_to_first(&table)),
        rest(m.scan(Bound::Unbounded, Bound::Unbounded))
    );
}

#[test]
fn memtable_is_recovered_from_its_log() {
    let mut m = MemTable::create_with_wal(7);
    put(&mut m, b"b", 2, b"b2");
    put(&mut m, b"a", 1, b"");
    put(&mut m, b"b", 2, b"b2 again");
    let bytes = m.sync_wal();
    let recovered = match MemTable::recover_from_wal(7, &bytes) {
        Ok(r) => r,
        Err(_) => panic!("the log cannot be read"),
    };
    assert_eq!(recovered.id(), 7);
    assert_eq!(
        rest(recovered.scan(Bound::Unbounded, Bound::Unbounded)),
        rest(m.scan(Bound::Unbounded, Bound::Unbounded))
    );
    assert_eq!(recovered.approximate_size(), 9 + 9 + 8);
    assert!(MemTable::recover_from_wal(7, &bytes[1..]).is_err());
    assert!(sample().sync_wal().is_empty());
}

#[test]
fn bounds_take_timestamps() {
    let at = |b: Bound<tiny_lsm::key::KeyVec>| match b {
        Bound::Included(k) => (1, k.as_key_slice().ts()),
        Bound::Excluded(k) => (2, k.as_key_slice().ts()),
        Bound::Unbounded => (3, 0),
    };
    assert_eq!(at(map_bound_lower(Bound::Included(b"k"))), (1, u64::MAX));
    assert_eq!(at(map_bound_lower(Bound::Excluded(b"k"))), (2, 0));
    assert_eq!(at(map_bound_upper(Bound::Included(b"k"))), (1, 0));
    assert_eq!(at(map_bound_upper(Bound::Excluded(b"k"))), (2, u64::MAX));
    assert_eq!(at(map_bound_keybytes(Bound::Included(b"k"))), (1, 0));
    assert_eq!(at(map_bound_keybytes(Bound::Excluded(b"k"))), (2, 0));
    assert_eq!(at(map_bound_keybytes(Bound::Unbounded)), (3, 0));
}
