use crossbeam_skiplist::SkipMap;
use tiny_lsm::deps::SkipList;
use tiny_lsm::error::LsmError;
use tiny_lsm::key::TS_DEFAULT;
use tiny_lsm::mem_table::MemTable;
use tiny_lsm::wal::{native_order, order_of, ByteOrder, Wal};

fn raw(k: &[u8], ts: u64) -> Vec<u8> {
    let mut r = k.to_vec();
    r.extend_from_slice(&ts.to_be_bytes());
    r
}

fn content(list: &SkipList) -> Vec<(Vec<u8>, Vec<u8>)> {
    list.iter()
        .map(|e| {
            assert_eq!(e.key().1, u64::MAX - TS_DEFAULT);
            (e.key().0.clone(), e.value().clone())
        })
        .collect()
}

#[test]
fn records_have_lengths_and_a_checksum() {
    let mut wal = Wal::create_with_order(ByteOrder::Little);
    assert!(wal.put(b"key", b"value").is_ok());
    let bytes = wal.sync();
    let mut checked: Vec<u8> = vec![3, 0];
    checked.extend_from_slice(b"key");
    checked.extend_from_slice(&[5, 0]);
    checked.extend_from_slice(b"value");
    let mut expected: Vec<u8> = vec![0, 3];
    expected.extend_from_slice(b"key");
    expected.extend_from_slice(&[0, 5]);
    expected.extend_from_slice(b"value");
    expected.extend_from_slice(&crc32fast::hash(&checked).to_be_bytes());
    assert_eq!(bytes, expected);
    // Nothing is handed over twice.
    assert!(wal.sync().is_empty());
}

#[test]
fn byte_order_goes_into_the_checksum_only() {
    let mut little = Wal::create_with_order(ByteOrder::Little);
    let mut big = Wal::create_with_order(ByteOrder::Big);
    assert!(little.put(b"k", b"v").is_ok());
    assert!(big.put(b"k", b"v").is_ok());
    let (a, b) = (little.sync(), big.sync());
    assert_eq!(a[..6], b[..6]);
    assert_ne!(a[6..], b[6..]);
    let native = if 1u16.to_ne_bytes()[0] == 1 { ByteOrder::Little } else { ByteOrder::Big };
    assert!(native_order() == native);
}

#[test]
fn byte_order_is_told_from_the_bytes_of_one() {
    assert!(order_of([1, 0]) == ByteOrder::Little);
    assert!(order_of([0, 1]) == ByteOrder::Big);
    assert!(order_of(1u16.to_ne_bytes()) == native_order());
}

#[test]
fn log_is_recovered() {
    let mut wal = Wal::create();
    assert!(wal.put(&raw(b"a", 1), b"one").is_ok());
    assert!(wal.put(&raw(b"b", 2), b"").is_ok());
    assert!(wal.put(&raw(b"a", 3), b"three").is_ok());
    assert!(wal.put(&raw(b"a", 1), b"uno").is_ok());
    let bytes = wal.sync();
    let mut list: SkipList = SkipMap::new();
    assert!(Wal::recover(&bytes, &mut list).is_ok());
    assert_eq!(
        content(&list),
        vec![
            (raw(b"a", 1), b"uno".to_vec()),
            (raw(b"a", 3), b"three".to_vec()),
            (raw(b"b", 2), b"".to_vec()),
        ]
    );
    let mut list: SkipList = SkipMap::new();
    assert!(Wal::recover(&[], &mut list).is_ok());
    assert!(list.is_empty());
}

#[test]
fn broken_logs_are_read_up_to_the_fault() {
    let mut wal = Wal::create_with_order(ByteOrder::Big);
    assert!(wal.put(&raw(b"a", 1), b"one").is_ok());
    assert!(wal.put(&raw(b"b", 2), b"two").is_ok());
    let bytes = wal.sync();
    for n in 21..bytes.len() {
        let mut list: SkipList = SkipMap::new();
        let r = Wal::recover_with_order(ByteOrder::Big, &bytes[..n], &mut list);
        assert!(matches!(r, Err(LsmError::Truncated)));
        assert_eq!(content(&list), vec![(raw(b"a", 1), b"one".to_vec())]);
    }
    let mut changed = bytes.clone();
    changed[22] ^= 1;
    let mut list: SkipList = SkipMap::new();
    let r = Wal::recover_with_order(ByteOrder::Big, &changed, &mut list);
    assert!(matches!(r, Err(LsmError::ChecksumMismatch)));
    assert_eq!(list.len(), 1);
    let mut list: SkipList = SkipMap::new();
    let r = Wal::recover_with_order(ByteOrder::Little, &bytes, &mut list);
    assert!(matches!(r, Err(LsmError::ChecksumMismatch)));
    assert!(list.is_empty());
}

#[test]
fn keys_of_any_length_are_recovered() {
    let mut wal = Wal::create_with_order(ByteOrder::Big);
    let long = vec![b'x'; 65535];
    assert!(wal.put(b"short", b"v").is_ok());
    assert!(wal.put(b"", b"none").is_ok());
    assert!(wal.put(&long, &long).is_ok());
    assert!(wal.put(b"short", b"w").is_ok());
    let bytes = wal.sync();
    let mut list: SkipList = SkipMap::new();
    assert!(Wal::recover_with_order(ByteOrder::Big, &bytes, &mut list).is_ok());
    assert_eq!(
        content(&list),
        vec![
            (b"".to_vec(), b"none".to_vec()),
            (b"short".to_vec(), b"w".to_vec()),
            (long.clone(), long),
        ]
    );
}

#[test]
fn a_memtable_needs_timestamps_in_its_log() {
    let mut wal = Wal::create();
    assert!(wal.put(&raw(b"a", 1), b"one").is_ok());
    let first = wal.sync();
    assert!(wal.put(b"short", b"v").is_ok());
    let mut bytes = first.clone();
    bytes.extend_from_slice(&wal.sync());
    assert!(MemTable::recover_from_wal(1, &first).is_ok());
    assert!(matches!(MemTable::recover_from_wal(1, &bytes), Err(LsmError::Truncated)));
}
