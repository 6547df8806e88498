use tiny_lsm::compact::CompactionOptions;
use tiny_lsm::deps::{is_hashable, Bound};
use tiny_lsm::iterators::StorageIterator;
use tiny_lsm::lsm_storage::{LsmStorageInner, LsmStorageOptions};
use tiny_lsm::mvcc::txn::Transaction;

fn engine(serializable: bool) -> LsmStorageInner {
    let mut options = LsmStorageOptions::default_for_week2_test(CompactionOptions::NoCompaction);
    options.serializable = serializable;
    let mut e = LsmStorageInner::create(options);
    for (k, v) in [("a", "1"), ("b", "2"), ("c", "3")] {
        assert!(e.put(k.as_bytes(), v.as_bytes()).is_ok());
    }
    e
}

fn get(t: &mut Transaction, e: &LsmStorageInner, k: &str) -> Option<String> {
    match t.get(e, k.as_bytes()) {
        Ok(v) => v.map(|b| String::from_utf8_lossy(&b).to_string()),
        Err(_) => panic!("a read failed"),
    }
}

fn scan(t: &mut Transaction, e: &LsmStorageInner, lo: Bound<&[u8]>, up: Bound<&[u8]>) -> String {
    let mut iter = match t.scan(e, lo, up) {
        Ok(it) => it,
        Err(_) => panic!("a scan failed"),
    };
    let mut out: Vec<String> = Vec::new();
    while iter.is_valid() {
        out.push(format!(
            "{}={}",
            String::from_utf8_lossy(iter.key().key_ref()),
            String::from_utf8_lossy(iter.value())
        ));
        assert!(iter.next().is_ok());
    }
    let reads = iter.into_reads();
    t.add_reads(&reads);
    out.join(",")
}

#[test]
fn transactions_read_as_of_their_start() {
    let mut e = engine(false);
    let mut t = e.new_txn();
    assert_eq!(t.read_ts, 3);
    assert!(!t.committed);
    assert!(t.key_hashes.is_none());
    assert!(e.put(b"a", b"later").is_ok());
    assert!(e.delete(b"b").is_ok());
    assert_eq!(get(&mut t, &e, "a").as_deref(), Some("1"));
    assert_eq!(get(&mut t, &e, "b").as_deref(), Some("2"));
    assert_eq!(get(&mut t, &e, "x"), None);
    assert_eq!(scan(&mut t, &e, Bound::Unbounded, Bound::Unbounded), "a=1,b=2,c=3");
    let mut u = e.new_txn();
    assert_eq!(get(&mut u, &e, "a").as_deref(), Some("later"));
    assert_eq!(get(&mut u, &e, "b"), None);
}

#[test]
fn transactions_see_their_own_writes() {
    let e = engine(false);
    let mut t = e.new_txn();
    t.put(b"b", b"mine");
    t.put(b"bb", b"new");
    t.delete(b"c");
    t.delete(b"nobody");
    assert_eq!(get(&mut t, &e, "b").as_deref(), Some("mine"));
    assert_eq!(get(&mut t, &e, "c"), None);
    assert_eq!(get(&mut t, &e, "a").as_deref(), Some("1"));
    assert_eq!(scan(&mut t, &e, Bound::Unbounded, Bound::Unbounded), "a=1,b=mine,bb=new");
    assert_eq!(scan(&mut t, &e, Bound::Excluded(b"a"), Bound::Excluded(b"bb")), "b=mine");
    // Others do not.
    let mut u = e.new_txn();
    assert_eq!(get(&mut u, &e, "b").as_deref(), Some("2"));
    assert_eq!(scan(&mut u, &e, Bound::Unbounded, Bound::Unbounded), "a=1,b=2,c=3");
}

#[test]
fn serializable_transactions_note_hashes() {
    let e = engine(true);
    let mut t = e.new_txn();
    assert_eq!(get(&mut t, &e, "a").as_deref(), Some("1"));
    t.put(b"w", b"x");
    t.delete(b"v");
    let noted = |t: &Transaction, k: &[u8]| match &t.key_hashes {
        Some(h) => (h.0.contains(&farmhash::hash32(k)), h.1.contains(&farmhash::hash32(k))),
        None => panic!("hashes are noted"),
    };
    assert_eq!(noted(&t, b"a"), (false, true));
    assert_eq!(noted(&t, b"w"), (true, false));
    assert_eq!(noted(&t, b"v"), (true, false));
    assert_eq!(noted(&t, b"b"), (false, false));
    assert_eq!(scan(&mut t, &e, Bound::Included(b"b"), Bound::Excluded(b"c")), "b=2");
    assert_eq!(noted(&t, b"b"), (false, true));
    assert_eq!(noted(&t, b"c"), (false, false));
}

#[test]
fn keys_without_a_hash_are_not_noted() {
    // Twelve bytes of 0xff overflow the sums of the hash.
    let key = [0xffu8; 12];
    assert!(!is_hashable(&key));
    assert!(is_hashable(b"key0001"));
    let mut e = engine(true);
    assert!(e.put(&key, b"high").is_ok());
    assert!(e.force_flush().is_ok());
    let mut t = e.new_txn();
    match t.get(&e, &key) {
        Ok(Some(v)) => assert_eq!(&v[..], b"high"),
        _ => panic!("the value is there"),
    }
    match &t.key_hashes {
        Some(h) => assert!(h.1.is_empty()),
        None => panic!("hashes are noted"),
    }
}
