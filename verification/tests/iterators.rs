use tiny_lsm::deps::Bound;
use tiny_lsm::iterators::merge_iterator::MergeIterator;
use tiny_lsm::iterators::run_iterator::RunIterator;
use tiny_lsm::iterators::two_merge_iterator::TwoMergeIterator;
use tiny_lsm::iterators::StorageIterator;
use tiny_lsm::key::KeySlice;
use tiny_lsm::lsm_iterator::FusedIterator;
use tiny_lsm::mem_table::{MemTable, MemTableIterator};

fn run(entries: &[(&str, &str)]) -> MemTableIterator {
    let mut m = MemTable::create(0);
    for (k, v) in entries {
        assert!(m.for_testing_put_slice(k.as_bytes(), v.as_bytes()).is_ok());
    }
    m.scan(Bound::Unbounded, Bound::Unbounded)
}

fn rest<I: StorageIterator>(iter: &mut I) -> Vec<String> {
    let mut out = Vec::new();
    while iter.is_valid() {
        out.push(format!(
            "{}={}",
            String::from_utf8_lossy(iter.key().key_ref()),
            String::from_utf8_lossy(iter.value())
        ));
        assert!(iter.next().is_ok());
    }
    out
}

#[test]
fn merge_prefers_the_first_iterator() {
    let mut iter = MergeIterator::create(vec![
        Box::new(run(&[("b", "del"), ("c", "4"), ("d", "5")])),
        Box::new(run(&[("a", "1"), ("b", "2"), ("c", "3")])),
        Box::new(run(&[("e", "4")])),
        Box::new(run(&[])),
    ]);
    assert_eq!(iter.num_active_iterators(), 3);
    assert_eq!(rest(&mut iter), vec!["a=1", "b=del", "c=4", "d=5", "e=4"]);
    assert!(iter.next().is_ok());
    assert!(!iter.is_valid());
}

#[test]
fn merge_of_nothing_is_exhausted() {
    let iters: Vec<Box<MemTableIterator>> = Vec::new();
    let iter = MergeIterator::create(iters);
    assert!(!iter.is_valid());
    assert_eq!(iter.num_active_iterators(), 0);
}

#[test]
fn two_merge_prefers_the_first() {
    let a = run(&[("a", "A"), ("c", "C")]);
    let b = run(&[("a", "x"), ("b", "y"), ("c", "z"), ("d", "w")]);
    let mut iter = match TwoMergeIterator::create(a, b) {
        Ok(it) => it,
        Err(_) => panic!("no iterator"),
    };
    assert_eq!(iter.num_active_iterators(), 2);
    assert_eq!(rest(&mut iter), vec!["a=A", "b=y", "c=C", "d=w"]);
    let mut iter = match TwoMergeIterator::create(run(&[]), run(&[("k", "v")])) {
        Ok(it) => it,
        Err(_) => panic!("no iterator"),
    };
    assert_eq!(rest(&mut iter), vec!["k=v"]);
    // What is exhausted stays so.
    assert!(iter.next().is_ok());
    assert!(!iter.is_valid());
}

#[test]
fn fused_iterator_passes_through() {
    let mut iter = FusedIterator::new(run(&[("a", "1"), ("b", "2")]));
    assert_eq!(iter.num_active_iterators(), 1);
    assert_eq!(rest(&mut iter), vec!["a=1", "b=2"]);
    assert!(iter.next().is_ok());
    assert!(!iter.is_valid());
}

#[test]
fn runs_tell_marks_that_hide_nothing() {
    let mut m = MemTable::create(0);
    for (k, ts, v) in [
        ("a", 3, ""),
        ("a", 2, "a2"),
        ("a", 1, ""),
        ("b", 2, ""),
        ("b", 1, ""),
        ("c", 2, "c2"),
        ("c", 1, ""),
        ("d", 1, "d1"),
    ] {
        assert!(m.put(KeySlice::from_slice(k.as_bytes(), ts), v.as_bytes()).is_ok());
    }
    let mut iter = match RunIterator::create(m.scan(Bound::Unbounded, Bound::Unbounded)) {
        Ok(it) => it,
        Err(_) => panic!("no iterator"),
    };
    // From the last entry to the first.
    assert_eq!(iter.live(), vec![true, false, true, false, false, false, true, true]);
    let mut out = Vec::new();
    while iter.is_valid() {
        let key = iter.key();
        out.push(format!(
            "{}@{}={}",
            String::from_utf8_lossy(key.key_ref()),
            key.ts(),
            String::from_utf8_lossy(iter.value())
        ));
        assert!(iter.next().is_ok());
    }
    assert_eq!(out, vec!["a@3=", "a@2=a2", "a@1=", "b@2=", "b@1=", "c@2=c2", "c@1=", "d@1=d1"]);
}
