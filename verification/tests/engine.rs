use tiny_lsm::compact::{
    CompactionController, CompactionOptions, CompactionTask, SimpleLeveledCompactionController,
    SimpleLeveledCompactionOptions, SimpleLeveledCompactionTask, TieredCompactionOptions,
    TieredCompactionTask,
};
use tiny_lsm::deps::Bound;
use tiny_lsm::error::LsmError;
use tiny_lsm::iterators::StorageIterator;
use tiny_lsm::key::KeySlice;
use tiny_lsm::lsm_storage::read::{key_within, range_overlap};
use tiny_lsm::lsm_storage::recover::replay_manifest;
use tiny_lsm::lsm_storage::write::can_store;
use tiny_lsm::lsm_storage::{
    CompactionFilter, LsmStorageInner, LsmStorageOptions, LsmStorageState, WriteBatchRecord,
};
use tiny_lsm::manifest::ManifestRecord;
use tiny_lsm::table::FileObject;

fn options(compaction_options: CompactionOptions, enable_wal: bool) -> LsmStorageOptions {
    LsmStorageOptions {
        block_size: 64,
        target_sst_size: 100_000,
        num_memtable_limit: 2,
        compaction_options,
        enable_wal,
        serializable: false,
    }
}

fn simple() -> CompactionOptions {
    CompactionOptions::Simple(SimpleLeveledCompactionOptions {
        size_ratio_percent: 200,
        level0_file_num_compaction_trigger: 2,
        max_levels: 3,
    })
}

fn engine() -> LsmStorageInner {
    LsmStorageInner::create(options(CompactionOptions::NoCompaction, false))
}

fn put(e: &mut LsmStorageInner, k: &str, v: &str) {
    assert!(e.put(k.as_bytes(), v.as_bytes()).is_ok());
}

fn get(e: &LsmStorageInner, k: &str) -> Option<String> {
    match e.get(k.as_bytes()) {
        Ok(v) => v.map(|b| String::from_utf8_lossy(&b).to_string()),
        Err(_) => panic!("a read failed"),
    }
}

fn get_at(e: &LsmStorageInner, k: &str, ts: u64) -> Option<String> {
    match e.get_with_ts(k.as_bytes(), ts) {
        Ok(v) => v.map(|b| String::from_utf8_lossy(&b).to_string()),
        Err(_) => panic!("a read failed"),
    }
}

fn rest<I: StorageIterator>(mut iter: I) -> Vec<String> {
    let mut out = Vec::new();
    while iter.is_valid() {
        assert_eq!(iter.key().ts(), 0);
        out.push(format!(
            "{}={}",
            String::from_utf8_lossy(iter.key().key_ref()),
            String::from_utf8_lossy(iter.value())
        ));
        assert!(iter.next().is_ok());
    }
    out
}

fn scan(e: &LsmStorageInner, lo: Bound<&[u8]>, up: Bound<&[u8]>) -> Vec<String> {
    match e.scan(lo, up) {
        Ok(it) => rest(it),
        Err(_) => panic!("a scan failed"),
    }
}

fn flush(e: &mut LsmStorageInner) {
    assert!(e.force_flush().is_ok());
}

#[test]
fn reads_give_back_writes() {
    let mut e = engine();
    assert_eq!(get(&e, "a"), None);
    put(&mut e, "a", "1");
    assert_eq!(get(&e, "a").as_deref(), Some("1"));
    put(&mut e, "a", "2");
    assert_eq!(get(&e, "a").as_deref(), Some("2"));
    assert!(e.delete(b"a").is_ok());
    assert_eq!(get(&e, "a"), None);
    assert_eq!(e.mvcc().latest_commit_ts(), 3);
    // Earlier timestamps still see what was there.
    assert_eq!(get_at(&e, "a", 2).as_deref(), Some("2"));
    assert_eq!(get_at(&e, "a", 1).as_deref(), Some("1"));
    assert_eq!(get_at(&e, "a", 0), None);
}

#[test]
fn batches_are_written_at_one_timestamp() {
    let mut e = engine();
    put(&mut e, "x", "old");
    let batch: Vec<WriteBatchRecord<&[u8]>> = vec![
        WriteBatchRecord::Put(b"a", b"1"),
        WriteBatchRecord::Put(b"b", b"2"),
        WriteBatchRecord::Put(b"a", b"3"),
        WriteBatchRecord::Del(b"x"),
    ];
    assert!(e.write_batch(&batch).is_ok());
    assert_eq!(e.mvcc().latest_commit_ts(), 2);
    assert_eq!(get(&e, "a").as_deref(), Some("3"));
    assert_eq!(get(&e, "b").as_deref(), Some("2"));
    assert_eq!(get(&e, "x"), None);
    assert_eq!(get_at(&e, "x", 1).as_deref(), Some("old"));
    assert_eq!(get_at(&e, "a", 1), None);
}

#[test]
fn batches_are_measured() {
    let key = vec![b'k'; 65527];
    let value = vec![b'v'; 65535];
    let long = vec![b'x'; 65536];
    assert!(can_store(&[WriteBatchRecord::Put(&key, &value), WriteBatchRecord::Del(&key)]));
    assert!(!can_store(&[WriteBatchRecord::Put(&key, &long)]));
    assert!(!can_store(&[WriteBatchRecord::Put(&long[..65528], &value)]));
    assert!(!can_store(&[WriteBatchRecord::Put(&key, &value), WriteBatchRecord::Del(&long)]));
    assert!(can_store(&[]));
}

#[test]
fn empty_keys_are_never_found() {
    let mut e = engine();
    put(&mut e, "", "value");
    assert_eq!(get(&e, ""), None);
}

#[test]
fn reads_go_through_memtables_and_tables() {
    let mut e = engine();
    for round in 0..4 {
        for i in 0..20 {
            put(&mut e, &format!("k{:02}", i), &format!("{}-{}", round, i));
        }
        assert!(e.delete(format!("k{:02}", round).as_bytes()).is_ok());
        if round < 2 {
            flush(&mut e);
        } else if round == 2 {
            assert!(e.force_freeze_memtable().is_ok());
        }
    }
    assert_eq!(e.state.l0_sstables, vec![1, 0]);
    assert_eq!(e.state.imm_memtables.len(), 1);
    assert!(e.state.is_ordered());
    for i in 0..20 {
        let expected = if i == 3 { None } else { Some(format!("3-{}", i)) };
        assert_eq!(get(&e, &format!("k{:02}", i)), expected);
    }
    // As of the end of the first round, 21 writes in.
    assert_eq!(get_at(&e, "k00", 21), None);
    assert_eq!(get_at(&e, "k01", 21).as_deref(), Some("0-1"));
    assert_eq!(get_at(&e, "k01", 20).as_deref(), Some("0-1"));
    assert_eq!(get_at(&e, "k00", 20).as_deref(), Some("0-0"));
    assert_eq!(get(&e, "k20"), None);
    assert_eq!(get(&e, "a"), None);
    let all = scan(&e, Bound::Unbounded, Bound::Unbounded);
    assert_eq!(all.len(), 19);
    assert_eq!(all[0], "k00=3-0");
    assert_eq!(all[3], "k04=3-4");
}

#[test]
fn scans_keep_to_their_range() {
    let mut e = engine();
    for k in ["a", "b", "c", "d", "e"] {
        put(&mut e, k, k);
        if k == "c" {
            flush(&mut e);
        }
    }
    assert!(e.delete(b"d").is_ok());
    let all = |lo, up| scan(&e, lo, up).join(",");
    assert_eq!(all(Bound::Unbounded, Bound::Unbounded), "a=a,b=b,c=c,e=e");
    assert_eq!(all(Bound::Included(b"b"), Bound::Included(b"d")), "b=b,c=c");
    assert_eq!(all(Bound::Excluded(b"b"), Bound::Unbounded), "c=c,e=e");
    assert_eq!(all(Bound::Unbounded, Bound::Excluded(b"b")), "a=a");
    assert_eq!(all(Bound::Included(b"bb"), Bound::Excluded(b"e")), "c=c");
    assert_eq!(all(Bound::Included(b"x"), Bound::Unbounded), "");
    assert_eq!(all(Bound::Unbounded, Bound::Included(b"A")), "");
    let old = match e.scan_with_ts(Bound::Unbounded, Bound::Unbounded, 4) {
        Ok(it) => rest(it),
        Err(_) => panic!("a scan failed"),
    };
    assert_eq!(old.join(","), "a=a,b=b,c=c,d=d");
}

#[test]
fn large_memtables_are_frozen() {
    let mut e = engine();
    e.options.target_sst_size = 50;
    put(&mut e, "a", "0123456789");
    assert_eq!(e.state.imm_memtables.len(), 0);
    put(&mut e, "b", "0123456789");
    assert_eq!(e.state.imm_memtables.len(), 0);
    put(&mut e, "c", "0123456789");
    // 3 * (1 + 8 + 10) = 57
    assert_eq!(e.state.imm_memtables.len(), 1);
    assert_eq!(e.state.memtable.id(), 1);
    assert!(e.state.memtable.is_empty());
    assert_eq!(e.next_sst_id, 2);
    assert!(matches!(e.manifest.take()[..], [ManifestRecord::NewMemtable(1)]));
    assert!(e.manifest.take().is_empty());
    assert_eq!(get(&e, "a").as_deref(), Some("0123456789"));
}

#[test]
fn flushes_follow_the_limit() {
    let mut e = engine();
    put(&mut e, "a", "1");
    assert!(e.force_freeze_memtable().is_ok());
    assert!(e.flush_due() == false || e.options.num_memtable_limit < 2);
    assert!(e.trigger_flush().is_ok());
    assert_eq!(e.state.imm_memtables.len(), 1);
    put(&mut e, "b", "2");
    assert!(e.force_freeze_memtable().is_ok());
    assert!(e.flush_due());
    assert!(e.trigger_flush().is_ok());
    assert_eq!(e.state.imm_memtables.len(), 1);
    assert_eq!(e.state.l0_sstables, vec![0]);
    assert!(matches!(
        e.manifest.take()[..],
        [
            ManifestRecord::NewMemtable(1),
            ManifestRecord::NewMemtable(2),
            ManifestRecord::Flush(0)
        ]
    ));
    assert_eq!(get(&e, "a").as_deref(), Some("1"));
    assert_eq!(get(&e, "b").as_deref(), Some("2"));
    // Without immutable memtables nothing happens.
    let mut e = engine();
    assert!(e.force_flush_next_imm_memtable().is_ok());
    assert!(e.state.l0_sstables.is_empty());
    assert!(matches!(e.build_next_imm_memtable(), Ok(None)));
    flush(&mut e);
    assert_eq!(e.next_sst_id, 1);
}

#[test]
fn tiers_are_flushed_to_tiers() {
    let tiered = CompactionOptions::Tiered(TieredCompactionOptions { num_tiers: 3 });
    let mut e = LsmStorageInner::create(options(tiered, false));
    assert!(e.state.levels.is_empty());
    put(&mut e, "a", "1");
    flush(&mut e);
    put(&mut e, "a", "2");
    flush(&mut e);
    assert!(e.state.l0_sstables.is_empty());
    assert_eq!(e.state.levels, vec![(1, vec![1]), (0, vec![0])]);
    assert_eq!(get(&e, "a").as_deref(), Some("2"));
    assert_eq!(get_at(&e, "a", 1).as_deref(), Some("1"));
    let task = CompactionTask::Tiered(TieredCompactionTask {
        tiers: vec![(1, vec![1]), (0, vec![0])],
        bottom_tier_included: true,
    });
    assert!(task.compact_to_bottom_level());
    let out = match e.compact(&task) {
        Ok(ts) => ts,
        Err(_) => panic!("the compaction failed"),
    };
    assert_eq!(out.len(), 1);
    assert_eq!(out[0].sst_id(), 3);
    assert!(!CompactionController::for_options(&e.options.compaction_options).flush_to_l0());
}

#[test]
fn full_compaction_keeps_what_readers_see() {
    let mut e = engine();
    for round in 0..3 {
        for i in 0..30 {
            put(&mut e, &format!("k{:02}", i), &format!("{}-{}", round, i));
        }
        flush(&mut e);
    }
    let before = scan(&e, Bound::Unbounded, Bound::Unbounded);
    assert_eq!(e.state.l0_sstables.len(), 3);
    let removed = match e.force_full_compaction() {
        Ok(ids) => ids,
        Err(_) => panic!("the compaction failed"),
    };
    assert_eq!(removed, vec![2, 1, 0]);
    assert!(e.state.l0_sstables.is_empty());
    assert_eq!(e.state.levels, vec![(1, vec![4])]);
    assert_eq!(e.state.sstables.len(), 1);
    assert_eq!(e.next_sst_id, 5);
    assert!(e.state.is_ordered());
    assert_eq!(scan(&e, Bound::Unbounded, Bound::Unbounded), before);
    assert_eq!(get(&e, "k07").as_deref(), Some("2-7"));
    assert_eq!(get_at(&e, "k07", 30).as_deref(), Some("0-7"));
}

#[test]
fn output_is_cut_at_the_target_size() {
    let mut e = engine();
    for i in 0..60 {
        put(&mut e, &format!("k{:02}", i), "some value");
    }
    flush(&mut e);
    e.options.target_sst_size = 256;
    assert!(e.force_full_compaction().is_ok());
    let ids = e.state.levels[0].1.clone();
    assert!(ids.len() > 3);
    assert_eq!(ids, (2..2 + ids.len()).collect::<Vec<usize>>());
    assert!(e.state.is_ordered());
    assert_eq!(scan(&e, Bound::Unbounded, Bound::Unbounded).len(), 60);
    for i in 0..60 {
        assert_eq!(get(&e, &format!("k{:02}", i)).as_deref(), Some("some value"));
    }
}

#[test]
fn marks_of_deletion_are_dropped_at_the_bottom() {
    let mut e = engine();
    assert!(e.delete(b"gone").is_ok());
    put(&mut e, "here", "1");
    flush(&mut e);
    assert!(e.force_full_compaction().is_ok());
    assert_eq!(get(&e, "gone"), None);
    assert_eq!(get(&e, "here").as_deref(), Some("1"));
    let kept = &e.state.sstables[&e.state.levels[0].1[0]];
    assert_eq!(kept.first_key().as_key_slice().key_ref(), b"here");
    // Nothing but marks of deletion leads to a table without entries.
    let mut e = engine();
    assert!(e.delete(b"gone").is_ok());
    flush(&mut e);
    assert!(e.force_full_compaction().is_ok());
    assert_eq!(e.state.levels, vec![(1, vec![2])]);
    assert_eq!(e.state.sstables[&2].num_of_blocks(), 0);
    assert_eq!(e.next_sst_id, 3);
    assert_eq!(get(&e, "gone"), None);
    assert!(scan(&e, Bound::Unbounded, Bound::Unbounded).is_empty());
}

#[test]
fn deleted_keys_stay_deleted() {
    let mut e = engine();
    put(&mut e, "k", "old");
    assert!(e.delete(b"k").is_ok());
    assert!(e.delete(b"never").is_ok());
    flush(&mut e);
    assert_eq!(get(&e, "k"), None);
    assert!(e.force_full_compaction().is_ok());
    assert_eq!(get(&e, "k"), None);
    assert_eq!(get_at(&e, "k", 1).as_deref(), Some("old"));
    assert_eq!(get(&e, "never"), None);
    assert!(scan(&e, Bound::Unbounded, Bound::Unbounded).is_empty());
    // Over several tables, too.
    let mut e = engine();
    put(&mut e, "k", "old");
    flush(&mut e);
    assert!(e.delete(b"k").is_ok());
    flush(&mut e);
    assert!(e.force_full_compaction().is_ok());
    assert_eq!(get(&e, "k"), None);
    assert_eq!(get_at(&e, "k", 1).as_deref(), Some("old"));
    put(&mut e, "k", "new");
    assert_eq!(get(&e, "k").as_deref(), Some("new"));
    flush(&mut e);
    assert!(e.force_full_compaction().is_ok());
    assert_eq!(get(&e, "k").as_deref(), Some("new"));
    assert_eq!(get_at(&e, "k", 2), None);
}

#[test]
fn full_compaction_keeps_marks_over_lower_levels() {
    let mut e = LsmStorageInner::create(options(simple(), false));
    for v in ["1", "2"] {
        put(&mut e, "k", v);
        flush(&mut e);
    }
    for _ in 0..3 {
        assert!(matches!(e.trigger_compaction(), Ok(ids) if !ids.is_empty()));
    }
    assert_eq!(e.state.levels[0], (1, vec![]));
    assert_eq!(e.state.levels[2].1.len(), 1);
    assert!(e.delete(b"k").is_ok());
    flush(&mut e);
    assert_eq!(get(&e, "k"), None);
    assert!(e.force_full_compaction().is_ok());
    // The mark of deletion is in L1, above the versions that it hides.
    assert_eq!(e.state.levels[0].1.len(), 1);
    assert_eq!(get(&e, "k"), None);
    assert_eq!(get_at(&e, "k", 2).as_deref(), Some("2"));
    assert_eq!(get_at(&e, "k", 1).as_deref(), Some("1"));
    // On its way down it stays with them.
    while matches!(e.trigger_compaction(), Ok(ids) if !ids.is_empty()) {}
    assert_eq!(get(&e, "k"), None);
    assert_eq!(get_at(&e, "k", 2).as_deref(), Some("2"));
}

#[test]
fn writes_leave_other_keys_and_older_readers() {
    let mut e = engine();
    put(&mut e, "a", "1");
    put(&mut e, "b", "1");
    put(&mut e, "a", "2");
    assert_eq!(get(&e, "b").as_deref(), Some("1"));
    assert_eq!(get_at(&e, "a", 2).as_deref(), Some("1"));
    assert!(e.delete(b"a").is_ok());
    assert_eq!(get(&e, "a"), None);
    assert_eq!(get(&e, "b").as_deref(), Some("1"));
    assert_eq!(get_at(&e, "a", 3).as_deref(), Some("2"));
    let batch: [WriteBatchRecord<&[u8]>; 2] =
        [WriteBatchRecord::Put(b"a", b"4"), WriteBatchRecord::Del(b"b")];
    assert!(e.write_batch(&batch).is_ok());
    assert_eq!(get(&e, "a").as_deref(), Some("4"));
    assert_eq!(get(&e, "b"), None);
    assert_eq!(get_at(&e, "b", 4).as_deref(), Some("1"));
}

#[test]
fn simple_leveled_compaction_moves_tables_down() {
    let mut e = LsmStorageInner::create(options(simple(), false));
    assert_eq!(e.state.levels, vec![(1, vec![]), (2, vec![]), (3, vec![])]);
    assert!(e.state.is_numbered());
    put(&mut e, "a", "1");
    flush(&mut e);
    // One table in L0 is not enough.
    assert!(matches!(e.trigger_compaction(), Ok(ids) if ids.is_empty()));
    put(&mut e, "b", "2");
    flush(&mut e);
    assert!(matches!(e.trigger_compaction(), Ok(ids) if ids == vec![1, 0]));
    assert_eq!(e.state.levels, vec![(1, vec![3]), (2, vec![]), (3, vec![])]);
    // 0 * 100 / 1 is below 200.
    assert!(matches!(e.trigger_compaction(), Ok(ids) if ids == vec![3]));
    assert_eq!(e.state.levels, vec![(1, vec![]), (2, vec![4]), (3, vec![])]);
    assert!(matches!(e.trigger_compaction(), Ok(ids) if ids == vec![4]));
    assert_eq!(e.state.levels, vec![(1, vec![]), (2, vec![]), (3, vec![5])]);
    assert!(matches!(e.trigger_compaction(), Ok(ids) if ids.is_empty()));
    assert_eq!(e.state.sstables.len(), 1);
    assert_eq!(get(&e, "a").as_deref(), Some("1"));
    assert_eq!(get(&e, "b").as_deref(), Some("2"));
    assert!(e.state.is_numbered());
}

#[test]
fn compaction_ratio_is_in_percent() {
    let ctrl = SimpleLeveledCompactionController::new(SimpleLeveledCompactionOptions {
        size_ratio_percent: 150,
        level0_file_num_compaction_trigger: 2,
        max_levels: 3,
    });
    assert!(!ctrl.compaction_required(0, 0));
    assert!(ctrl.compaction_required(1, 0));
    assert!(ctrl.compaction_required(2, 2));
    assert!(!ctrl.compaction_required(2, 3));
    assert!(ctrl.compaction_required(3, 4));
    assert!(!ctrl.compaction_required(1, usize::MAX));
}

#[test]
fn tables_flushed_during_a_compaction_stay() {
    let mut e = LsmStorageInner::create(options(simple(), false));
    put(&mut e, "a", "1");
    flush(&mut e);
    put(&mut e, "b", "2");
    flush(&mut e);
    let task = match e.compaction_controller.generate_compaction_task(&e.state) {
        Some(t) => t,
        None => panic!("a compaction is due"),
    };
    let out = match e.compact(&task) {
        Ok(ts) => ts,
        Err(_) => panic!("the compaction failed"),
    };
    put(&mut e, "a", "3");
    flush(&mut e);
    let removed = e.install_compaction(&task, out);
    assert_eq!(removed, vec![1, 0]);
    assert_eq!(e.state.l0_sstables, vec![2]);
    assert_eq!(e.state.levels[0], (1, vec![3]));
    assert_eq!(get(&e, "a").as_deref(), Some("3"));
    assert_eq!(get(&e, "b").as_deref(), Some("2"));
}

#[test]
fn application_of_results_leaves_the_rest() {
    let ctrl = SimpleLeveledCompactionController::new(SimpleLeveledCompactionOptions {
        size_ratio_percent: 150,
        level0_file_num_compaction_trigger: 2,
        max_levels: 3,
    });
    let mut state = LsmStorageState::create(&options(simple(), false));
    state.l0_sstables = vec![9, 8, 7];
    state.levels = vec![(1, vec![1, 2]), (2, vec![3]), (3, vec![4])];
    let task = SimpleLeveledCompactionTask {
        upper_level: Some(1),
        upper_level_sst_ids: vec![1, 2],
        lower_level: 2,
        lower_level_sst_ids: vec![3],
        is_lower_level_bottom_level: false,
    };
    assert_eq!(ctrl.apply_compaction_result(&mut state, &task, &[10, 11]), vec![1, 2, 3]);
    assert_eq!(state.l0_sstables, vec![9, 8, 7]);
    assert_eq!(state.levels, vec![(1, vec![]), (2, vec![10, 11]), (3, vec![4])]);
    let task = SimpleLeveledCompactionTask {
        upper_level: None,
        upper_level_sst_ids: vec![8, 7],
        lower_level: 1,
        lower_level_sst_ids: vec![],
        is_lower_level_bottom_level: false,
    };
    assert_eq!(ctrl.apply_compaction_result(&mut state, &task, &[12]), vec![8, 7]);
    assert_eq!(state.l0_sstables, vec![9]);
    assert_eq!(state.levels[0], (1, vec![12]));
}

#[test]
fn ranges_overlap_up_to_their_ends() {
    let (b, d) = (KeySlice::from_slice(b"b", 1), KeySlice::from_slice(b"d", 1));
    assert!(range_overlap(Bound::Unbounded, Bound::Unbounded, b, d));
    assert!(range_overlap(Bound::Included(b"d"), Bound::Unbounded, b, d));
    assert!(!range_overlap(Bound::Excluded(b"d"), Bound::Unbounded, b, d));
    assert!(range_overlap(Bound::Unbounded, Bound::Included(b"b"), b, d));
    assert!(!range_overlap(Bound::Unbounded, Bound::Excluded(b"b"), b, d));
    assert!(!range_overlap(Bound::Unbounded, Bound::Included(b"a"), b, d));
    assert!(!range_overlap(Bound::Included(b"e"), Bound::Unbounded, b, d));
    assert!(key_within(b"b", b, d));
    assert!(key_within(b"d", b, d));
    assert!(!key_within(b"a", b, d));
    assert!(!key_within(b"da", b, d));
}

/// What an engine leaves behind: the records of its manifest, the logs of its memtables, and the
/// files of its tables, in the order in which a restart asks for them.
fn restart(
    e: &mut LsmStorageInner,
    options: LsmStorageOptions,
    records: &Vec<ManifestRecord>,
) -> Result<LsmStorageInner, LsmError> {
    let recovery = replay_manifest(&options, records)?;
    let mut logs: Vec<Vec<u8>> = vec![e.state.memtable.sync_wal()];
    for m in e.state.imm_memtables.iter_mut() {
        logs.push(m.sync_wal());
    }
    let files: Vec<FileObject> = recovery
        .state
        .sst_ids()
        .iter()
        .map(|id| FileObject { data: e.state.sstables[id].file_content().to_vec() })
        .collect();
    LsmStorageInner::restart(options, recovery, &logs, files)
}

#[test]
fn restart_brings_back_tables_and_memtables() {
    let make = || options(CompactionOptions::NoCompaction, true);
    let mut e = LsmStorageInner::create(make());
    put(&mut e, "a", "1");
    put(&mut e, "b", "2");
    flush(&mut e);
    put(&mut e, "a", "3");
    assert!(e.force_freeze_memtable().is_ok());
    assert!(e.delete(b"b").is_ok());
    put(&mut e, "c", "4");
    let records = e.manifest.take();
    assert!(matches!(
        records[..],
        [
            ManifestRecord::NewMemtable(0),
            ManifestRecord::NewMemtable(1),
            ManifestRecord::Flush(0),
            ManifestRecord::NewMemtable(2)
        ]
    ));
    let again = match restart(&mut e, make(), &records) {
        Ok(x) => x,
        Err(_) => panic!("the restart failed"),
    };
    assert!(again.state.is_ordered());
    assert!(again.state.is_countable());
    assert_eq!(again.next_sst_id, 3);
    assert_eq!(again.mvcc().latest_commit_ts(), 5);
    assert_eq!(again.state.l0_sstables, vec![0]);
    assert_eq!(again.state.memtable.id(), 2);
    assert_eq!(again.state.imm_memtables.len(), 1);
    assert_eq!(again.state.imm_memtables[0].id(), 1);
    assert_eq!(
        scan(&again, Bound::Unbounded, Bound::Unbounded),
        scan(&e, Bound::Unbounded, Bound::Unbounded)
    );
    assert_eq!(get(&again, "a").as_deref(), Some("3"));
    assert_eq!(get(&again, "b"), None);
    assert_eq!(get_at(&again, "b", 2).as_deref(), Some("2"));
}

#[test]
fn restart_without_logs_has_the_tables() {
    let make = || options(CompactionOptions::NoCompaction, false);
    let mut e = LsmStorageInner::create(make());
    put(&mut e, "a", "1");
    flush(&mut e);
    put(&mut e, "lost", "2");
    let records = e.manifest.take();
    let again = match restart(&mut e, make(), &records) {
        Ok(x) => x,
        Err(_) => panic!("the restart failed"),
    };
    assert_eq!(get(&again, "a").as_deref(), Some("1"));
    assert_eq!(get(&again, "lost"), None);
    assert_eq!(again.mvcc().latest_commit_ts(), 1);
    assert_eq!(again.state.memtable.id(), 0);
}

#[test]
fn manifest_records_are_replayed() {
    let o = options(simple(), false);
    let records = vec![
        ManifestRecord::NewMemtable(0),
        ManifestRecord::NewMemtable(1),
        ManifestRecord::Flush(0),
        ManifestRecord::NewMemtable(2),
        ManifestRecord::Flush(1),
        ManifestRecord::Compaction(
            CompactionTask::Simple(SimpleLeveledCompactionTask {
                upper_level: None,
                upper_level_sst_ids: vec![1, 0],
                lower_level: 1,
                lower_level_sst_ids: vec![],
                is_lower_level_bottom_level: false,
            }),
            vec![7, 5],
        ),
    ];
    let r = match replay_manifest(&o, &records) {
        Ok(r) => r,
        Err(_) => panic!("the records fit"),
    };
    assert_eq!(r.next_sst_id, 8);
    assert_eq!(r.memtables, vec![2]);
    assert!(r.state.l0_sstables.is_empty());
    assert_eq!(r.state.levels, vec![(1, vec![7, 5]), (2, vec![]), (3, vec![])]);
    assert_eq!(r.state.sst_ids(), vec![7, 5]);
    let empty = match replay_manifest(&o, &vec![]) {
        Ok(r) => r,
        Err(_) => panic!("the records fit"),
    };
    assert_eq!(empty.next_sst_id, 0);
}

#[test]
fn records_that_do_not_fit_are_refused() {
    let o = options(CompactionOptions::NoCompaction, false);
    let bad = |r: ManifestRecord| {
        matches!(replay_manifest(&o, &vec![r]), Err(LsmError::BadRecord))
    };
    assert!(bad(ManifestRecord::NewMemtable(usize::MAX)));
    assert!(bad(ManifestRecord::Flush(usize::MAX)));
    assert!(bad(ManifestRecord::Compaction(
        CompactionTask::ForceFullCompaction { l0_sstables: vec![], l1_sstables: vec![] },
        vec![],
    )));
}

#[test]
fn broken_files_stop_a_restart() {
    let make = || options(CompactionOptions::NoCompaction, true);
    let mut e = LsmStorageInner::create(make());
    put(&mut e, "a", "1");
    flush(&mut e);
    let records = e.manifest.take();
    let recover = || match replay_manifest(&make(), &records) {
        Ok(r) => r,
        Err(_) => panic!("the records fit"),
    };
    let file = e.state.sstables[&0].file_content().to_vec();
    let r = LsmStorageInner::restart(
        make(),
        recover(),
        &vec![vec![]],
        vec![FileObject { data: file[1..].to_vec() }],
    );
    assert!(matches!(r, Err(LsmError::Corrupted)));
    let r = LsmStorageInner::restart(
        make(),
        recover(),
        &vec![vec![0]],
        vec![FileObject { data: file }],
    );
    assert!(matches!(r, Err(LsmError::Truncated)));
}

#[test]
fn ids_can_be_used_up() {
    let mut e = engine();
    put(&mut e, "a", "1");
    flush(&mut e);
    e.next_sst_id = usize::MAX;
    assert!(matches!(e.force_full_compaction(), Err(LsmError::IdsUsedUp)));
    assert_eq!(get(&e, "a").as_deref(), Some("1"));
}

#[test]
fn default_options() {
    let a = LsmStorageOptions::default_for_week1_test();
    assert_eq!((a.block_size, a.target_sst_size, a.num_memtable_limit), (4096, 2 << 20, 50));
    assert!(!a.enable_wal && !a.serializable);
    let b = LsmStorageOptions::default_for_week1_day6_test();
    assert_eq!((b.block_size, b.target_sst_size, b.num_memtable_limit), (4096, 2 << 20, 2));
    let c = LsmStorageOptions::default_for_week2_test(simple());
    assert_eq!((c.block_size, c.target_sst_size, c.num_memtable_limit), (4096, 1 << 20, 2));
    assert!(matches!(c.compaction_options, CompactionOptions::Simple(_)));
}

#[test]
fn compaction_filters_are_collected() {
    let mut e = engine();
    e.add_compaction_filter(CompactionFilter::Prefix(bytes::Bytes::copy_from_slice(b"p")));
    assert_eq!(e.compaction_filters.len(), 1);
}
