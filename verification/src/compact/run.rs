//! Carries out compactions: merges tables into new ones.
use vstd::prelude::*;
use std::collections::HashMap;
use crate::block;
use crate::compact::CompactionTask;
use crate::error::LsmError;
use crate::iterators;
use crate::iterators::StorageIterator;
use crate::iterators::concat_iterator;
use crate::iterators::concat_iterator::SstConcatIterator;
use crate::iterators::merge_iterator;
use crate::iterators::merge_iterator::MergeIterator;
use crate::iterators::run_iterator;
use crate::iterators::run_iterator::RunIterator;
use crate::iterators::two_merge_iterator;
use crate::iterators::two_merge_iterator::TwoMergeIterator;
use crate::key;
use crate::key::KeyTs;
use crate::lsm_storage;
use crate::lsm_storage::flush;
use crate::lsm_storage::{LsmStorageInner, LsmStorageOptions, LsmStorageState};
use crate::mem_table;
use crate::model;
use crate::model::{Entry, Versions};
use crate::table::builder;
use crate::table::builder::TableDraft;
use crate::table::{SsTable, SsTableBuilder, SsTableIterator};

verus! {

/// Which entries of a run are written to new tables: to the bottom no mark of deletion.
pub open spec fn value_flags(s: Seq<Entry>, to_bottom: bool) -> Seq<bool> {
    Seq::new(s.len(), |i: int| !(to_bottom && s[i].value.len() == 0))
}

/// The entries of a run that are written to new tables.
pub open spec fn kept_entries(s: Seq<Entry>, flags: Seq<bool>) -> Seq<Entry>
    decreases s.len(),
{
    if s.len() == 0 {
        Seq::empty()
    } else if flags[s.len() - 1] {
        kept_entries(s.drop_last(), flags).push(s.last())
    } else {
        kept_entries(s.drop_last(), flags)
    }
}

/// The entries that are written are those with the flag.
pub proof fn lemma_kept_entries(s: Seq<Entry>, flags: Seq<bool>, e: Entry)
    ensures
        kept_entries(s, flags).contains(e) <==> exists|i: int|
            0 <= i < s.len() && #[trigger] flags[i] && s[i] == e,
    decreases s.len(),
{
    let kept = kept_entries(s, flags);
    if s.len() > 0 {
        let t = s.drop_last();
        let before = kept_entries(t, flags);
        lemma_kept_entries(t, flags, e);
        if kept.contains(e) {
            let j = kept.index_of(e);
            if j < before.len() {
                assert(before[j] == e);
                let i = choose|i: int| 0 <= i < t.len() && #[trigger] flags[i] && t[i] == e;
                assert(s[i] == e);
            } else {
                assert(flags[s.len() - 1] && s[s.len() - 1] == e);
            }
        }
        if exists|i: int| 0 <= i < s.len() && #[trigger] flags[i] && s[i] == e {
            let i = choose|i: int| 0 <= i < s.len() && #[trigger] flags[i] && s[i] == e;
            if i < t.len() {
                assert(t[i] == e);
                let j = before.index_of(e);
                assert(kept[j] == e);
            } else {
                assert(kept[before.len() as int] == e);
            }
        }
    }
}

/// New tables in the making: the finished tables, and the one that takes the next
/// entry, if one is begun.
#[verifier::ext_equal]
pub struct Sweep {
    pub done: Seq<TableDraft>,
    pub open: Option<TableDraft>,
}

impl Sweep {
    /// The tables after one more entry, which begins a table even if it is not written. A table is
    /// finished when its blocks have reached the target size.
    pub open spec fn step(self, e: Entry, kept: bool, block_size: usize, target: usize) -> Sweep {
        let begun = match self.open {
            Some(d) => d,
            None => TableDraft::empty(block_size),
        };
        let d = if kept {
            begun.added(e.key, e.value)
        } else {
            begun
        };
        if d.data.len() >= target {
            Sweep { done: self.done.push(d), open: None }
        } else {
            Sweep { done: self.done, open: Some(d) }
        }
    }

    /// All tables, with the last one finished.
    pub open spec fn drafts(self) -> Seq<TableDraft> {
        match self.open {
            Some(d) => self.done.push(d),
            None => self.done,
        }
    }
}

/// The new tables of a run.
pub open spec fn sweep(s: Seq<Entry>, flags: Seq<bool>, block_size: usize, target: usize) -> Sweep
    decreases s.len(),
{
    if s.len() == 0 {
        Sweep { done: Seq::empty(), open: None }
    } else {
        sweep(s.drop_last(), flags, block_size, target).step(
            s.last(),
            flags[s.len() - 1],
            block_size,
            target,
        )
    }
}

/// The drafts of the tables to which the entries of a run with the flag are written.
pub open spec fn output_drafts(s: Seq<Entry>, flags: Seq<bool>, o: LsmStorageOptions) -> Seq<
    TableDraft,
> {
    sweep(s, flags, o.block_size, o.target_sst_size).drafts()
}

/// Why the tables cannot all be built, one after the other, if so: there is no id for one, or it has
/// too many keys for a filter.
pub open spec fn build_error(ds: Seq<TableDraft>, first_id: usize) -> Option<LsmError>
    decreases ds.len(),
{
    if ds.len() == 0 {
        None
    } else {
        match build_error(ds.drop_last(), first_id) {
            Some(e) => Some(e),
            None => if first_id + ds.len() - 1 >= usize::MAX {
                Some(LsmError::IdsUsedUp)
            } else if ds.last().key_hashes.len() * 10 + 7 > usize::MAX {
                Some(LsmError::TooManyKeys)
            } else {
                None
            },
        }
    }
}

/// Tables can all be built if and only if there is an id for each and none has too many keys for a
/// filter.
pub proof fn lemma_can_be_built(ds: Seq<TableDraft>, first_id: usize)
    ensures
        build_error(ds, first_id) is None <==> forall|i: int|
            #![trigger ds[i]]
            0 <= i < ds.len() ==> first_id + i < usize::MAX && ds[i].key_hashes.len() * 10 + 7
                <= usize::MAX,
        build_error(ds, first_id) matches Some(e) ==> e == LsmError::IdsUsedUp || e
            == LsmError::TooManyKeys,
    decreases ds.len(),
{
    if ds.len() > 0 {
        let t = ds.drop_last();
        let n = ds.len() - 1;
        lemma_can_be_built(t, first_id);
        assert(ds[n] == ds.last());
        assert forall|i: int| 0 <= i < n implies #[trigger] t[i] == ds[i] by {}
        if build_error(ds, first_id) is None {
            assert forall|i: int|
                #![trigger ds[i]]
                0 <= i < ds.len() implies first_id + i < usize::MAX && ds[i].key_hashes.len() * 10
                + 7 <= usize::MAX by {
                if i < n {
                    assert(t[i] == ds[i]);
                }
            }
        }
    }
}

/// The first table that cannot be built decides.
proof fn lemma_build_error(ds: Seq<TableDraft>, n: int, first_id: usize)
    requires
        0 <= n <= ds.len(),
        build_error(ds.take(n), first_id) is Some,
    ensures
        build_error(ds, first_id) == build_error(ds.take(n), first_id),
    decreases ds.len() - n,
{
    if n < ds.len() {
        assert(ds.take(n + 1).drop_last() =~= ds.take(n));
        lemma_build_error(ds, n + 1, first_id);
    } else {
        assert(ds.take(n) =~= ds);
    }
}

/// The tables were built from the drafts, with ids from `first_id` on.
pub open spec fn are_built(ts: Seq<SsTable>, ds: Seq<TableDraft>, first_id: usize) -> bool {
    &&& ts.len() == ds.len()
    &&& forall|i: int|
        0 <= i < ts.len() ==> #[trigger] flush::is_built(ts[i], ds[i], (first_id + i) as usize)
}

pub open spec fn draft_runs(ds: Seq<TableDraft>) -> Seq<Seq<Entry>> {
    ds.map_values(|d: TableDraft| d.entries())
}

pub open spec fn run_of(ts: Seq<SsTable>) -> Seq<Entry> {
    model::concat(ts.map_values(|t: SsTable| t.entries()))
}

/// The drafts of a compaction hold the entries that go to the output, one after the other.
pub(crate) proof fn lemma_sweep(s: Seq<Entry>, flags: Seq<bool>, block_size: usize, target: usize)
    requires
        model::sorted(s),
        mem_table::all_storable(s),
        block_size <= 0x1_0000,
    ensures
        ({
            let w = sweep(s, flags, block_size, target);
            &&& forall|i: int| 0 <= i < w.drafts().len() ==> (#[trigger] w.drafts()[i]).sound()
            &&& model::concat(draft_runs(w.drafts())) == kept_entries(s, flags)
            &&& model::sorted(kept_entries(s, flags))
            &&& s.len() > 0 && kept_entries(s, flags).len() > 0 ==> key::key_le(
                kept_entries(s, flags).last().key,
                s.last().key,
            )
            &&& s.len() == 0 ==> kept_entries(s, flags).len() == 0
        }),
    decreases s.len(),
{
    broadcast use crate::key::group_key_order;

    let w = sweep(s, flags, block_size, target);
    let all = kept_entries(s, flags);
    if s.len() == 0 {
        assert(model::concat(draft_runs(w.drafts())) =~= all);
    } else {
        let t = s.drop_last();
        let e = s.last();
        let v = sweep(t, flags, block_size, target);
        let before = kept_entries(t, flags);
        assert(s =~= t + seq![e]);
        model::lemma_sorted_parts(t, seq![e]);
        assert forall|i: int| 0 <= i < t.len() implies block::storable(
            (#[trigger] t[i]).key,
            t[i].value,
        ) by {
            assert(t[i] == s[i]);
        }
        lemma_sweep(t, flags, block_size, target);
        let begun = match v.open {
            Some(d) => d,
            None => TableDraft::empty(block_size),
        };
        let done = model::concat(draft_runs(v.done));
        builder::lemma_empty_sound(block_size);
        match v.open {
            Some(d) => {
                assert(v.drafts()[v.done.len() as int] == d);
                assert(draft_runs(v.drafts()) =~= draft_runs(v.done).push(d.entries()));
                model::lemma_concat_push(draft_runs(v.done), d.entries());
            },
            None => {
                assert(done + begun.entries() =~= done);
            },
        }
        assert(begun.sound());
        assert(before == done + begun.entries());
        assert forall|i: int| 0 <= i < v.done.len() implies (#[trigger] v.done[i]).sound() by {
            assert(v.drafts()[i] == v.done[i]);
        }
        let d = if flags[s.len() - 1] {
            begun.added(e.key, e.value)
        } else {
            begun
        };
        if flags[s.len() - 1] {
            assert(block::storable(s[s.len() - 1].key, s[s.len() - 1].value));
            if before.len() > 0 {
                if t.len() > 0 {
                    assert(key::key_lt(s[s.len() - 2].key, s[s.len() - 1].key));
                }
                assert(key::key_lt(before.last().key, e.key));
            }
            if begun.entries().len() > 0 {
                assert(before.last() == begun.entries().last());
            }
            builder::lemma_added_sound(begun, e.key, e.value);
            assert(Entry { key: e.key, value: e.value } == e);
            assert(done + d.entries() =~= before.push(e));
            let one = seq![e];
            assert(model::sorted(one));
            model::lemma_sorted_append(before, one);
            assert(before + one =~= before.push(e));
        } else if before.len() > 0 && t.len() > 0 {
            assert(key::key_lt(s[s.len() - 2].key, s[s.len() - 1].key));
        }
        assert(all == done + d.entries());
        assert(w.drafts() =~= v.done.push(d));
        assert(draft_runs(w.drafts()) =~= draft_runs(v.done).push(d.entries()));
        model::lemma_concat_push(draft_runs(v.done), d.entries());
        assert forall|i: int| 0 <= i < w.drafts().len() implies (#[trigger] w.drafts()[i]).sound() by {
            if i < v.done.len() {
                assert(w.drafts()[i] == v.done[i]);
            }
        }
    }
}

/// A compaction's output holds the entries that go to it, sorted one table after the other, if
/// stored lengths can hold their sizes.
pub proof fn lemma_output(s: Seq<Entry>, flags: Seq<bool>, o: LsmStorageOptions, ts: Seq<SsTable>, first_id: usize)
    requires
        model::sorted(s),
        mem_table::all_storable(s),
        o.block_size <= 0x1_0000,
        are_built(ts, output_drafts(s, flags, o), first_id),
    ensures
        forall|i: int| 0 <= i < ts.len() ==> (#[trigger] ts[i]).wf(),
        run_of(ts) == kept_entries(s, flags),
        model::sorted(run_of(ts)),
{
    let ds = output_drafts(s, flags, o);
    lemma_sweep(s, flags, o.block_size, o.target_sst_size);
    assert forall|i: int| 0 <= i < ts.len() implies (#[trigger] ts[i]).wf() && ts[i].entries()
        == ds[i].entries() by {
        assert(flush::is_built(ts[i], ds[i], (first_id + i) as usize));
        assert(ds[i].sound());
    }
    assert(ts.map_values(|t: SsTable| t.entries()) =~= draft_runs(ds));
}

/// What is written of a run: all of its entries and, to the bottom, those of them that are no marks of
/// deletion, one table after the other.
pub proof fn lemma_generated(
    s: Seq<Entry>,
    to_bottom: bool,
    o: LsmStorageOptions,
    ts: Seq<SsTable>,
    first_id: usize,
    e: Entry,
)
    requires
        model::sorted(s),
        mem_table::all_storable(s),
        o.block_size <= 0x1_0000,
        are_built(ts, output_drafts(s, value_flags(s, to_bottom), o), first_id),
    ensures
        model::sorted(run_of(ts)),
        run_of(ts).contains(e) <==> s.contains(e) && (to_bottom ==> e.value.len() > 0),
        forall|i: int| 0 <= i < ts.len() ==> (#[trigger] ts[i]).id() == (first_id + i) as usize,
{
    let flags = value_flags(s, to_bottom);
    let ds = output_drafts(s, flags, o);
    lemma_output(s, flags, o, ts, first_id);
    lemma_kept_entries(s, flags, e);
    if s.contains(e) && (to_bottom ==> e.value.len() > 0) {
        let i = s.index_of(e);
        assert(flags[i] && s[i] == e);
    }
    assert forall|i: int| 0 <= i < ts.len() implies (#[trigger] ts[i]).id() == (first_id
        + i) as usize by {
        assert(flush::is_built(ts[i], ds[i], (first_id + i) as usize));
    }
}

/// Finished tables stay.
proof fn lemma_done_grows(s: Seq<Entry>, n: int, flags: Seq<bool>, block_size: usize, target: usize)
    requires
        0 <= n <= s.len(),
    ensures
        ({
            let v = sweep(s.take(n), flags, block_size, target);
            let w = sweep(s, flags, block_size, target);
            &&& v.done.len() <= w.done.len()
            &&& forall|i: int| 0 <= i < v.done.len() ==> v.done[i] == w.done[i]
        }),
    decreases s.len() - n,
{
    if n == s.len() {
        assert(s.take(n) =~= s);
    } else {
        lemma_done_grows(s, n + 1, flags, block_size, target);
        assert(s.take(n + 1).drop_last() =~= s.take(n));
    }
}

/// Which entries of a run are written to new tables, where flags may be given from the last entry to
/// the first.
spec fn flags_of(s: Seq<Entry>, to_bottom: bool, flags: Option<Vec<bool>>) -> Seq<bool> {
    match flags {
        None => value_flags(s, to_bottom),
        Some(f) => f@.reverse(),
    }
}

impl LsmStorageInner {
    /// Writes the entries of an iterator to new tables of about the target size. To the bottom no
    /// mark of deletion is written, which is for entries among which no mark hides an older version.
    pub fn compact_generate_sst_from_iter<I: StorageIterator>(
        iter: I,
        compact_to_bottom: bool,
        options: &LsmStorageOptions,
        next_sst_id: &mut usize,
    ) -> (r: Result<Vec<SsTable>, LsmError>)
        requires
            iter.wf(),
            forall|i: int|
                0 <= i < iter.remaining().len() ==> (#[trigger] iter.remaining()[i]).key.key.len()
                    > 0,
        ensures
            r matches Ok(ts) ==> {
                &&& are_built(
                    ts@,
                    output_drafts(
                        iter.remaining(),
                        value_flags(iter.remaining(), compact_to_bottom),
                        *options,
                    ),
                    *old(next_sst_id),
                )
                &&& *final(next_sst_id) == *old(next_sst_id) + ts@.len()
            },
            r is Ok ==> build_error(
                output_drafts(
                    iter.remaining(),
                    value_flags(iter.remaining(), compact_to_bottom),
                    *options,
                ),
                *old(next_sst_id),
            ) is None,
            r matches Err(e) ==> iter.can_fail(e) || build_error(
                output_drafts(
                    iter.remaining(),
                    value_flags(iter.remaining(), compact_to_bottom),
                    *options,
                ),
                *old(next_sst_id),
            ) == Some(e),
            *final(next_sst_id) >= *old(next_sst_id),
    {
        LsmStorageInner::write_tables(iter, compact_to_bottom, None, options, next_sst_id)
    }

    /// Writes entries of an iterator to new tables of about the target size: those with the flag,
    /// where flags are given from the last entry to the first, and otherwise, to the bottom, those
    /// that are no marks of deletion.
    fn write_tables<I: StorageIterator>(
        iter: I,
        compact_to_bottom: bool,
        flags: Option<Vec<bool>>,
        options: &LsmStorageOptions,
        next_sst_id: &mut usize,
    ) -> (r: Result<Vec<SsTable>, LsmError>)
        requires
            iter.wf(),
            forall|i: int|
                0 <= i < iter.remaining().len() ==> (#[trigger] iter.remaining()[i]).key.key.len()
                    > 0,
            flags matches Some(f) ==> f@.len() == iter.remaining().len(),
        ensures
            r matches Ok(ts) ==> {
                &&& are_built(
                    ts@,
                    output_drafts(
                        iter.remaining(),
                        flags_of(iter.remaining(), compact_to_bottom, flags),
                        *options,
                    ),
                    *old(next_sst_id),
                )
                &&& *final(next_sst_id) == *old(next_sst_id) + ts@.len()
            },
            r is Ok ==> build_error(
                output_drafts(
                    iter.remaining(),
                    flags_of(iter.remaining(), compact_to_bottom, flags),
                    *options,
                ),
                *old(next_sst_id),
            ) is None,
            r matches Err(e) ==> iter.can_fail(e) || build_error(
                output_drafts(
                    iter.remaining(),
                    flags_of(iter.remaining(), compact_to_bottom, flags),
                    *options,
                ),
                *old(next_sst_id),
            ) == Some(e),
            *final(next_sst_id) >= *old(next_sst_id),
    {
        let ghost s = iter.remaining();
        let mut it = iter;
        let ghost kept = flags_of(s, compact_to_bottom, flags);
        let mut left: Option<Vec<bool>> = flags;
        let ghost all = sweep(s, kept, options.block_size, options.target_sst_size);
        let ghost first_id = *next_sst_id;
        let mut builder: Option<SsTableBuilder> = None;
        let mut new_sst: Vec<SsTable> = Vec::new();
        let ghost mut n: int = 0;
        proof {
            assert(s.skip(0) =~= s);
            assert(s.take(0) =~= Seq::empty());
        }
        while it.is_valid()
            invariant
                s == iter.remaining(),
                it.wf(),
                iterators::fails_within(it, iter),
                0 <= n <= s.len(),
                it.remaining() == s.skip(n),
                forall|i: int| 0 <= i < s.len() ==> (#[trigger] s[i]).key.key.len() > 0,
                all == sweep(s, kept, options.block_size, options.target_sst_size),
                first_id == *old(next_sst_id),
                *next_sst_id == first_id + new_sst@.len(),
                kept == flags_of(s, compact_to_bottom, flags),
                kept.len() == s.len(),
                match left {
                    None => kept == value_flags(s, compact_to_bottom),
                    Some(f) => f@.len() == s.len() - n && forall|i: int|
                        0 <= i < f@.len() ==> #[trigger] f@[i] == kept[s.len() - 1 - i],
                },
                builder is Some ==> builder->0@.wf(),
                ({
                    let w = sweep(
                        s.take(n),
                        kept,
                        options.block_size,
                        options.target_sst_size,
                    );
                    &&& are_built(new_sst@, w.done, first_id)
                    &&& build_error(w.done, first_id) is None
                    &&& w.open == match builder {
                        Some(b) => Some(b@),
                        None => None,
                    }
                }),
            decreases s.len() - n,
        {
            let ghost w = sweep(
                s.take(n),
                kept,
                options.block_size,
                options.target_sst_size,
            );
            proof {
                assert(s.skip(n)[0] == s[n]);
                assert(s.take(n + 1).drop_last() =~= s.take(n));
                assert(s.take(n + 1).last() == s[n]);
                assert(s.skip(n).skip(1) =~= s.skip(n + 1));
                lemma_done_grows(
                    s,
                    n + 1,
                    kept,
                    options.block_size,
                    options.target_sst_size,
                );
            }
            let mut builder_inner = match builder.take() {
                Some(b) => b,
                None => SsTableBuilder::new(options.block_size),
            };
            let written: bool = match &mut left {
                None => !(compact_to_bottom && it.value().len() == 0),
                Some(f) => match f.pop() {
                    Some(x) => x,
                    None => true,
                },
            };
            assert(written == kept[n]);
            if written {
                builder_inner.add(it.key(), it.value());
            }
            match it.next() {
                Err(e) => {
                    return Err(e);
                },
                Ok(()) => {},
            }
            if builder_inner.estimated_size() >= options.target_sst_size {
                let ghost d = builder_inner@;
                proof {
                    let after = w.step(
                        s[n],
                        kept[n],
                        options.block_size,
                        options.target_sst_size,
                    );
                    assert(after.done[w.done.len() as int] == d);
                    assert(all.done[w.done.len() as int] == d);
                    let n = w.done.len() as int;
                    assert(w.done.push(d).drop_last() =~= w.done);
                    assert(all.drafts().take(n + 1) =~= w.done.push(d));
                    if build_error(w.done.push(d), first_id) is Some {
                        lemma_build_error(all.drafts(), n + 1, first_id);
                    }
                }
                let ghost before = new_sst@;
                match LsmStorageInner::build_next(builder_inner, next_sst_id) {
                    Err(e) => {
                        assert(build_error(w.done.push(d), first_id) == Some(e));
                        return Err(e);
                    },
                    Ok(sst) => {
                        new_sst.push(sst);
                        assert forall|i: int| 0 <= i < new_sst@.len() implies #[trigger] flush::is_built(
                            new_sst@[i],
                            w.done.push(d)[i],
                            (first_id + i) as usize,
                        ) by {
                            if i < before.len() {
                                assert(flush::is_built(
                                    before[i],
                                    w.done[i],
                                    (first_id + i) as usize,
                                ));
                            }
                        }
                    },
                }
            } else {
                builder = Some(builder_inner);
            }
            proof {
                n = n + 1;
            }
        }
        assert(s.take(n) =~= s);
        match builder {
            None => {},
            Some(b) => {
                let ghost d = b@;
                assert(all.drafts() == all.done.push(d));
                assert(all.drafts().drop_last() =~= all.done);
                let ghost before = new_sst@;
                match LsmStorageInner::build_next(b, next_sst_id) {
                    Err(e) => {
                        return Err(e);
                    },
                    Ok(sst) => {
                        new_sst.push(sst);
                        assert forall|i: int| 0 <= i < new_sst@.len() implies #[trigger] flush::is_built(
                            new_sst@[i],
                            all.done.push(d)[i],
                            (first_id + i) as usize,
                        ) by {
                            if i < before.len() {
                                assert(flush::is_built(
                                    before[i],
                                    all.done[i],
                                    (first_id + i) as usize,
                                ));
                            }
                        }
                    },
                }
            },
        }
        Ok(new_sst)
    }

    /// Builds a table under the next id.
    fn build_next(b: SsTableBuilder, next_sst_id: &mut usize) -> (r: Result<SsTable, LsmError>)
        requires
            b@.wf(),
        ensures
            r matches Ok(t) ==> flush::is_built(t, b@, *old(next_sst_id)) && *final(next_sst_id)
                == *old(next_sst_id) + 1,
            r is Ok <==> *old(next_sst_id) < usize::MAX && b@.key_hashes.len() * 10 + 7
                <= usize::MAX,
            r matches Err(e) ==> e == if *old(next_sst_id) == usize::MAX {
                LsmError::IdsUsedUp
            } else {
                LsmError::TooManyKeys
            },
            *final(next_sst_id) >= *old(next_sst_id),
    {
        let sst_id: usize = *next_sst_id;
        if sst_id == usize::MAX {
            return Err(LsmError::IdsUsedUp);
        }
        *next_sst_id = sst_id + 1;
        b.build(sst_id)
    }
}

/// The versions in a level.
pub open spec fn level_map(tables: Map<usize, SsTable>, ids: Seq<usize>) -> Versions {
    model::entry_map(model::concat(lsm_storage::table_runs(tables, ids)))
}

/// The versions that a task merges. Tables of L0 and tiers that come first decide, and an upper
/// level before the lower.
pub open spec fn task_versions(tables: Map<usize, SsTable>, task: CompactionTask) -> Versions {
    match task {
        CompactionTask::ForceFullCompaction { l0_sstables, l1_sstables } => model::prefer(
            model::merged(lsm_storage::table_maps(tables, l0_sstables@)),
            level_map(tables, l1_sstables@),
        ),
        CompactionTask::Simple(t) => match t.upper_level {
            None => model::prefer(
                model::merged(lsm_storage::table_maps(tables, t.upper_level_sst_ids@)),
                level_map(tables, t.lower_level_sst_ids@),
            ),
            Some(_) => model::prefer(
                level_map(tables, t.upper_level_sst_ids@),
                level_map(tables, t.lower_level_sst_ids@),
            ),
        },
        CompactionTask::Tiered(t) => model::merged(lsm_storage::level_maps(tables, t.tiers@)),
        CompactionTask::Leveled(_) => Map::empty(),
    }
}

/// The tables of a task are there. Leveled tasks cannot be carried out.
pub open spec fn task_ok(tables: Map<usize, SsTable>, task: CompactionTask) -> bool {
    match task {
        CompactionTask::ForceFullCompaction { l0_sstables, l1_sstables } => {
            &&& lsm_storage::tables_ok(tables, l0_sstables@)
            &&& lsm_storage::level_ok(tables, l1_sstables@)
            &&& l0_sstables@.len() < usize::MAX
        },
        CompactionTask::Simple(t) => match t.upper_level {
            None => {
                &&& lsm_storage::tables_ok(tables, t.upper_level_sst_ids@)
                &&& lsm_storage::level_ok(tables, t.lower_level_sst_ids@)
                &&& t.upper_level_sst_ids@.len() < usize::MAX
            },
            Some(_) => {
                &&& lsm_storage::level_ok(tables, t.upper_level_sst_ids@)
                &&& lsm_storage::level_ok(tables, t.lower_level_sst_ids@)
            },
        },
        CompactionTask::Tiered(t) => forall|i: int|
            0 <= i < t.tiers@.len() ==> lsm_storage::level_ok(tables, (#[trigger] t.tiers@[i]).1@),
        CompactionTask::Leveled(_) => false,
    }
}

/// The entries that a task merges, in the order of keys.
pub open spec fn task_run(tables: Map<usize, SsTable>, task: CompactionTask) -> Seq<Entry> {
    model::sorted_entries(task_versions(tables, task))
}

/// No user key in a level is empty.
proof fn lemma_level_keys(tables: Map<usize, SsTable>, ids: Seq<usize>, k: KeyTs)
    requires
        lsm_storage::tables_ok(tables, ids),
        level_map(tables, ids).contains_key(k),
    ensures
        k.key.len() > 0,
{
    let rs = lsm_storage::table_runs(tables, ids);
    let x = model::lemma_entry_map_key(model::concat(rs), k);
    let (i, j) = model::lemma_concat_from(rs, x);
    let t = tables[ids[i]];
    model::lemma_entry_map_index(t.entries(), j);
    lsm_storage::read::lemma_table_keys(t, k);
}

/// No user key in a task is empty.
pub(crate) proof fn lemma_task_keys(tables: Map<usize, SsTable>, task: CompactionTask, k: KeyTs)
    requires
        task_ok(tables, task),
        task_versions(tables, task).contains_key(k),
    ensures
        k.key.len() > 0,
{
    match task {
        CompactionTask::ForceFullCompaction { l0_sstables, l1_sstables } => {
            lemma_l0_keys(tables, l0_sstables@, l1_sstables@, k);
        },
        CompactionTask::Simple(t) => match t.upper_level {
            None => {
                lemma_l0_keys(tables, t.upper_level_sst_ids@, t.lower_level_sst_ids@, k);
            },
            Some(_) => {
                if level_map(tables, t.upper_level_sst_ids@).contains_key(k) {
                    lemma_level_keys(tables, t.upper_level_sst_ids@, k);
                } else {
                    lemma_level_keys(tables, t.lower_level_sst_ids@, k);
                }
            },
        },
        CompactionTask::Tiered(t) => {
            let maps = lsm_storage::level_maps(tables, t.tiers@);
            let i = model::lemma_merged_first(maps, k);
            assert(lsm_storage::level_ok(tables, t.tiers@[i].1@));
            lemma_level_keys(tables, t.tiers@[i].1@, k);
        },
        CompactionTask::Leveled(_) => {},
    }
}

proof fn lemma_l0_keys(tables: Map<usize, SsTable>, upper: Seq<usize>, lower: Seq<usize>, k: KeyTs)
    requires
        lsm_storage::tables_ok(tables, upper),
        lsm_storage::tables_ok(tables, lower),
        model::prefer(
            model::merged(lsm_storage::table_maps(tables, upper)),
            level_map(tables, lower),
        ).contains_key(k),
    ensures
        k.key.len() > 0,
{
    let maps = lsm_storage::table_maps(tables, upper);
    if model::merged(maps).contains_key(k) {
        let i = model::lemma_merged_first(maps, k);
        lsm_storage::read::lemma_table_keys(tables[upper[i]], k);
    } else {
        lemma_level_keys(tables, lower, k);
    }
}

/// The tables with some ids.
pub(crate) fn tables_of<'a>(tables: &'a HashMap<usize, SsTable>, ids: &Vec<usize>) -> (r: Vec<&'a SsTable>)
    requires
        lsm_storage::tables_ok(tables@, ids@),
    ensures
        r@.len() == ids@.len(),
        forall|i: int| 0 <= i < r@.len() ==> (#[trigger] r@[i]).wf(),
        concat_iterator::runs(r@) == lsm_storage::table_runs(tables@, ids@),
{
    let mut r: Vec<&'a SsTable> = Vec::new();
    let mut i: usize = 0;
    while i < ids.len()
        invariant
            i <= ids@.len(),
            lsm_storage::tables_ok(tables@, ids@),
            r@.len() == i,
            forall|j: int|
                0 <= j < i ==> (#[trigger] r@[j]).wf() && r@[j].entries()
                    == tables@[ids@[j]].entries(),
        decreases ids@.len() - i,
    {
        broadcast use vstd::std_specs::hash::group_hash_axioms;

        assert(tables@.contains_key(ids@[i as int]));
        match tables.get(&ids[i]) {
            Some(t) => {
                r.push(t);
            },
            None => {
                assert(false);
            },
        }
        i = i + 1;
    }
    assert(concat_iterator::runs(r@) =~= lsm_storage::table_runs(tables@, ids@));
    r
}

/// An iterator over the tables of L0, the first deciding.
fn l0_iter<'a>(tables: &'a HashMap<usize, SsTable>, ids: &Vec<usize>) -> (r: MergeIterator<
    SsTableIterator<'a>,
>)
    requires
        lsm_storage::tables_ok(tables@, ids@),
    ensures
        r.wf(),
        iterators::never_fails(r),
        r.active() <= ids@.len(),
        model::entry_map(r.remaining()) == model::merged(
            lsm_storage::table_maps(tables@, ids@),
        ),
{
    let ts = tables_of(tables, ids);
    let mut iters: Vec<Box<SsTableIterator<'a>>> = Vec::new();
    let mut i: usize = 0;
    while i < ts.len()
        invariant
            i <= ts@.len(),
            iters@.len() == i,
            forall|j: int| 0 <= j < ts@.len() ==> (#[trigger] ts@[j]).wf(),
            forall|j: int|
                0 <= j < i ==> (#[trigger] iters@[j]).wf() && iters@[j].remaining()
                    == ts@[j].entries(),
        decreases ts@.len() - i,
    {
        iters.push(Box::new(SsTableIterator::create_and_seek_to_first(ts[i])));
        i = i + 1;
    }
    proof {
        let maps = merge_iterator::maps_of(iters@);
        let rs = concat_iterator::runs(ts@);
        assert forall|j: int| 0 <= j < maps.len() implies #[trigger] maps[j]
            == lsm_storage::table_maps(tables@, ids@)[j] by {
            assert(rs[j] == ts@[j].entries());
            assert(lsm_storage::table_runs(tables@, ids@)[j] == tables@[ids@[j]].entries());
            assert(iters@[j].remaining() == ts@[j].entries());
        }
        assert(maps =~= lsm_storage::table_maps(tables@, ids@));
        lsm_storage::read::lemma_active_sum(iters@);
        lsm_storage::read::lemma_merged_maps_finite(iters@);
        model::lemma_sorted_entries(model::merged(maps));
    }
    MergeIterator::create(iters)
}

/// An iterator over a level.
fn level_iter<'a>(tables: &'a HashMap<usize, SsTable>, ids: &Vec<usize>) -> (r: SstConcatIterator<
    'a,
>)
    requires
        lsm_storage::level_ok(tables@, ids@),
    ensures
        r.wf(),
        iterators::never_fails(r),
        r.active() == 1,
        model::entry_map(r.remaining()) == level_map(tables@, ids@),
{
    SstConcatIterator::create_and_seek_to_first(tables_of(tables, ids))
}

/// An iterator over tiers, the first deciding.
fn tiers_iter<'a>(tables: &'a HashMap<usize, SsTable>, tiers: &Vec<(usize, Vec<usize>)>) -> (r:
    MergeIterator<SstConcatIterator<'a>>)
    requires
        forall|i: int|
            0 <= i < tiers@.len() ==> lsm_storage::level_ok(tables@, (#[trigger] tiers@[i]).1@),
    ensures
        r.wf(),
        iterators::never_fails(r),
        model::entry_map(r.remaining()) == model::merged(
            lsm_storage::level_maps(tables@, tiers@),
        ),
{
    let mut iters: Vec<Box<SstConcatIterator<'a>>> = Vec::new();
    let mut i: usize = 0;
    while i < tiers.len()
        invariant
            i <= tiers@.len(),
            forall|j: int|
                0 <= j < tiers@.len() ==> lsm_storage::level_ok(
                    tables@,
                    (#[trigger] tiers@[j]).1@,
                ),
            iters@.len() == i,
            forall|j: int|
                0 <= j < i ==> (#[trigger] iters@[j]).wf() && model::entry_map(
                    iters@[j].remaining(),
                ) == level_map(tables@, tiers@[j].1@),
        decreases tiers@.len() - i,
    {
        assert(lsm_storage::level_ok(tables@, tiers@[i as int].1@));
        iters.push(Box::new(level_iter(tables, &tiers[i].1)));
        i = i + 1;
    }
    proof {
        let maps = merge_iterator::maps_of(iters@);
        assert forall|j: int| 0 <= j < maps.len() implies #[trigger] maps[j]
            == lsm_storage::level_maps(tables@, tiers@)[j] by {
            assert(model::entry_map(iters@[j].remaining()) == level_map(tables@, tiers@[j].1@));
        }
        assert(maps =~= lsm_storage::level_maps(tables@, tiers@));
        lsm_storage::read::lemma_active_sum(iters@);
        lsm_storage::read::lemma_merged_maps_finite(iters@);
        model::lemma_sorted_entries(model::merged(maps));
    }
    MergeIterator::create(iters)
}

/// The entries of an iterator are those of a task.
proof fn lemma_task_iter(tables: Map<usize, SsTable>, task: CompactionTask, s: Seq<Entry>)
    requires
        task_ok(tables, task),
        model::sorted(s),
        model::entry_map(s) == task_versions(tables, task),
    ensures
        s == task_run(tables, task),
        forall|i: int| 0 <= i < s.len() ==> (#[trigger] s[i]).key.key.len() > 0,
{
    model::lemma_sorted_entries_of(s);
    assert forall|i: int| 0 <= i < s.len() implies (#[trigger] s[i]).key.key.len() > 0 by {
        model::lemma_entry_map_index(s, i);
        lemma_task_keys(tables, task, s[i].key);
    }
}

/// No table is in the levels from some index on.
pub open spec fn nothing_from(levels: Seq<(usize, Vec<usize>)>, n: int) -> bool {
    forall|i: int| n <= i < levels.len() ==> (#[trigger] levels[i]).1@.len() == 0
}

/// Nothing lies below what a task merges, so that marks of deletion that hide nothing in it hide
/// nothing at all.
pub open spec fn at_bottom(s: LsmStorageState, task: CompactionTask) -> bool {
    task.to_bottom() && match task {
        CompactionTask::ForceFullCompaction { .. } => nothing_from(s.levels@, 1),
        CompactionTask::Simple(t) => nothing_from(s.levels@, t.lower_level as int),
        _ => true,
    }
}

/// Which entries of a run a compaction keeps: at the bottom all but the marks of deletion that hide
/// nothing, and elsewhere all of them.
pub open spec fn kept_flags(s: Seq<Entry>, bottom: bool) -> Seq<bool> {
    Seq::new(s.len(), |i: int| !bottom || run_iterator::is_live(s, i))
}

/// The drafts of the tables to which a compaction writes a run.
pub open spec fn kept_drafts(s: Seq<Entry>, bottom: bool, o: LsmStorageOptions) -> Seq<TableDraft> {
    output_drafts(s, kept_flags(s, bottom), o)
}

/// The drafts of the tables into which a task merges others.
pub open spec fn task_drafts(i: LsmStorageInner, task: CompactionTask) -> Seq<TableDraft> {
    kept_drafts(task_run(i.state.sstables@, task), at_bottom(i.state, task), i.options)
}

/// The tables that come out of a task, and the ids they take; or why they cannot be built.
pub open spec fn is_compacted(
    before: LsmStorageInner,
    after: LsmStorageInner,
    task: CompactionTask,
    r: Result<Vec<SsTable>, LsmError>,
) -> bool {
    let ds = task_drafts(before, task);
    &&& after == LsmStorageInner { next_sst_id: after.next_sst_id, ..before }
    &&& after.next_sst_id >= before.next_sst_id
    &&& match build_error(ds, before.next_sst_id) {
        None => {
            &&& r matches Ok(ts)
            &&& are_built(ts@, ds, before.next_sst_id)
            &&& after.next_sst_id == before.next_sst_id + ts@.len()
        },
        Some(e) => r == Err::<Vec<SsTable>, LsmError>(e),
    }
}

impl LsmStorageState {
    /// Tells whether nothing lies below what a task merges.
    fn is_at_bottom(&self, task: &CompactionTask) -> (r: bool)
        ensures
            r == at_bottom(*self, *task),
    {
        if !task.compact_to_bottom_level() {
            return false;
        }
        match task {
            CompactionTask::ForceFullCompaction { .. } => self.is_empty_from(1),
            CompactionTask::Simple(t) => self.is_empty_from(t.lower_level),
            _ => true,
        }
    }

    /// Tells whether no table is in the levels from some index on.
    fn is_empty_from(&self, n: usize) -> (r: bool)
        ensures
            r == nothing_from(self.levels@, n as int),
    {
        let mut i: usize = n;
        while i < self.levels.len()
            invariant
                n <= i,
                forall|j: int|
                    n <= j < i && j < self.levels@.len() ==> (
                    #[trigger] self.levels@[j]).1@.len() == 0,
            decreases self.levels@.len() - i,
        {
            if self.levels[i].1.len() > 0 {
                assert(self.levels@[i as int].1@.len() > 0);
                return false;
            }
            i = i + 1;
        }
        true
    }
}

impl LsmStorageInner {
    /// Merges the tables of a task into new ones. The state stays as it is.
    pub fn compact(&mut self, task: &CompactionTask) -> (r: Result<Vec<SsTable>, LsmError>)
        requires
            task_ok(old(self).state.sstables@, *task),
        ensures
            is_compacted(*old(self), *final(self), *task, r),
    {
        let ghost tables = self.state.sstables@;
        let bottom: bool = self.state.is_at_bottom(task);
        match task {
            CompactionTask::ForceFullCompaction { l0_sstables, l1_sstables } => {
                let iter = match LsmStorageInner::two_levels(
                    l0_iter(&self.state.sstables, l0_sstables),
                    level_iter(&self.state.sstables, l1_sstables),
                ) {
                    Err(e) => {
                        return Err(e);
                    },
                    Ok(x) => x,
                };
                proof {
                    iter.lemma_remaining_sorted();
                    lemma_task_iter(tables, *task, iter.remaining());
                }
                LsmStorageInner::write_merged(
                    iter,
                    bottom,
                    &self.options,
                    &mut self.next_sst_id,
                )
            },
            CompactionTask::Simple(t) => {
                if t.upper_level.is_none() {
                    let iter = match LsmStorageInner::two_levels(
                        l0_iter(&self.state.sstables, &t.upper_level_sst_ids),
                        level_iter(&self.state.sstables, &t.lower_level_sst_ids),
                    ) {
                        Err(e) => {
                            return Err(e);
                        },
                        Ok(x) => x,
                    };
                    proof {
                        iter.lemma_remaining_sorted();
                        lemma_task_iter(tables, *task, iter.remaining());
                    }
                    LsmStorageInner::write_merged(
                        iter,
                        bottom,
                        &self.options,
                        &mut self.next_sst_id,
                    )
                } else {
                    let iter = match LsmStorageInner::two_levels(
                        level_iter(&self.state.sstables, &t.upper_level_sst_ids),
                        level_iter(&self.state.sstables, &t.lower_level_sst_ids),
                    ) {
                        Err(e) => {
                            return Err(e);
                        },
                        Ok(x) => x,
                    };
                    proof {
                        iter.lemma_remaining_sorted();
                        lemma_task_iter(tables, *task, iter.remaining());
                    }
                    LsmStorageInner::write_merged(
                        iter,
                        bottom,
                        &self.options,
                        &mut self.next_sst_id,
                    )
                }
            },
            CompactionTask::Tiered(t) => {
                let iter = tiers_iter(&self.state.sstables, &t.tiers);
                proof {
                    iter.lemma_remaining_sorted();
                    lemma_task_iter(tables, *task, iter.remaining());
                }
                LsmStorageInner::write_merged(
                    iter,
                    bottom,
                    &self.options,
                    &mut self.next_sst_id,
                )
            },
            CompactionTask::Leveled(_) => {
                assert(false);
                Ok(Vec::new())
            },
        }
    }

    /// Writes what a compaction keeps of the entries of an iterator to new tables.
    fn write_merged<I: StorageIterator>(
        iter: I,
        bottom: bool,
        options: &LsmStorageOptions,
        next_sst_id: &mut usize,
    ) -> (r: Result<Vec<SsTable>, LsmError>)
        requires
            iter.wf(),
            iterators::never_fails(iter),
            forall|i: int|
                0 <= i < iter.remaining().len() ==> (#[trigger] iter.remaining()[i]).key.key.len()
                    > 0,
        ensures
            ({
                let ds = kept_drafts(iter.remaining(), bottom, *options);
                match build_error(ds, *old(next_sst_id)) {
                    None => {
                        &&& r matches Ok(ts)
                        &&& are_built(ts@, ds, *old(next_sst_id))
                        &&& *final(next_sst_id) == *old(next_sst_id) + ts@.len()
                    },
                    Some(e) => r == Err::<Vec<SsTable>, LsmError>(e),
                }
            }),
            *final(next_sst_id) >= *old(next_sst_id),
    {
        let ghost s = iter.remaining();
        if bottom {
            let run = match RunIterator::create(iter) {
                Err(e) => {
                    return Err(e);
                },
                Ok(it) => it,
            };
            let live = run.live();
            proof {
                assert(flags_of(s, false, Some(live)) =~= kept_flags(s, true));
            }
            LsmStorageInner::write_tables(run, false, Some(live), options, next_sst_id)
        } else {
            proof {
                assert(value_flags(s, false) =~= kept_flags(s, false));
            }
            LsmStorageInner::compact_generate_sst_from_iter(iter, false, options, next_sst_id)
        }
    }

    /// An iterator over an upper and a lower level.
    fn two_levels<A: StorageIterator, B: StorageIterator>(upper: A, lower: B) -> (r: Result<
        TwoMergeIterator<A, B>,
        LsmError,
    >)
        requires
            upper.wf(),
            lower.wf(),
            iterators::never_fails(upper),
            iterators::never_fails(lower),
            upper.active() + lower.active() <= usize::MAX,
        ensures
            r is Ok,
            r->Ok_0.wf(),
            iterators::never_fails(r->Ok_0),
            model::entry_map(r->Ok_0.remaining()) == model::prefer(
                model::entry_map(upper.remaining()),
                model::entry_map(lower.remaining()),
            ),
    {
        proof {
            let a = upper.remaining();
            let b = lower.remaining();
            two_merge_iterator::lemma_two_merged_finite(a, b);
            model::lemma_sorted_entries(two_merge_iterator::two_merged(a, b));
        }
        TwoMergeIterator::create(upper, lower)
    }
}

} // verus!
