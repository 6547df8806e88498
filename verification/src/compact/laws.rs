//! What compactions keep.
use vstd::prelude::*;
use crate::block;
use crate::compact::CompactionTask;
use crate::compact::install;
use crate::compact::run;
use crate::iterators::run_iterator;
use crate::key::KeyTs;
use crate::lsm_storage;
use crate::lsm_storage::{LsmStorageInner, LsmStorageState};
use crate::mem_table;
use crate::mem_table::MemTable;
use crate::model;
use crate::model::{Entry, Versions};
use crate::table::SsTable;
use crate::table::builder::TableDraft;

verus! {

/// What a compaction keeps of some versions: at the bottom all but the marks of deletion that hide
/// nothing, and elsewhere all of them.
pub open spec fn kept_map(m: Versions, bottom: bool) -> Versions {
    if bottom {
        run_iterator::trimmed_map(m)
    } else {
        m
    }
}

/// Between what decides before it, which is newer, and what decides after it, a collection of
/// versions was replaced by what a compaction keeps of it. At the bottom nothing decides after it.
pub open spec fn is_replaced(
    before: Versions,
    after: Versions,
    merged: Versions,
    bottom: bool,
) -> bool {
    exists|above: Versions, below: Versions|
        {
            &&& before == #[trigger] model::prefer(above, model::prefer(merged, below))
            &&& after == model::prefer(above, model::prefer(kept_map(merged, bottom), below))
            &&& model::newer(above, merged)
            &&& bottom ==> below == Map::<KeyTs, Seq<u8>>::empty()
        }
}

/// What a compaction keeps of a run is what it keeps of the run's versions.
pub proof fn lemma_kept_map(s: Seq<Entry>, bottom: bool)
    requires
        model::sorted(s),
        model::sorted(run::kept_entries(s, run::kept_flags(s, bottom))),
    ensures
        model::entry_map(run::kept_entries(s, run::kept_flags(s, bottom))) == kept_map(
            model::entry_map(s),
            bottom,
        ),
{
    let flags = run::kept_flags(s, bottom);
    let kept = run::kept_entries(s, flags);
    let m = model::entry_map(s);
    let n = model::entry_map(kept);
    assert forall|k: KeyTs| #[trigger] n.contains_key(k) implies kept_map(m, bottom).contains_key(k)
        && kept_map(m, bottom)[k] == n[k] by {
        let j = model::lemma_entry_map_key(kept, k);
        run::lemma_kept_entries(s, flags, kept[j]);
        assert(kept.contains(kept[j]));
        let i = choose|i: int| 0 <= i < s.len() && #[trigger] flags[i] && s[i] == kept[j];
        model::lemma_entry_map_index(s, i);
        run_iterator::lemma_live(s, i);
    }
    assert forall|k: KeyTs| #[trigger] kept_map(m, bottom).contains_key(k) implies n.contains_key(
        k,
    ) by {
        let i = model::lemma_entry_map_key(s, k);
        run_iterator::lemma_live(s, i);
        assert(flags[i]);
        run::lemma_kept_entries(s, flags, s[i]);
        let j = kept.index_of(s[i]);
        model::lemma_entry_map_index(kept, j);
    }
    assert(n =~= kept_map(m, bottom));
}

/// What a reader at any timestamp gets of a user key is the same before and after a compaction.
pub proof fn lemma_read_after_compaction(
    before: Versions,
    after: Versions,
    merged: Versions,
    bottom: bool,
    uk: Seq<u8>,
    ts: u64,
)
    requires
        is_replaced(before, after, merged, bottom),
    ensures
        model::lookup(after, uk, ts) == model::lookup(before, uk, ts),
{
    let (above, below) = choose|above: Versions, below: Versions|
        {
            &&& before == #[trigger] model::prefer(above, model::prefer(merged, below))
            &&& after == model::prefer(above, model::prefer(kept_map(merged, bottom), below))
            &&& model::newer(above, merged)
            &&& bottom ==> below == Map::<KeyTs, Seq<u8>>::empty()
        };
    if bottom {
        lemma_read_at_bottom(above, merged, uk, ts);
        let none = Map::<KeyTs, Seq<u8>>::empty();
        assert(model::prefer(merged, none) =~= merged);
        assert(model::prefer(kept_map(merged, true), none) =~= kept_map(merged, true));
    }
}

/// Without the marks of deletion that hide nothing a reader gets the same.
proof fn lemma_read_at_bottom(above: Versions, merged: Versions, uk: Seq<u8>, ts: u64)
    requires
        model::newer(above, merged),
    ensures
        model::lookup(model::prefer(above, kept_map(merged, true)), uk, ts) == model::lookup(
            model::prefer(above, merged),
            uk,
            ts,
        ),
{
    let before = model::prefer(above, merged);
    let after = model::prefer(above, kept_map(merged, true));
    if exists|t: u64| model::is_newest(before, uk, ts, t) {
        let t = choose|t: u64| model::is_newest(before, uk, ts, t);
        let k = KeyTs { key: uk, ts: t };
        model::lemma_lookup(before, uk, ts, t);
        if !above.contains_key(k) && run_iterator::is_dead(merged, k) {
            assert(merged.contains_key(KeyTs { key: k.key, ts: k.ts }));
            assert(before[k].len() == 0);
            assert forall|u: u64| u <= ts implies !#[trigger] after.contains_key(
                KeyTs { key: uk, ts: u },
            ) by {
                let q = KeyTs { key: uk, ts: u };
                if after.contains_key(q) {
                    assert(before.contains_key(q));
                    assert(u <= t);
                    if above.contains_key(q) {
                        assert(merged.contains_key(k));
                        assert(u >= t);
                    } else {
                        assert(run_iterator::is_dead(merged, q)) by {
                            assert forall|v: u64|
                                v <= u && #[trigger] merged.contains_key(
                                    KeyTs { key: q.key, ts: v },
                                ) implies merged[KeyTs { key: q.key, ts: v }].len() == 0 by {
                                assert(merged.contains_key(KeyTs { key: k.key, ts: v }));
                            }
                        }
                    }
                }
            }
            model::lemma_lookup_none(after, uk, ts);
        } else {
            assert(after.contains_key(k) && after[k] == before[k]);
            assert forall|u: u64|
                u <= ts && #[trigger] after.contains_key(KeyTs { key: uk, ts: u }) implies u <= t by {
                assert(before.contains_key(KeyTs { key: uk, ts: u }));
            }
            assert(model::is_newest(after, uk, ts, t));
            model::lemma_lookup(after, uk, ts, t);
        }
    } else {
        assert forall|t: u64| t <= ts implies !#[trigger] after.contains_key(
            KeyTs { key: uk, ts: t },
        ) by {
            if after.contains_key(KeyTs { key: uk, ts: t }) {
                assert(before.contains_key(KeyTs { key: uk, ts: t }));
                let r = model::lemma_newest_exists(before, uk, ts, t);
            }
        }
        model::lemma_lookup_none(after, uk, ts);
    }
}

/// The tables with some ids were replaced by others, whose ids are new.
pub open spec fn tables_swapped(
    old_tables: Map<usize, SsTable>,
    new_tables: Map<usize, SsTable>,
    ids: Seq<usize>,
    ts: Seq<SsTable>,
) -> bool {
    &&& forall|id: usize|
        #![trigger new_tables.contains_key(id)]
        #![trigger old_tables.contains_key(id)]
        old_tables.contains_key(id) && !ids.contains(id) ==> new_tables.contains_key(id)
            && new_tables[id] == old_tables[id]
    &&& forall|i: int|
        0 <= i < ts.len() ==> new_tables.contains_key((#[trigger] ts[i]).id())
            && new_tables[ts[i].id()] == ts[i]
    &&& forall|id: usize| #[trigger] ids.contains(id) ==> !new_tables.contains_key(id)
    &&& forall|id: usize| #[trigger]
        new_tables.contains_key(id) ==> (old_tables.contains_key(id) && new_tables[id]
            == old_tables[id]) || install::ids_of(ts).contains(id)
}

/// The tables have the ids from `first` on.
pub open spec fn ids_from(ts: Seq<SsTable>, first: usize) -> bool {
    forall|i: int| 0 <= i < ts.len() ==> (#[trigger] ts[i]).id() == first + i
}

pub proof fn lemma_with_tables(tables: Map<usize, SsTable>, ts: Seq<SsTable>, first: usize)
    requires
        ids_from(ts, first),
    ensures
        forall|id: usize|
            #![trigger install::with_tables(tables, ts).contains_key(id)]
            !install::ids_of(ts).contains(id) ==> (install::with_tables(tables, ts).contains_key(id)
                <==> tables.contains_key(id)) && install::with_tables(tables, ts)[id] == tables[id],
        forall|i: int|
            0 <= i < ts.len() ==> install::with_tables(tables, ts).contains_key(
                (#[trigger] ts[i]).id(),
            ) && install::with_tables(tables, ts)[ts[i].id()] == ts[i],
    decreases ts.len(),
{
    if ts.len() > 0 {
        let init = ts.drop_last();
        let m = install::with_tables(tables, init);
        let n = install::with_tables(tables, ts);
        let last = ts.len() - 1;
        assert forall|i: int| 0 <= i < init.len() implies (#[trigger] init[i]).id() == first + i by {
            assert(init[i] == ts[i]);
        }
        lemma_with_tables(tables, init, first);
        assert(ts[last].id() == first + last);
        assert forall|i: int| 0 <= i < ts.len() implies n.contains_key((#[trigger] ts[i]).id())
            && n[ts[i].id()] == ts[i] by {
            if i < last {
                assert(init[i] == ts[i]);
            }
        }
        assert forall|id: usize|
            #![trigger n.contains_key(id)]
            !install::ids_of(ts).contains(id) implies (n.contains_key(id) <==> tables.contains_key(
            id,
        )) && n[id] == tables[id] by {
            assert(install::ids_of(ts)[last] == ts[last].id());
            assert(id != ts[last].id());
            if install::ids_of(init).contains(id) {
                let j = install::ids_of(init).index_of(id);
                assert(install::ids_of(ts)[j] == id);
            }
            assert(m.contains_key(id) <==> tables.contains_key(id));
        }
    }
}

pub proof fn lemma_without_tables(tables: Map<usize, SsTable>, ids: Seq<usize>)
    ensures
        forall|id: usize| #[trigger]
            install::without_tables(tables, ids).contains_key(id) <==> tables.contains_key(id)
                && !ids.contains(id),
        forall|id: usize|
            tables.contains_key(id) && !ids.contains(id)
                ==> #[trigger] install::without_tables(tables, ids)[id] == tables[id],
    decreases ids.len(),
{
    if ids.len() > 0 {
        let init = ids.drop_last();
        lemma_without_tables(tables, init);
        assert(ids =~= init.push(ids.last()));
        assert forall|id: usize| #[trigger] ids.contains(id) <==> init.contains(id) || id
            == ids.last() by {
            if init.contains(id) {
                let j = init.index_of(id);
                assert(ids[j] == id);
            }
            if id == ids.last() {
                assert(ids[ids.len() - 1] == id);
            }
            if ids.contains(id) {
                let j = ids.index_of(id);
                if j < init.len() {
                    assert(init[j] == id);
                }
            }
        }
        let m = install::without_tables(tables, init);
        let n = install::without_tables(tables, ids);
        assert(n == m.remove(ids.last()));
        assert forall|id: usize| #[trigger] n.contains_key(id) <==> tables.contains_key(id)
            && !ids.contains(id) by {
            assert(m.contains_key(id) <==> tables.contains_key(id) && !init.contains(id));
            assert(ids.contains(id) <==> init.contains(id) || id == ids.last());
        }
        assert forall|id: usize| tables.contains_key(id) && !ids.contains(id) implies
            #[trigger] n[id] == tables[id] by {
            assert(ids.contains(id) <==> init.contains(id) || id == ids.last());
            assert(m[id] == tables[id]);
        }
    }
}

/// The tables after a full compaction.
pub proof fn lemma_swapped_full(
    tables: Map<usize, SsTable>,
    ids: Seq<usize>,
    ts: Seq<SsTable>,
    first: usize,
)
    requires
        ids_from(ts, first),
        forall|id: usize| #[trigger] tables.contains_key(id) ==> id < first,
        forall|id: usize| #[trigger] ids.contains(id) ==> id < first,
    ensures
        tables_swapped(
            tables,
            install::with_tables(install::without_tables(tables, ids), ts),
            ids,
            ts,
        ),
{
    let mid = install::without_tables(tables, ids);
    lemma_without_tables(tables, ids);
    lemma_with_tables(mid, ts, first);
    assert forall|id: usize| #[trigger] install::ids_of(ts).contains(id) implies id >= first by {
        let j = install::ids_of(ts).index_of(id);
        assert(ts[j].id() == first + j);
    }
    assert forall|id: usize| #[trigger] ids.contains(id) implies !install::with_tables(
        mid,
        ts,
    ).contains_key(id) by {
        assert(!mid.contains_key(id));
        assert(!install::ids_of(ts).contains(id));
    }
}

/// The tables after a compaction of the simple leveled policy.
pub proof fn lemma_swapped(
    tables: Map<usize, SsTable>,
    ids: Seq<usize>,
    ts: Seq<SsTable>,
    first: usize,
)
    requires
        ids_from(ts, first),
        forall|id: usize| #[trigger] tables.contains_key(id) ==> id < first,
        forall|id: usize| #[trigger] ids.contains(id) ==> id < first,
    ensures
        tables_swapped(
            tables,
            install::without_tables(install::with_tables(tables, ts), ids),
            ids,
            ts,
        ),
{
    let mid = install::with_tables(tables, ts);
    lemma_with_tables(tables, ts, first);
    lemma_without_tables(mid, ids);
    assert forall|id: usize| #[trigger] install::ids_of(ts).contains(id) implies id >= first by {
        let j = install::ids_of(ts).index_of(id);
        assert(ts[j].id() == first + j);
    }
    assert forall|i: int| 0 <= i < ts.len() implies install::without_tables(mid, ids).contains_key(
        (#[trigger] ts[i]).id(),
    ) && install::without_tables(mid, ids)[ts[i].id()] == ts[i] by {
        assert(ts[i].id() == first + i);
        assert(!ids.contains(ts[i].id()));
    }
    let n = install::without_tables(mid, ids);
    assert forall|id: usize|
        #![trigger n.contains_key(id)]
        #![trigger tables.contains_key(id)]
        tables.contains_key(id) && !ids.contains(id) implies n.contains_key(id) && n[id]
        == tables[id] by {
        assert(!install::ids_of(ts).contains(id));
        assert(mid.contains_key(id));
    }
}

/// Tables that were not replaced are as before.
proof fn lemma_same_tables(
    a: Map<usize, SsTable>,
    b: Map<usize, SsTable>,
    ids: Seq<usize>,
    ts: Seq<SsTable>,
    others: Seq<usize>,
)
    requires
        tables_swapped(a, b, ids, ts),
        lsm_storage::tables_ok(a, others),
        forall|i: int| 0 <= i < others.len() ==> !ids.contains(#[trigger] others[i]),
    ensures
        lsm_storage::tables_ok(b, others),
        lsm_storage::table_runs(b, others) == lsm_storage::table_runs(a, others),
        lsm_storage::table_maps(b, others) == lsm_storage::table_maps(a, others),
{
    assert forall|i: int| 0 <= i < others.len() implies b.contains_key(#[trigger] others[i])
        && b[others[i]] == a[others[i]] && b[others[i]].wf() by {
        assert(a.contains_key(others[i]));
    }
    assert(lsm_storage::table_runs(b, others) =~= lsm_storage::table_runs(a, others));
    assert(lsm_storage::table_maps(b, others) =~= lsm_storage::table_maps(a, others));
}

/// The output of a compaction as a level.
proof fn lemma_new_level(
    a: Map<usize, SsTable>,
    b: Map<usize, SsTable>,
    ids: Seq<usize>,
    ts: Seq<SsTable>,
)
    requires
        tables_swapped(a, b, ids, ts),
        forall|i: int| 0 <= i < ts.len() ==> (#[trigger] ts[i]).wf(),
        model::sorted(run::run_of(ts)),
    ensures
        lsm_storage::level_ok(b, install::ids_of(ts)),
        model::concat(lsm_storage::table_runs(b, install::ids_of(ts))) == run::run_of(ts),
{
    let new = install::ids_of(ts);
    assert forall|i: int| 0 <= i < new.len() implies b.contains_key(#[trigger] new[i])
        && b[new[i]] == ts[i] by {
        assert(new[i] == ts[i].id());
    }
    assert(lsm_storage::table_runs(b, new) =~= ts.map_values(|t: SsTable| t.entries()));
}

/// What comes from the front of a list, with the rest left out.
pub proof fn lemma_left_out(extra: Seq<usize>, upper: Seq<usize>, ids: Seq<usize>)
    requires
        forall|i: int| 0 <= i < extra.len() ==> !ids.contains(#[trigger] extra[i]),
        forall|i: int| 0 <= i < upper.len() ==> ids.contains(#[trigger] upper[i]),
    ensures
        lsm_storage::left_out(extra + upper, ids) == extra,
    decreases upper.len(), extra.len(),
{
    reveal(Seq::filter);
    let all = extra + upper;
    if upper.len() > 0 {
        assert(all.drop_last() =~= extra + upper.drop_last());
        assert(ids.contains(upper[upper.len() - 1]));
        lemma_left_out(extra, upper.drop_last(), ids);
    } else if extra.len() > 0 {
        assert(all =~= extra);
        assert(extra.drop_last() + upper =~= extra.drop_last());
        assert(!ids.contains(extra[extra.len() - 1]));
        lemma_left_out(extra.drop_last(), upper, ids);
        assert(extra.drop_last().push(extra.last()) =~= extra);
    } else {
        assert(all =~= Seq::empty());
    }
}

/// The memtables are the same.
pub open spec fn same_memtables(a: LsmStorageState, b: LsmStorageState) -> bool {
    b.memtable == a.memtable && b.imm_memtables@ == a.imm_memtables@
}

/// The tables of a compaction's output are in order, have new ids, and hold what it keeps.
pub open spec fn is_output(
    ts: Seq<SsTable>,
    first: usize,
    next: usize,
    merged: Versions,
    bottom: bool,
) -> bool {
    &&& ids_from(ts, first)
    &&& first + ts.len() <= next
    &&& forall|i: int| 0 <= i < ts.len() ==> (#[trigger] ts[i]).wf()
    &&& model::sorted(run::run_of(ts))
    &&& model::entry_map(run::run_of(ts)) == kept_map(merged, bottom)
}

/// The ids stay apart from each other and below the next one, where lists of ids are replaced.
pub proof fn lemma_ids_below(
    a: LsmStorageState,
    b: LsmStorageState,
    ids: Seq<usize>,
    ts: Seq<SsTable>,
    first: usize,
    next: usize,
)
    requires
        a.tables_below(first),
        same_memtables(a, b),
        tables_swapped(a.sstables@, b.sstables@, ids, ts),
        ids_from(ts, first),
        first + ts.len() <= next,
    ensures
        b.tables_below(next),
        a.ids_below(first) ==> b.ids_below(next),
{
    let new = install::ids_of(ts);
    assert forall|id: usize| #[trigger] new.contains(id) implies first <= id < next by {
        let j = new.index_of(id);
        assert(ts[j].id() == first + j);
    }
    assert(b.memtables() =~= a.memtables());
    assert forall|i: int| a.ids_below(first) && 0 <= i < b.memtables().len() implies (
    #[trigger] b.memtables()[i]).spec_id() < next && !b.sstables@.contains_key(
        b.memtables()[i].spec_id(),
    ) by {
        let id = a.memtables()[i].spec_id();
        assert(id < first);
        if b.sstables@.contains_key(id) {
            assert(new.contains(id));
        }
    }
}

/// All versions are those of the layers.
pub proof fn lemma_versions(s: LsmStorageState)
    ensures
        s.versions() == model::merged(s.layers()),
{
    let mems = s.memtables().map_values(|m: MemTable| m.versions());
    let l0 = lsm_storage::table_maps(s.sstables@, s.l0_sstables@);
    model::lemma_merged_append(mems, l0);
    model::lemma_merged_append(mems + l0, lsm_storage::level_maps(s.sstables@, s.levels@));
}

pub(crate) proof fn lemma_one(m: Versions)
    ensures
        model::merged(seq![m]) == m,
        model::layered(seq![m]),
{
    assert(seq![m].skip(1) =~= Seq::empty());
    assert(model::merged(seq![m].skip(1)) =~= Map::empty());
    assert(model::merged(seq![m]) =~= m);
    assert(model::layered(seq![m].skip(1)));
}

proof fn lemma_two(a: Versions, b: Versions)
    ensures
        model::merged(seq![a, b]) == model::prefer(a, b),
        a == Map::<KeyTs, Seq<u8>>::empty() ==> model::layered(seq![a, b]),
{
    lemma_one(b);
    assert(seq![a, b].skip(1) =~= seq![b]);
}

/// What one of some collections has, they have together.
pub(crate) proof fn lemma_merged_has(ms: Seq<Versions>, k: KeyTs, i: int)
    requires
        0 <= i < ms.len(),
        ms[i].contains_key(k),
    ensures
        model::merged(ms).contains_key(k),
    decreases i,
{
    if forall|j: int| 0 <= j < i ==> !(#[trigger] ms[j]).contains_key(k) {
        model::lemma_merged_at(ms, k, i);
    } else {
        let j = choose|j: int| 0 <= j < i && (#[trigger] ms[j]).contains_key(k);
        lemma_merged_has(ms, k, j);
    }
}

/// Levels without tables have no versions.
proof fn lemma_nothing_below(s: LsmStorageState, n: int)
    requires
        0 <= n <= s.levels@.len(),
        run::nothing_from(s.levels@, n),
    ensures
        model::merged(lsm_storage::level_maps(s.sstables@, s.levels@).skip(n)) == Map::<
            KeyTs,
            Seq<u8>,
        >::empty(),
{
    let ms = lsm_storage::level_maps(s.sstables@, s.levels@).skip(n);
    assert forall|k: KeyTs| !#[trigger] model::merged(ms).contains_key(k) by {
        assert forall|j: int| 0 <= j < ms.len() implies !(#[trigger] ms[j]).contains_key(k) by {
            let ids = s.levels@[n + j].1@;
            assert(ids.len() == 0);
            assert(model::concat(lsm_storage::table_runs(s.sstables@, ids)) =~= Seq::empty());
        }
        model::lemma_merged_none(ms, k);
    }
    assert(model::merged(ms) =~= Map::empty());
}

/// Where layers that follow each other are replaced by what a compaction keeps of them, the layers
/// stay layered.
pub(crate) proof fn lemma_layers_kept(
    above: Seq<Versions>,
    mid: Seq<Versions>,
    new: Seq<Versions>,
    below: Seq<Versions>,
    bottom: bool,
)
    requires
        model::layered(above + (mid + below)),
        model::layered(new),
        model::merged(new) == kept_map(model::merged(mid), bottom),
        bottom ==> model::merged(below) == Map::<KeyTs, Seq<u8>>::empty(),
    ensures
        model::layered(above + (new + below)),
        is_replaced(
            model::merged(above + (mid + below)),
            model::merged(above + (new + below)),
            model::merged(mid),
            bottom,
        ),
{
    model::lemma_layers_replaced(above, mid, new, below);
    model::lemma_merged_append(above, mid + below);
    model::lemma_merged_append(mid, below);
    model::lemma_merged_append(above, new + below);
    model::lemma_merged_append(new, below);
    let x = model::prefer(
        model::merged(above),
        model::prefer(model::merged(mid), model::merged(below)),
    );
    assert(model::merged(above + (mid + below)) == x);
}

/// A compaction into the first level keeps the state in order and its ids apart. Tables of L0 that
/// were flushed in the meantime stay.
#[verifier::rlimit(40)]
pub proof fn lemma_into_first_level(
    a: LsmStorageState,
    b: LsmStorageState,
    extra: Seq<usize>,
    upper: Seq<usize>,
    ts: Seq<SsTable>,
    first: usize,
    next: usize,
    bottom: bool,
)
    requires
        a.wf(),
        a.apart(),
        a.tables_below(first),
        a.levels@.len() > 0,
        model::layered(a.layers()),
        bottom ==> run::nothing_from(a.levels@, 1),
        a.l0_sstables@ == extra + upper,
        tables_swapped(a.sstables@, b.sstables@, upper + a.levels@[0].1@, ts),
        is_output(
            ts,
            first,
            next,
            model::prefer(
                model::merged(lsm_storage::table_maps(a.sstables@, upper)),
                run::level_map(a.sstables@, a.levels@[0].1@),
            ),
            bottom,
        ),
        same_memtables(a, b),
        b.l0_sstables@ == extra,
        lsm_storage::level_ids(b.levels@) == lsm_storage::level_ids(a.levels@).update(
            0,
            (1, install::ids_of(ts)),
        ),
    ensures
        b.wf(),
        b.apart(),
        b.tables_below(next),
        model::layered(b.layers()),
        is_replaced(
            a.versions(),
            b.versions(),
            model::prefer(
                model::merged(lsm_storage::table_maps(a.sstables@, upper)),
                run::level_map(a.sstables@, a.levels@[0].1@),
            ),
            bottom,
        ),
{
    let l1 = a.levels@[0].1@;
    let ids = upper + l1;
    let new = install::ids_of(ts);
    let x = lsm_storage::level_ids(a.levels@);
    let y = lsm_storage::level_ids(b.levels@);
    assert(a.levels@.len() == x.len() && b.levels@.len() == y.len());
    assert(b.levels@[0].1@ == y[0].1);
    assert forall|i: int| 0 < i < b.levels@.len() implies (#[trigger] b.levels@[i]).1@
        == a.levels@[i].1@ by {
        assert(y[i].1 == b.levels@[i].1@);
        assert(x[i].1 == a.levels@[i].1@);
    }
    assert forall|i: int| 0 <= i < extra.len() implies !ids.contains(#[trigger] extra[i])
        && a.sstables@.contains_key(extra[i]) && a.sstables@[extra[i]].wf() by {
        assert(a.l0_sstables@[i] == extra[i]);
        if ids.contains(extra[i]) {
            let j = ids.index_of(extra[i]);
            if j < upper.len() {
                assert(a.l0_sstables@[extra.len() + j] == upper[j]);
            } else {
                assert(a.levels@[0].1@[j - upper.len()] == extra[i]);
            }
        }
    }
    lemma_same_tables(a.sstables@, b.sstables@, ids, ts, extra);
    lemma_new_level(a.sstables@, b.sstables@, ids, ts);
    lemma_ids_below(a, b, ids, ts, first, next);
    assert forall|i: int| 0 < i < a.levels@.len() implies lsm_storage::level_ok(
        b.sstables@,
        (#[trigger] a.levels@[i]).1@,
    ) && lsm_storage::table_runs(b.sstables@, a.levels@[i].1@) == lsm_storage::table_runs(
        a.sstables@,
        a.levels@[i].1@,
    ) by {
        let others = a.levels@[i].1@;
        assert(lsm_storage::level_ok(a.sstables@, others));
        assert forall|q: int| 0 <= q < others.len() implies !ids.contains(#[trigger] others[q]) by {
            if ids.contains(others[q]) {
                let j = ids.index_of(others[q]);
                if j < upper.len() {
                    assert(a.l0_sstables@[extra.len() + j] == upper[j]);
                    assert(a.l0_sstables@[extra.len() + j] != a.levels@[i].1@[q]);
                } else {
                    assert(a.levels@[0].1@[j - upper.len()] != a.levels@[i].1@[q]);
                }
            }
        }
        lemma_same_tables(a.sstables@, b.sstables@, ids, ts, others);
    }
    assert forall|i: int| 0 <= i < b.levels@.len() implies lsm_storage::level_ok(
        b.sstables@,
        (#[trigger] b.levels@[i]).1@,
    ) by {
        if i > 0 {
            assert(b.levels@[i].1@ == a.levels@[i].1@);
        }
    }
    lemma_apart_first(a, b, extra, upper, ts, first);
    assert(b.memtables() =~= a.memtables());
    let mems = a.memtables().map_values(|m: MemTable| m.versions());
    let up = lsm_storage::table_maps(a.sstables@, upper);
    let low = run::level_map(a.sstables@, l1);
    let am = lsm_storage::level_maps(a.sstables@, a.levels@);
    let bm = lsm_storage::level_maps(b.sstables@, b.levels@);
    let above = mems + lsm_storage::table_maps(a.sstables@, extra);
    let mid = up.push(low);
    let below = am.skip(1);
    assert(am[0] == low);
    assert(bm.skip(1) =~= below);
    assert(a.layers() =~= above + (mid + below));
    assert(b.layers() =~= above + (seq![bm[0]] + below));
    model::lemma_merged_push(up, low);
    lemma_one(bm[0]);
    if bottom {
        lemma_nothing_below(a, 1);
    }
    lemma_layers_kept(above, mid, seq![bm[0]], below, bottom);
    lemma_versions(a);
    lemma_versions(b);
}

/// New ids are told apart.
proof fn lemma_new_ids(ts: Seq<SsTable>, first: usize)
    requires
        ids_from(ts, first),
    ensures
        install::ids_of(ts).no_duplicates(),
{
    let new = install::ids_of(ts);
    assert forall|i: int, j: int| 0 <= i < j < new.len() implies new[i] != new[j] by {
        assert(ts[i].id() == first + i);
        assert(ts[j].id() == first + j);
    }
}

pub proof fn lemma_apart_first(
    a: LsmStorageState,
    b: LsmStorageState,
    extra: Seq<usize>,
    upper: Seq<usize>,
    ts: Seq<SsTable>,
    first: usize,
)
    requires
        a.wf(),
        a.apart(),
        a.tables_below(first),
        a.levels@.len() > 0,
        b.levels@.len() == a.levels@.len(),
        a.l0_sstables@ == extra + upper,
        b.l0_sstables@ == extra,
        ids_from(ts, first),
        b.levels@[0].1@ == install::ids_of(ts),
        forall|i: int|
            0 < i < b.levels@.len() ==> (#[trigger] b.levels@[i]).1@ == a.levels@[i].1@,
    ensures
        b.apart(),
{
    let new = install::ids_of(ts);
    assert forall|q: int| 0 <= q < new.len() implies #[trigger] new[q] >= first by {
        assert(ts[q].id() == first + q);
    }
    assert forall|i: int| 0 <= i < extra.len() implies #[trigger] extra[i] == a.l0_sstables@[i] by {}
    assert forall|i: int| 0 <= i < b.levels@.len() implies (
    #[trigger] b.levels@[i]).1@.no_duplicates() by {
        if i == 0 {
            lemma_new_ids(ts, first);
        }
    }
    assert forall|i: int, p: int, q: int|
        0 <= i < b.levels@.len() && 0 <= p < b.l0_sstables@.len() && 0 <= q
            < b.levels@[i].1@.len() implies #[trigger] b.l0_sstables@[p]
        != #[trigger] b.levels@[i].1@[q] by {
        assert(extra[p] == a.l0_sstables@[p]);
        assert(a.sstables@.contains_key(a.l0_sstables@[p]));
        if i == 0 {
            assert(new[q] >= first);
        } else {
            assert(a.l0_sstables@[p] != a.levels@[i].1@[q]);
        }
    }
    assert forall|i: int, j: int, p: int, q: int|
        0 <= i < j < b.levels@.len() && 0 <= p < b.levels@[i].1@.len() && 0 <= q
            < b.levels@[j].1@.len() implies #[trigger] b.levels@[i].1@[p]
        != #[trigger] b.levels@[j].1@[q] by {
        assert(lsm_storage::level_ok(a.sstables@, a.levels@[j].1@));
        assert(a.sstables@.contains_key(a.levels@[j].1@[q]));
        if i == 0 {
            assert(new[p] >= first);
        } else {
            assert(a.levels@[i].1@[p] != a.levels@[j].1@[q]);
        }
    }
}

/// A compaction of a level into the next one keeps the state in order and its ids apart.
#[verifier::rlimit(40)]
pub proof fn lemma_into_next_level(
    a: LsmStorageState,
    b: LsmStorageState,
    n: int,
    ts: Seq<SsTable>,
    first: usize,
    next: usize,
    bottom: bool,
)
    requires
        a.wf(),
        a.apart(),
        a.tables_below(first),
        0 <= n < a.levels@.len() - 1,
        model::layered(a.layers()),
        bottom ==> run::nothing_from(a.levels@, n + 2),
        tables_swapped(a.sstables@, b.sstables@, a.levels@[n].1@ + a.levels@[n + 1].1@, ts),
        is_output(
            ts,
            first,
            next,
            model::prefer(
                run::level_map(a.sstables@, a.levels@[n].1@),
                run::level_map(a.sstables@, a.levels@[n + 1].1@),
            ),
            bottom,
        ),
        same_memtables(a, b),
        b.l0_sstables@ == a.l0_sstables@,
        lsm_storage::level_ids(b.levels@) == lsm_storage::level_ids(a.levels@).update(
            n,
            ((n + 1) as usize, Seq::empty()),
        ).update(n + 1, ((n + 2) as usize, install::ids_of(ts))),
    ensures
        b.wf(),
        b.apart(),
        b.tables_below(next),
        model::layered(b.layers()),
        is_replaced(
            a.versions(),
            b.versions(),
            model::prefer(
                run::level_map(a.sstables@, a.levels@[n].1@),
                run::level_map(a.sstables@, a.levels@[n + 1].1@),
            ),
            bottom,
        ),
{
    let up_ids = a.levels@[n].1@;
    let low_ids = a.levels@[n + 1].1@;
    let ids = up_ids + low_ids;
    let new = install::ids_of(ts);
    let x = lsm_storage::level_ids(a.levels@);
    let y = lsm_storage::level_ids(b.levels@);
    assert(a.levels@.len() == x.len() && b.levels@.len() == y.len());
    assert(b.levels@[n].1@ == y[n].1);
    assert(b.levels@[n + 1].1@ == y[n + 1].1);
    assert forall|i: int| 0 <= i < b.levels@.len() && i != n && i != n + 1 implies (
    #[trigger] b.levels@[i]).1@ == a.levels@[i].1@ by {
        assert(y[i].1 == b.levels@[i].1@);
        assert(x[i].1 == a.levels@[i].1@);
    }
    assert forall|i: int| 0 <= i < a.l0_sstables@.len() implies !ids.contains(
        #[trigger] a.l0_sstables@[i],
    ) by {
        if ids.contains(a.l0_sstables@[i]) {
            let j = ids.index_of(a.l0_sstables@[i]);
            if j < up_ids.len() {
                assert(a.l0_sstables@[i] != a.levels@[n].1@[j]);
            } else {
                assert(a.l0_sstables@[i] != a.levels@[n + 1].1@[j - up_ids.len()]);
            }
        }
    }
    lemma_same_tables(a.sstables@, b.sstables@, ids, ts, a.l0_sstables@);
    lemma_new_level(a.sstables@, b.sstables@, ids, ts);
    lemma_ids_below(a, b, ids, ts, first, next);
    assert forall|i: int| 0 <= i < a.levels@.len() && i != n && i != n + 1 implies lsm_storage::level_ok(
        b.sstables@,
        (#[trigger] a.levels@[i]).1@,
    ) && lsm_storage::table_runs(b.sstables@, a.levels@[i].1@) == lsm_storage::table_runs(
        a.sstables@,
        a.levels@[i].1@,
    ) by {
        let others = a.levels@[i].1@;
        assert(lsm_storage::level_ok(a.sstables@, others));
        assert forall|q: int| 0 <= q < others.len() implies !ids.contains(#[trigger] others[q]) by {
            if ids.contains(others[q]) {
                let j = ids.index_of(others[q]);
                if j < up_ids.len() {
                    assert(a.levels@[n].1@[j] != a.levels@[i].1@[q]);
                } else {
                    assert(a.levels@[n + 1].1@[j - up_ids.len()] != a.levels@[i].1@[q]);
                }
            }
        }
        lemma_same_tables(a.sstables@, b.sstables@, ids, ts, others);
    }
    let none = Seq::<usize>::empty();
    assert(model::concat(lsm_storage::table_runs(b.sstables@, none)) =~= Seq::empty());
    assert forall|i: int| 0 <= i < b.levels@.len() implies lsm_storage::level_ok(
        b.sstables@,
        (#[trigger] b.levels@[i]).1@,
    ) by {
        if i != n && i != n + 1 {
            assert(b.levels@[i].1@ == a.levels@[i].1@);
        }
    }
    lemma_apart_next(a, b, n, ts, first);
    assert(b.memtables() =~= a.memtables());
    let mems = a.memtables().map_values(|m: MemTable| m.versions());
    let l0 = lsm_storage::table_maps(a.sstables@, a.l0_sstables@);
    let am = lsm_storage::level_maps(a.sstables@, a.levels@);
    let bm = lsm_storage::level_maps(b.sstables@, b.levels@);
    let above = mems + l0 + am.take(n);
    let mid = seq![am[n], am[n + 1]];
    let new = seq![bm[n], bm[n + 1]];
    let below = am.skip(n + 2);
    assert(am[n] == run::level_map(a.sstables@, up_ids));
    assert(am[n + 1] == run::level_map(a.sstables@, low_ids));
    assert(bm[n] =~= Map::empty());
    assert(bm.take(n) =~= am.take(n));
    assert(bm.skip(n + 2) =~= below);
    assert(am =~= am.take(n) + (mid + below));
    assert(bm =~= am.take(n) + (new + below));
    assert(a.layers() =~= above + (mid + below));
    assert(b.layers() =~= above + (new + below));
    lemma_two(am[n], am[n + 1]);
    lemma_two(bm[n], bm[n + 1]);
    assert(model::prefer(bm[n], bm[n + 1]) =~= bm[n + 1]);
    if bottom {
        lemma_nothing_below(a, n + 2);
    }
    lemma_layers_kept(above, mid, new, below, bottom);
    lemma_versions(a);
    lemma_versions(b);
}

pub proof fn lemma_apart_next(a: LsmStorageState, b: LsmStorageState, n: int, ts: Seq<SsTable>, first: usize)
    requires
        a.wf(),
        a.apart(),
        a.tables_below(first),
        0 <= n < a.levels@.len() - 1,
        b.levels@.len() == a.levels@.len(),
        b.l0_sstables@ == a.l0_sstables@,
        ids_from(ts, first),
        b.levels@[n].1@.len() == 0,
        b.levels@[n + 1].1@ == install::ids_of(ts),
        forall|i: int|
            0 <= i < b.levels@.len() && i != n && i != n + 1 ==> (#[trigger] b.levels@[i]).1@
                == a.levels@[i].1@,
    ensures
        b.apart(),
{
    let new = install::ids_of(ts);
    assert forall|q: int| 0 <= q < new.len() implies #[trigger] new[q] >= first by {
        assert(ts[q].id() == first + q);
    }
    assert forall|i: int| 0 <= i < b.levels@.len() implies (
    #[trigger] b.levels@[i]).1@.no_duplicates() by {
        if i == n + 1 {
            lemma_new_ids(ts, first);
        } else if i != n {
            assert(a.levels@[i].1@.no_duplicates());
        }
    }
    assert forall|i: int, p: int, q: int|
        0 <= i < b.levels@.len() && 0 <= p < b.l0_sstables@.len() && 0 <= q
            < b.levels@[i].1@.len() implies #[trigger] b.l0_sstables@[p]
        != #[trigger] b.levels@[i].1@[q] by {
        assert(a.sstables@.contains_key(a.l0_sstables@[p]));
        if i == n + 1 {
            assert(new[q] >= first);
        } else {
            assert(a.l0_sstables@[p] != a.levels@[i].1@[q]);
        }
    }
    assert forall|i: int, j: int, p: int, q: int|
        0 <= i < j < b.levels@.len() && 0 <= p < b.levels@[i].1@.len() && 0 <= q
            < b.levels@[j].1@.len() implies #[trigger] b.levels@[i].1@[p]
        != #[trigger] b.levels@[j].1@[q] by {
        assert(lsm_storage::level_ok(a.sstables@, a.levels@[i].1@));
        assert(lsm_storage::level_ok(a.sstables@, a.levels@[j].1@));
        if i == n + 1 {
            assert(new[p] >= first);
            assert(a.sstables@.contains_key(a.levels@[j].1@[q]));
        } else if j == n + 1 {
            assert(new[q] >= first);
            assert(a.sstables@.contains_key(a.levels@[i].1@[p]));
        } else {
            assert(a.levels@[i].1@[p] != a.levels@[j].1@[q]);
        }
    }
}

/// Stored lengths can hold the sizes of all versions.
pub open spec fn map_storable(m: Versions) -> bool {
    forall|k: KeyTs| #[trigger] m.contains_key(k) ==> block::storable(k, m[k])
}

proof fn lemma_run_storable(s: Seq<Entry>)
    requires
        mem_table::all_storable(s),
    ensures
        map_storable(model::entry_map(s)),
{
    assert forall|k: KeyTs| #[trigger] model::entry_map(s).contains_key(k) implies block::storable(
        k,
        model::entry_map(s)[k],
    ) by {
        let i = model::lemma_entry_map_key(s, k);
        assert(block::storable(s[i].key, s[i].value));
    }
}

proof fn lemma_merged_storable(ms: Seq<Versions>)
    requires
        forall|i: int| 0 <= i < ms.len() ==> map_storable(#[trigger] ms[i]),
    ensures
        map_storable(model::merged(ms)),
{
    assert forall|k: KeyTs| #[trigger] model::merged(ms).contains_key(k) implies block::storable(
        k,
        model::merged(ms)[k],
    ) by {
        let i = model::lemma_merged_first(ms, k);
        assert(map_storable(ms[i]));
    }
}

proof fn lemma_l0_storable(tables: Map<usize, SsTable>, ids: Seq<usize>)
    requires
        lsm_storage::tables_storable(tables),
        lsm_storage::tables_ok(tables, ids),
    ensures
        map_storable(model::merged(lsm_storage::table_maps(tables, ids))),
{
    let ms = lsm_storage::table_maps(tables, ids);
    assert forall|i: int| 0 <= i < ms.len() implies map_storable(#[trigger] ms[i]) by {
        assert(tables.contains_key(ids[i]));
        lemma_run_storable(tables[ids[i]].entries());
    }
    lemma_merged_storable(ms);
}

proof fn lemma_level_storable(tables: Map<usize, SsTable>, ids: Seq<usize>)
    requires
        lsm_storage::tables_storable(tables),
        lsm_storage::tables_ok(tables, ids),
    ensures
        map_storable(run::level_map(tables, ids)),
{
    let rs = lsm_storage::table_runs(tables, ids);
    let s = model::concat(rs);
    assert forall|x: int| 0 <= x < s.len() implies block::storable((#[trigger] s[x]).key, s[x].value) by {
        let (i, j) = model::lemma_concat_from(rs, x);
        assert(tables.contains_key(ids[i]));
        let t = tables[ids[i]].entries();
        assert(block::storable(t[j].key, t[j].value));
    }
    lemma_run_storable(s);
}

/// Stored lengths can hold the sizes of what a task merges.
pub proof fn lemma_task_storable(tables: Map<usize, SsTable>, task: CompactionTask)
    requires
        lsm_storage::tables_storable(tables),
        run::task_ok(tables, task),
    ensures
        map_storable(run::task_versions(tables, task)),
{
    match task {
        CompactionTask::ForceFullCompaction { l0_sstables, l1_sstables } => {
            lemma_l0_storable(tables, l0_sstables@);
            lemma_level_storable(tables, l1_sstables@);
        },
        CompactionTask::Simple(t) => {
            match t.upper_level {
                None => {
                    lemma_l0_storable(tables, t.upper_level_sst_ids@);
                },
                Some(_) => {
                    lemma_level_storable(tables, t.upper_level_sst_ids@);
                },
            }
            lemma_level_storable(tables, t.lower_level_sst_ids@);
        },
        CompactionTask::Tiered(t) => {
            let ms = lsm_storage::level_maps(tables, t.tiers@);
            assert forall|i: int| 0 <= i < ms.len() implies map_storable(#[trigger] ms[i]) by {
                assert(lsm_storage::level_ok(tables, t.tiers@[i].1@));
                lemma_level_storable(tables, t.tiers@[i].1@);
            }
            lemma_merged_storable(ms);
        },
        CompactionTask::Leveled(_) => {},
    }
}

proof fn lemma_prefer_finite(a: Versions, b: Versions)
    requires
        a.dom().finite(),
        b.dom().finite(),
    ensures
        model::prefer(a, b).dom().finite(),
{
    assert(model::prefer(a, b).dom() =~= a.dom().union(b.dom()));
}

proof fn lemma_l0_finite(tables: Map<usize, SsTable>, ids: Seq<usize>)
    ensures
        model::merged(lsm_storage::table_maps(tables, ids)).dom().finite(),
{
    let ms = lsm_storage::table_maps(tables, ids);
    assert forall|i: int| 0 <= i < ms.len() implies (#[trigger] ms[i]).dom().finite() by {
        model::lemma_entry_map_finite(tables[ids[i]].entries());
    }
    model::lemma_merged_finite(ms);
}

proof fn lemma_levels_finite(tables: Map<usize, SsTable>, levels: Seq<(usize, Vec<usize>)>)
    ensures
        model::merged(lsm_storage::level_maps(tables, levels)).dom().finite(),
{
    let ms = lsm_storage::level_maps(tables, levels);
    assert forall|i: int| 0 <= i < ms.len() implies (#[trigger] ms[i]).dom().finite() by {
        model::lemma_entry_map_finite(
            model::concat(lsm_storage::table_runs(tables, levels[i].1@)),
        );
    }
    model::lemma_merged_finite(ms);
}

pub(crate) proof fn lemma_task_finite(tables: Map<usize, SsTable>, task: CompactionTask)
    ensures
        run::task_versions(tables, task).dom().finite(),
{
    match task {
        CompactionTask::ForceFullCompaction { l0_sstables, l1_sstables } => {
            lemma_l0_finite(tables, l0_sstables@);
            model::lemma_entry_map_finite(
                model::concat(lsm_storage::table_runs(tables, l1_sstables@)),
            );
            lemma_prefer_finite(
                model::merged(lsm_storage::table_maps(tables, l0_sstables@)),
                run::level_map(tables, l1_sstables@),
            );
        },
        CompactionTask::Simple(t) => {
            let low = run::level_map(tables, t.lower_level_sst_ids@);
            model::lemma_entry_map_finite(
                model::concat(lsm_storage::table_runs(tables, t.lower_level_sst_ids@)),
            );
            match t.upper_level {
                None => {
                    lemma_l0_finite(tables, t.upper_level_sst_ids@);
                    lemma_prefer_finite(
                        model::merged(
                            lsm_storage::table_maps(tables, t.upper_level_sst_ids@),
                        ),
                        low,
                    );
                },
                Some(_) => {
                    model::lemma_entry_map_finite(
                        model::concat(
                            lsm_storage::table_runs(tables, t.upper_level_sst_ids@),
                        ),
                    );
                    lemma_prefer_finite(run::level_map(tables, t.upper_level_sst_ids@), low);
                },
            }
        },
        CompactionTask::Tiered(t) => {
            lemma_levels_finite(tables, t.tiers@);
        },
        CompactionTask::Leveled(_) => {},
    }
}

/// The output of a task is in order, has new ids, and holds what the task keeps.
pub proof fn lemma_task_output(
    i: LsmStorageInner,
    task: CompactionTask,
    ts: Seq<SsTable>,
    next: usize,
)
    requires
        lsm_storage::tables_storable(i.state.sstables@),
        run::task_ok(i.state.sstables@, task),
        i.options.block_size <= 0x1_0000,
        run::are_built(ts, run::task_drafts(i, task), i.next_sst_id),
        i.next_sst_id + ts.len() == next,
    ensures
        is_output(
            ts,
            i.next_sst_id,
            next,
            run::task_versions(i.state.sstables@, task),
            run::at_bottom(i.state, task),
        ),
        forall|j: int|
            0 <= j < ts.len() ==> mem_table::all_storable((#[trigger] ts[j]).entries()),
{
    let tables = i.state.sstables@;
    let bottom = run::at_bottom(i.state, task);
    let first = i.next_sst_id;
    let m = run::task_versions(tables, task);
    let s = run::task_run(tables, task);
    let flags = run::kept_flags(s, bottom);
    let kept = run::kept_entries(s, flags);
    lemma_task_finite(tables, task);
    model::lemma_sorted_entries(m);
    lemma_task_storable(tables, task);
    assert forall|j: int| 0 <= j < s.len() implies block::storable(
        (#[trigger] s[j]).key,
        s[j].value,
    ) by {
        model::lemma_entry_map_index(s, j);
    }
    run::lemma_output(s, flags, i.options, ts, first);
    lemma_kept_map(s, bottom);
    lemma_built_ids(ts, run::task_drafts(i, task), first);
    let rs = ts.map_values(|t: SsTable| t.entries());
    assert forall|j: int| 0 <= j < ts.len() implies mem_table::all_storable(
        (#[trigger] ts[j]).entries(),
    ) by {
        let e = ts[j].entries();
        assert forall|x: int| 0 <= x < e.len() implies block::storable(
            (#[trigger] e[x]).key,
            e[x].value,
        ) by {
            assert(rs[j] == e);
            let y = model::lemma_concat_has(rs, j, x);
            assert(kept[y] == e[x]);
            run::lemma_kept_entries(s, flags, e[x]);
            let z = choose|z: int| 0 <= z < s.len() && #[trigger] flags[z] && s[z] == e[x];
            assert(block::storable(s[z].key, s[z].value));
        }
    }
}

/// Tables that were built have their ids one after the other.
pub proof fn lemma_built_ids(ts: Seq<SsTable>, ds: Seq<TableDraft>, first: usize)
    requires
        run::are_built(ts, ds, first),
        first + ts.len() <= usize::MAX,
    ensures
        ids_from(ts, first),
{
    assert forall|j: int| 0 <= j < ts.len() implies (#[trigger] ts[j]).id() == first + j by {
        assert(crate::lsm_storage::flush::is_built(ts[j], ds[j], (first + j) as usize));
    }
}

/// Stored lengths can hold the sizes of what a task merges, after the task as before.
pub proof fn lemma_swapped_storable(
    a: Map<usize, SsTable>,
    b: Map<usize, SsTable>,
    ids: Seq<usize>,
    ts: Seq<SsTable>,
    first: usize,
)
    requires
        lsm_storage::tables_storable(a),
        tables_swapped(a, b, ids, ts),
        ids_from(ts, first),
        forall|id: usize| #[trigger] a.contains_key(id) ==> id < first,
        forall|i: int|
            0 <= i < ts.len() ==> mem_table::all_storable((#[trigger] ts[i]).entries()),
    ensures
        lsm_storage::tables_storable(b),
{
    assert forall|id: usize| #[trigger] b.contains_key(id) implies mem_table::all_storable(
        b[id].entries(),
    ) by {
        let new = install::ids_of(ts);
        if new.contains(id) {
            let i = new.index_of(id);
            assert(ts[i].id() == id);
            assert(b[ts[i].id()] == ts[i]);
        }
    }
}

} // verus!
