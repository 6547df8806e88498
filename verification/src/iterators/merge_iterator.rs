//! Merges any number of iterators of one type.
use vstd::prelude::*;
use crate::error::LsmError;
use crate::iterators;
use crate::iterators::StorageIterator;
use crate::key;
use crate::key::{KeySlice, KeyTs, KeyVec, Order, TS_DEFAULT};
use crate::model;
use crate::model::{Entry, Versions};

verus! {

/// A sorted run with its rank; of two runs the one with the lower rank is preferred.
pub type RankedRun = (usize, Seq<Entry>);

pub open spec fn distinct_ranks(ws: Seq<RankedRun>) -> bool {
    forall|i: int, j: int|
        #![trigger ws[i], ws[j]]
        0 <= i < ws.len() && 0 <= j < ws.len() && i != j ==> ws[i].0 != ws[j].0
}

/// Run `i` is the lowest-ranked one that holds `k`.
pub open spec fn decides(ws: Seq<RankedRun>, k: KeyTs, i: int) -> bool {
    &&& 0 <= i < ws.len()
    &&& model::has_key(ws[i].1, k)
    &&& forall|j: int|
        0 <= j < ws.len() && model::has_key((#[trigger] ws[j]).1, k) ==> ws[i].0 <= ws[j].0
}

/// All runs together; where several hold a key, the lowest-ranked of them decides.
pub open spec fn union_of(ws: Seq<RankedRun>) -> Versions {
    Map::new(
        |k: KeyTs| exists|i: int| 0 <= i < ws.len() && model::has_key((#[trigger] ws[i]).1, k),
        |k: KeyTs| model::value_at(ws[choose|i: int| decides(ws, k, i)].1, k),
    )
}

spec fn total_len(ws: Seq<RankedRun>) -> nat
    decreases ws.len(),
{
    if ws.len() == 0 {
        0
    } else {
        total_len(ws.drop_last()) + ws.last().1.len()
    }
}

proof fn lemma_total_len_update(ws: Seq<RankedRun>, i: int, w: RankedRun)
    requires
        0 <= i < ws.len(),
    ensures
        total_len(ws.update(i, w)) + ws[i].1.len() == total_len(ws) + w.1.len(),
    decreases ws.len(),
{
    let vs = ws.update(i, w);
    if i == ws.len() - 1 {
        assert(vs.drop_last() =~= ws.drop_last());
    } else {
        assert(vs.drop_last() =~= ws.drop_last().update(i, w));
        lemma_total_len_update(ws.drop_last(), i, w);
    }
}

proof fn lemma_decides_exists(ws: Seq<RankedRun>, k: KeyTs) -> (r: int)
    requires
        exists|i: int| 0 <= i < ws.len() && model::has_key((#[trigger] ws[i]).1, k),
    ensures
        decides(ws, k, r),
    decreases ws.len(),
{
    let init = ws.drop_last();
    let last = ws.len() - 1;
    if exists|i: int| 0 <= i < init.len() && model::has_key((#[trigger] init[i]).1, k) {
        let r = lemma_decides_exists(init, k);
        assert(ws[r] == init[r]);
        assert forall|j: int| 0 <= j < last && model::has_key((#[trigger] ws[j]).1, k) implies ws[r].0
            <= ws[j].0 by {
            assert(init[j] == ws[j]);
        }
        if model::has_key(ws[last].1, k) && ws[last].0 < ws[r].0 {
            last
        } else {
            r
        }
    } else {
        assert forall|j: int| 0 <= j < ws.len() && model::has_key((#[trigger] ws[j]).1, k) implies j
            == last by {
            if j < last {
                assert(init[j] == ws[j]);
            }
        }
        last
    }
}

proof fn lemma_union_at(ws: Seq<RankedRun>, k: KeyTs, i: int)
    requires
        distinct_ranks(ws),
        decides(ws, k, i),
    ensures
        union_of(ws).contains_key(k),
        union_of(ws)[k] == model::value_at(ws[i].1, k),
{
    let j = choose|j: int| decides(ws, k, j);
    assert(decides(ws, k, j));
    assert(ws[i].0 <= ws[j].0 && ws[j].0 <= ws[i].0);
    assert(i == j);
}

spec fn covers(ws: Seq<RankedRun>, vs: Seq<RankedRun>) -> bool {
    forall|i: int| 0 <= i < ws.len() ==> vs.contains(#[trigger] ws[i])
}

proof fn lemma_union_same(ws: Seq<RankedRun>, vs: Seq<RankedRun>)
    requires
        distinct_ranks(ws),
        distinct_ranks(vs),
        covers(ws, vs),
        covers(vs, ws),
    ensures
        union_of(ws) == union_of(vs),
{
    assert forall|k: KeyTs| #[trigger]
        union_of(ws).contains_key(k) implies union_of(vs).contains_key(k) && union_of(vs)[k]
        == union_of(ws)[k] by {
        let i = lemma_decides_exists(ws, k);
        lemma_union_at(ws, k, i);
        assert(vs.contains(ws[i]));
        let j = choose|j: int| 0 <= j < vs.len() && vs[j] == ws[i];
        assert forall|l: int| 0 <= l < vs.len() && model::has_key(
            (#[trigger] vs[l]).1,
            k,
        ) implies vs[j].0 <= vs[l].0 by {
            assert(ws.contains(vs[l]));
            let q = choose|q: int| 0 <= q < ws.len() && ws[q] == vs[l];
            assert(model::has_key(ws[q].1, k));
        }
        assert(decides(vs, k, j));
        lemma_union_at(vs, k, j);
    }
    assert forall|k: KeyTs| #[trigger]
        union_of(vs).contains_key(k) implies union_of(ws).contains_key(k) by {
        let i = choose|i: int| 0 <= i < vs.len() && model::has_key((#[trigger] vs[i]).1, k);
        assert(ws.contains(vs[i]));
        let j = choose|j: int| 0 <= j < ws.len() && ws[j] == vs[i];
        assert(model::has_key(ws[j].1, k));
    }
    assert(union_of(ws) =~= union_of(vs));
}

/// Stepping a run past `k`, where it stands at its head, changes nothing at other keys.
proof fn lemma_union_advance(ws: Seq<RankedRun>, i: int)
    requires
        distinct_ranks(ws),
        0 <= i < ws.len(),
        model::sorted(ws[i].1),
        ws[i].1.len() > 0,
    ensures
        distinct_ranks(ws.update(i, (ws[i].0, ws[i].1.skip(1)))),
        union_of(ws.update(i, (ws[i].0, ws[i].1.skip(1)))).remove(ws[i].1[0].key) == union_of(
            ws,
        ).remove(ws[i].1[0].key),
{
    let pk = ws[i].1[0].key;
    let vs = ws.update(i, (ws[i].0, ws[i].1.skip(1)));
    model::lemma_entry_map_skip(ws[i].1);
    assert forall|k: KeyTs, j: int|
        #![trigger model::has_key(ws[j].1, k)]
        #![trigger model::has_key(vs[j].1, k)]
        0 <= j < ws.len() && k != pk implies (model::has_key(ws[j].1, k) <==> model::has_key(
        vs[j].1,
        k,
    )) && (model::has_key(ws[j].1, k) ==> model::value_at(ws[j].1, k) == model::value_at(
        vs[j].1,
        k,
    )) by {
        if j == i {
            assert(model::entry_map(vs[i].1).contains_key(k) <==> model::entry_map(
                ws[i].1,
            ).contains_key(k));
            if model::has_key(ws[i].1, k) {
                assert(model::entry_map(vs[i].1)[k] == model::entry_map(ws[i].1)[k]);
            }
        }
    }
    let a = union_of(vs).remove(pk);
    let b = union_of(ws).remove(pk);
    assert forall|k: KeyTs| #[trigger] b.contains_key(k) implies a.contains_key(k) && a[k] == b[k] by {
        let r = lemma_decides_exists(ws, k);
        lemma_union_at(ws, k, r);
        assert(decides(vs, k, r)) by {
            assert(model::has_key(vs[r].1, k));
            assert forall|j: int| 0 <= j < vs.len() && model::has_key(
                (#[trigger] vs[j]).1,
                k,
            ) implies vs[r].0 <= vs[j].0 by {
                assert(model::has_key(ws[j].1, k));
            }
        }
        lemma_union_at(vs, k, r);
    }
    assert forall|k: KeyTs| #[trigger] a.contains_key(k) implies b.contains_key(k) by {
        let j = choose|j: int| 0 <= j < vs.len() && model::has_key((#[trigger] vs[j]).1, k);
        assert(model::has_key(ws[j].1, k));
    }
    assert(a =~= b);
}

/// A run that has come to its end adds nothing.
proof fn lemma_union_drop_empty(ws: Seq<RankedRun>)
    requires
        distinct_ranks(ws),
        ws.len() > 0,
        ws.last().1.len() == 0,
    ensures
        distinct_ranks(ws.drop_last()),
        union_of(ws.drop_last()) == union_of(ws),
{
    let vs = ws.drop_last();
    assert(forall|k: KeyTs| !(#[trigger] model::has_key(ws.last().1, k)));
    assert forall|k: KeyTs| #[trigger] union_of(ws).contains_key(k) implies union_of(
        vs,
    ).contains_key(k) && union_of(vs)[k] == union_of(ws)[k] by {
        let r = lemma_decides_exists(ws, k);
        lemma_union_at(ws, k, r);
        assert(vs[r] == ws[r]);
        assert(decides(vs, k, r));
        lemma_union_at(vs, k, r);
    }
    assert forall|k: KeyTs| #[trigger] union_of(vs).contains_key(k) implies union_of(
        ws,
    ).contains_key(k) by {
        let j = choose|j: int| 0 <= j < vs.len() && model::has_key((#[trigger] vs[j]).1, k);
        assert(ws[j] == vs[j]);
    }
    assert(union_of(vs) =~= union_of(ws));
}

proof fn lemma_union_finite(ws: Seq<RankedRun>)
    ensures
        union_of(ws).dom().finite(),
    decreases ws.len(),
{
    if ws.len() == 0 {
        assert(union_of(ws).dom() =~= Set::empty());
    } else {
        let vs = ws.drop_last();
        lemma_union_finite(vs);
        model::lemma_entry_map_finite(ws.last().1);
        assert(union_of(ws).dom() =~= union_of(vs).dom().union(
            model::entry_map(ws.last().1).dom(),
        )) by {
            assert forall|k: KeyTs| #[trigger] union_of(ws).dom().contains(k) implies union_of(
                vs,
            ).dom().contains(k) || model::entry_map(ws.last().1).dom().contains(k) by {
                let j = choose|j: int| 0 <= j < ws.len() && model::has_key((#[trigger] ws[j]).1, k);
                if j < vs.len() {
                    assert(vs[j] == ws[j]);
                }
            }
            assert forall|k: KeyTs| #[trigger] union_of(vs).dom().contains(k) implies union_of(
                ws,
            ).dom().contains(k) by {
                let j = choose|j: int| 0 <= j < vs.len() && model::has_key((#[trigger] vs[j]).1, k);
                assert(ws[j] == vs[j]);
            }
            assert forall|k: KeyTs| #[trigger]
                model::entry_map(ws.last().1).dom().contains(k) implies union_of(ws).dom().contains(
                k,
            ) by {
                assert(model::has_key(ws[ws.len() - 1].1, k));
            }
        }
    }
}

proof fn lemma_head_after_skip(s: Seq<Entry>)
    requires
        model::sorted(s),
        s.len() > 0,
    ensures
        s.skip(1).len() > 0 ==> key::key_lt(s[0].key, s.skip(1)[0].key),
{
    if s.len() > 1 {
        assert(key::key_lt(s[0].key, s[1].key));
    }
}

/// Run `i` stands at the least key of all, and is the lowest-ranked one that does.
spec fn least_run(ws: Seq<RankedRun>, i: int) -> bool {
    &&& 0 <= i < ws.len()
    &&& ws[i].1.len() > 0
    &&& forall|j: int|
        0 <= j < ws.len() ==> (#[trigger] ws[j]).1.len() > 0 && (key::key_lt(
            ws[i].1[0].key,
            ws[j].1[0].key,
        ) || (ws[i].1[0].key == ws[j].1[0].key && ws[i].0 <= ws[j].0))
}

proof fn lemma_least_run(ws: Seq<RankedRun>, i: int)
    requires
        distinct_ranks(ws),
        forall|j: int| 0 <= j < ws.len() ==> model::sorted((#[trigger] ws[j]).1),
        least_run(ws, i),
    ensures
        union_of(ws).contains_key(ws[i].1[0].key),
        union_of(ws)[ws[i].1[0].key] == ws[i].1[0].value,
        forall|k: KeyTs| #[trigger]
            union_of(ws).contains_key(k) ==> key::key_le(ws[i].1[0].key, k),
{
    broadcast use crate::key::group_key_order;

    let pk = ws[i].1[0].key;
    assert(model::has_key(ws[i].1, pk));
    assert forall|j: int, k: KeyTs|
        #![trigger ws[j], model::has_key(ws[j].1, k)]
        0 <= j < ws.len() && model::has_key(ws[j].1, k) implies key::key_le(pk, k) && (k == pk
        ==> ws[i].0 <= ws[j].0) by {
        let l = choose|l: int| 0 <= l < ws[j].1.len() && (#[trigger] ws[j].1[l]).key == k;
        if l > 0 {
            assert(key::key_lt(ws[j].1[0].key, ws[j].1[l].key));
        }
    }
    assert(decides(ws, pk, i));
    lemma_union_at(ws, pk, i);
    model::lemma_entry_map_index(ws[i].1, 0);
    assert forall|k: KeyTs| #[trigger] union_of(ws).contains_key(k) implies key::key_le(pk, k) by {
        let j = choose|j: int| 0 <= j < ws.len() && model::has_key((#[trigger] ws[j]).1, k);
        assert(model::has_key(ws[j].1, k));
    }
}

/// An iterator with its rank among those that are merged.
pub struct HeapWrapper<I: StorageIterator>(pub usize, pub Box<I>);

impl<I: StorageIterator> HeapWrapper<I> {
    pub open spec fn run(&self) -> RankedRun {
        (self.0, self.1.remaining())
    }

    pub open spec fn wf(&self) -> bool {
        self.1.wf() && self.1.remaining().len() > 0
    }
}

pub open spec fn runs<I: StorageIterator>(ws: Seq<HeapWrapper<I>>) -> Seq<RankedRun> {
    ws.map_values(|w: HeapWrapper<I>| w.run())
}

/// Merges iterators of one type. If several of them stand at the same key, that key is produced
/// once, with the value of the iterator that comes first.
pub struct MergeIterator<I: StorageIterator> {
    iters: Vec<HeapWrapper<I>>,
    current: Option<HeapWrapper<I>>,
    num_iterators: usize,
}

/// The sum of what feeds the iterators that are at an entry.
pub open spec fn active_sum<I: StorageIterator>(iters: Seq<Box<I>>) -> int
    decreases iters.len(),
{
    if iters.len() == 0 {
        0
    } else {
        active_sum(iters.drop_last()) + if iters.last().remaining().len() > 0 {
            iters.last().active() as int
        } else {
            0
        }
    }
}

/// An iterator counts if it is at an entry.
pub proof fn lemma_active_sum_push<I: StorageIterator>(iters: Seq<Box<I>>, it: Box<I>)
    ensures
        active_sum(Seq::<Box<I>>::empty()) == 0,
        it.remaining().len() > 0 ==> active_sum(iters.push(it)) == active_sum(iters)
            + it.active(),
        it.remaining().len() == 0 ==> active_sum(iters.push(it)) == active_sum(iters),
{
    assert(iters.push(it).drop_last() =~= iters);
}

/// The maps of the iterators' remaining entries, in order.
pub open spec fn maps_of<I: StorageIterator>(iters: Seq<Box<I>>) -> Seq<Versions> {
    iters.map_values(|it: Box<I>| model::entry_map(it.remaining()))
}

proof fn lemma_active_sum_prefix<I: StorageIterator>(iters: Seq<Box<I>>, n: int)
    requires
        0 <= n <= iters.len(),
    ensures
        0 <= active_sum(iters.take(n)) <= active_sum(iters),
    decreases iters.len(),
{
    if n == iters.len() {
        assert(iters.take(n) =~= iters);
        if n > 0 {
            lemma_active_sum_prefix(iters.drop_last(), n - 1);
            assert(iters.drop_last().take(n - 1) =~= iters.drop_last());
        }
    } else {
        lemma_active_sum_prefix(iters.drop_last(), n);
        assert(iters.drop_last().take(n) =~= iters.take(n));
    }
}

impl<I: StorageIterator> MergeIterator<I> {
    /// All iterators that are at an entry, the current one last.
    pub closed spec fn all(&self) -> Seq<HeapWrapper<I>> {
        match self.current {
            Some(c) => self.iters@.push(c),
            None => self.iters@,
        }
    }

    /// The entries of all iterators, each key once.
    pub open spec fn union(&self) -> Versions {
        union_of(runs(self.all()))
    }

    /// Goes on with the iterators at hand, past a key.
    fn settle(&mut self, prev_key: &KeyVec) -> (r: Result<(), LsmError>)
        requires
            old(self).wf(),
            old(self).current is None,
        ensures
            final(self).wf(),
            final(self).num_iterators == old(self).num_iterators,
            r is Err ==> final(self).current is None && keys_within(*final(self), *old(self)),
            r is Ok ==> fails_like(*final(self), *old(self)),
            r matches Err(e) ==> old(self).can_fail(e),
            r is Ok ==> final(self).remaining() == past_key(old(self).union(), prev_key@),
            r is Ok ==> !final(self).may_resume(),
            old(self).iters@.len() == 0 ==> r is Ok,
    {
        let ghost u0 = self.union();
        let ghost pk = prev_key@;
        let ghost mut stepped = false;
        proof {
            assert(self.all() =~= self.iters@);
            lemma_union_finite(runs(self.iters@));
        }
        while self.iters.len() > 0
            invariant
                self.wf(),
                self.current is None,
                self.num_iterators == old(self).num_iterators,
                fails_like(*self, *old(self)),
                old(self).iters@.len() == 0 ==> self.iters@.len() == 0,
                u0 == old(self).union(),
                u0.dom().finite(),
                pk == prev_key@,
                keys_within(*self, *old(self)),
                !stepped ==> self.union() == u0,
                stepped ==> {
                    &&& self.union().remove(pk) == u0.remove(pk)
                    &&& model::sorted_entries(u0).len() > 0
                    &&& model::sorted_entries(u0)[0].key == pk
                    &&& model::sorted_entries(u0).skip(1) == model::sorted_entries(u0.remove(pk))
                    &&& forall|j: int|
                        0 <= j < self.iters@.len() ==> key::key_le(
                            pk,
                            (#[trigger] self.iters@[j]).1.remaining()[0].key,
                        )
                },
            decreases total_len(runs(self.iters@)),
        {
            broadcast use crate::key::group_key_order;

            assert(self.all() =~= self.iters@);
            let ghost before = self.iters@;
            let ghost old_self = *self;
            assert forall|j: int| 0 <= j < before.len() implies (#[trigger] before[j]).wf() by {
                assert(self.all()[j] == before[j]);
            }
            let mut w = MergeIterator::pop_least(&mut self.iters);
            let ghost m = self.iters@.len() as int;
            let ghost after = self.iters@.push(w);
            let ghost ws = runs(after);
            proof {
                assert forall|j: int| 0 <= j < after.len() implies (#[trigger] after[j]).wf()
                    && before.contains(after[j]) && (stepped ==> key::key_le(
                    pk,
                    after[j].1.remaining()[0].key,
                )) by {
                    assert(before.contains(after[j]));
                    let l = choose|l: int| 0 <= l < before.len() && before[l] == after[j];
                    assert(before[l].wf());
                }
                assert(after[m] == w);
                assert(ws[m] == w.run());
                assert forall|j: int, e: LsmError|
                    0 <= j < after.len() && #[trigger] after[j].1.can_fail(e) implies old(self).can_fail(e) by {
                    assert(before.contains(after[j]));
                    let l = choose|l: int| 0 <= l < before.len() && before[l] == after[j];
                    assert(old_self.all()[l].1.can_fail(e));
                    assert(old_self.can_fail(e));
                }
                assert forall|j: int| 0 <= j < ws.len() implies model::sorted(
                    (#[trigger] ws[j]).1,
                ) by {
                    assert(after[j].wf());
                    after[j].1.lemma_remaining_sorted();
                    assert(ws[j] == after[j].run());
                }
                lemma_least_run(ws, m);
                lemma_union_finite(ws);
                model::lemma_sorted_entries_head(union_of(ws), ws[m].1[0].key);
            }
            let same = match w.1.key().compare(prev_key.as_key_slice()) {
                Order::Equal => true,
                _ => false,
            };
            if same {
                proof {
                    lemma_union_advance(ws, m);
                    lemma_head_after_skip(w.1.remaining());
                    assert(runs(self.iters@) =~= ws.drop_last());
                    lemma_distinct_fewer(ws);
                    assert(self.all() =~= self.iters@);
                    assert forall|j: int| 0 <= j < self.iters@.len() implies (
                    #[trigger] self.iters@[j]).wf() by {
                        assert(after[j] == self.iters@[j]);
                    }
                    assert(keys_within(*self, *old(self))) by {
                        assert forall|k: KeyTs| #[trigger] self.union().contains_key(k) implies u0.contains_key(
                            k,
                        ) by {
                            lemma_union_part(ws, k);
                        }
                    }
                    stepped = true;
                }
                match w.1.next() {
                    Ok(()) => {},
                    Err(e) => {
                        assert(after[m].1.can_fail(e));
                        return Err(e);
                    },
                }
                let ghost vs = runs(self.iters@.push(w));
                proof {
                    assert(vs =~= ws.update(m, (ws[m].0, ws[m].1.skip(1))));
                    lemma_total_len_update(ws, m, (ws[m].0, ws[m].1.skip(1)));
                    lemma_distinct_update(ws, m, ws[m].1.skip(1));
                }
                if w.1.is_valid() {
                    let ghost kept = self.iters@;
                    self.iters.push(w);
                    proof {
                        assert(self.all() =~= self.iters@);
                        assert(runs(self.iters@) =~= vs);
                        assert forall|j: int| 0 <= j < self.all().len() implies (
                        #[trigger] self.all()[j]).wf() by {
                            if j < m {
                                assert(kept[j].wf());
                            }
                        }
                    }
                } else {
                    proof {
                        assert(vs.last() == w.run());
                        lemma_union_drop_empty(vs);
                        assert(runs(self.iters@) =~= vs.drop_last());
                        lemma_total_len_last(vs);
                    }
                }
                proof {
                    assert forall|e: LsmError| #[trigger] self.can_fail(e) implies old(self).can_fail(e) by {
                        let j = choose|j: int|
                            0 <= j < self.all().len() && (#[trigger] self.all()[j]).1.can_fail(e);
                        assert(after[j].1.can_fail(e));
                    }
                    assert forall|j: int| 0 <= j < self.iters@.len() implies key::key_le(
                        pk,
                        (#[trigger] self.iters@[j]).1.remaining()[0].key,
                    ) by {
                        if j < m {
                            assert(after[j] == self.iters@[j]);
                            assert(ws[j] == after[j].run());
                        }
                    }
                    assert forall|k: KeyTs| #[trigger] self.union().contains_key(k) implies u0.contains_key(
                        k,
                    ) by {
                        if k != pk {
                            assert(self.union().remove(pk).contains_key(k));
                            assert(u0.remove(pk).contains_key(k));
                        }
                    }
                }
            } else {
                self.current = Some(w);
                proof {
                    assert(self.all() =~= after);
                    assert forall|e: LsmError| #[trigger] self.can_fail(e) implies old(self).can_fail(e) by {
                        let j = choose|j: int|
                            0 <= j < self.all().len() && (#[trigger] self.all()[j]).1.can_fail(e);
                        assert(after[j].1.can_fail(e));
                    }
                    if stepped {
                        assert(!union_of(ws).contains_key(pk)) by {
                            if union_of(ws).contains_key(pk) {
                                assert(key::key_le(ws[m].1[0].key, pk));
                            }
                        }
                        assert(union_of(ws).remove(pk) =~= union_of(ws));
                    }
                }
                return Ok(());
            }
        }
        proof {
            assert(self.all() =~= Seq::empty());
            assert(union_of(runs(self.all())) =~= Map::empty());
            model::lemma_sorted_entries_empty(self.union());
            if stepped {
                assert(u0.remove(pk) =~= self.union());
            }
        }
        Ok(())
    }

    /// Takes out the iterator that stands at the least key, the lowest-ranked if several do.
    fn pop_least(iters: &mut Vec<HeapWrapper<I>>) -> (r: HeapWrapper<I>)
        requires
            old(iters)@.len() > 0,
            forall|i: int| 0 <= i < old(iters)@.len() ==> (#[trigger] old(iters)@[i]).wf(),
            distinct_ranks(runs(old(iters)@)),
        ensures
            final(iters)@.len() == old(iters)@.len() - 1,
            forall|i: int| 0 <= i < final(iters)@.len() ==> old(iters)@.contains(
                #[trigger] final(iters)@[i],
            ),
            old(iters)@.contains(r),
            distinct_ranks(runs(final(iters)@.push(r))),
            union_of(runs(final(iters)@.push(r))) == union_of(runs(old(iters)@)),
            total_len(runs(final(iters)@.push(r))) == total_len(runs(old(iters)@)),
            least_run(runs(final(iters)@.push(r)), final(iters)@.len() as int),
    {
        let mut best: usize = 0;
        let mut i: usize = 1;
        let ghost ws = runs(iters@);
        assert(forall|j: int| 0 <= j < ws.len() ==> (#[trigger] ws[j]) == iters@[j].run());
        while i < iters.len()
            invariant
                0 <= best < i <= iters.len(),
                iters@ == old(iters)@,
                ws == runs(iters@),
                forall|j: int| 0 <= j < ws.len() ==> (#[trigger] ws[j]) == iters@[j].run(),
                forall|j: int| 0 <= j < iters@.len() ==> (#[trigger] iters@[j]).wf(),
                forall|j: int|
                    0 <= j < i ==> (key::key_lt(ws[best as int].1[0].key, (#[trigger] ws[j]).1[0].key)
                        || (ws[best as int].1[0].key == ws[j].1[0].key && ws[best as int].0
                        <= ws[j].0)),
            decreases iters.len() - i,
        {
            broadcast use crate::key::group_key_order;

            assert(iters@[i as int].wf() && iters@[best as int].wf());
            assert(ws[i as int] == iters@[i as int].run());
            assert(ws[best as int] == iters@[best as int].run());
            match iters[i].1.key().compare(iters[best].1.key()) {
                Order::Less => {
                    best = i;
                },
                Order::Equal => {
                    if iters[i].0 < iters[best].0 {
                        best = i;
                    }
                },
                Order::Greater => {},
            }
            i = i + 1;
        }
        let r = iters.swap_remove(best);
        proof {
            let vs = runs(iters@.push(r));
            let n = ws.len() - 1;
            let b = best as int;
            assert(old(iters)@[b] == r);
            assert(vs =~= ws.update(b, ws[n]).update(n, ws[b]));
            lemma_total_len_update(ws, b, ws[n]);
            lemma_total_len_update(ws.update(b, ws[n]), n, ws[b]);
            assert forall|j: int| 0 <= j < iters@.len() implies old(iters)@.contains(
                #[trigger] iters@[j],
            ) by {
                if j == b {
                    assert(iters@[j] == old(iters)@[n]);
                } else {
                    assert(iters@[j] == old(iters)@[j]);
                }
            }
            assert(covers(vs, ws)) by {
                assert forall|j: int| 0 <= j < vs.len() implies ws.contains(#[trigger] vs[j]) by {
                    if j == n {
                        assert(vs[j] == ws[b]);
                    } else if j == b {
                        assert(vs[j] == ws[n]);
                    } else {
                        assert(vs[j] == ws[j]);
                    }
                }
            }
            assert(covers(ws, vs)) by {
                assert forall|j: int| 0 <= j < ws.len() implies vs.contains(#[trigger] ws[j]) by {
                    if j == n {
                        assert(vs[b] == ws[n]);
                    } else if j == b {
                        assert(vs[n] == ws[b]);
                    } else {
                        assert(vs[j] == ws[j]);
                    }
                }
            }
            lemma_union_same(vs, ws);
            assert forall|j: int| 0 <= j < vs.len() implies (#[trigger] vs[j]).1.len() > 0
                && (key::key_lt(vs[n].1[0].key, vs[j].1[0].key) || (vs[n].1[0].key
                == vs[j].1[0].key && vs[n].0 <= vs[j].0)) by {
                let l = choose|l: int| 0 <= l < ws.len() && ws[l] == vs[j];
                assert(ws.contains(vs[j]));
                assert(ws[l] == old(iters)@[l].run());
                assert(old(iters)@[l].wf());
                assert(vs[n] == ws[b]);
            }
        }
        r
    }

    pub fn create(iters: Vec<Box<I>>) -> (r: MergeIterator<I>)
        requires
            forall|i: int| 0 <= i < iters@.len() ==> (#[trigger] iters@[i]).wf(),
            active_sum(iters@) <= usize::MAX,
        ensures
            r.wf(),
            r.remaining() == model::sorted_entries(model::merged(maps_of(iters@))),
            r.union() == model::merged(maps_of(iters@)),
            r.active() == active_sum(iters@),
            forall|e: LsmError| #[trigger]
                r.can_fail(e) ==> exists|i: int|
                    0 <= i < iters@.len() && (#[trigger] iters@[i]).can_fail(e),
    {
        let ghost list = iters@;
        let mut num_iterators: usize = 0;
        let mut heap: Vec<HeapWrapper<I>> = Vec::new();
        let mut index: usize = 0;
        let count: usize = iters.len();
        for iter in it: iters.into_iter()
            invariant
                it.seq() == list,
                list.len() == count,
                index == it.index(),
                forall|i: int| 0 <= i < list.len() ==> (#[trigger] list[i]).wf(),
                active_sum(list) <= usize::MAX,
                num_iterators == active_sum(list.take(index as int)),
                forall|j: int|
                    0 <= j < heap@.len() ==> (#[trigger] heap@[j]).wf() && heap@[j].0 < index
                        && heap@[j].1 == list[heap@[j].0 as int],
                forall|j: int, l: int| 0 <= j < l < heap@.len() ==> heap@[j].0 < heap@[l].0,
                forall|i: int|
                    0 <= i < index && (#[trigger] list[i]).remaining().len() > 0 ==> exists|j: int|
                        0 <= j < heap@.len() && (#[trigger] heap@[j]).0 == i,
        {
            proof {
                assert(iter == list[index as int]);
                assert(list.take(index + 1).drop_last() =~= list.take(index as int));
                assert(list.take(index + 1).last() == list[index as int]);
                lemma_active_sum_prefix(list, index + 1);
            }
            let ghost before = heap@;
            if iter.is_valid() {
                num_iterators = num_iterators + iter.num_active_iterators();
                heap.push(HeapWrapper(index, iter));
            }
            proof {
                assert forall|i: int|
                    0 <= i < index + 1 && (#[trigger] list[i]).remaining().len() > 0 implies exists|
                    j: int,
                |
                    0 <= j < heap@.len() && (#[trigger] heap@[j]).0 == i by {
                    if i < index {
                        let j = choose|j: int| 0 <= j < before.len() && (#[trigger] before[j]).0 == i;
                        assert(heap@[j].0 == i);
                    } else {
                        assert(heap@[heap@.len() - 1].0 == i);
                    }
                }
            }
            index = index + 1;
        }
        proof {
            assert(list.take(list.len() as int) =~= list);
        }
        let ghost heap0 = heap@;
        proof {
            lemma_union_is_merged(heap0, list);
        }
        if heap.len() == 0 {
            let r = MergeIterator { iters: heap, current: None, num_iterators };
            proof {
                assert(r.all() =~= heap0);
                assert(r.union() =~= Map::empty());
                model::lemma_sorted_entries_empty(r.union());
            }
            r
        } else {
            let c = MergeIterator::pop_least(&mut heap);
            let ghost after = heap@.push(c);
            let r = MergeIterator { iters: heap, current: Some(c), num_iterators };
            proof {
                assert forall|i: int| 0 <= i < after.len() implies (#[trigger] after[i]).wf()
                    && heap0.contains(after[i]) by {
                    let x = after[i];
                    assert(heap0.contains(x));
                    let l = choose|l: int| 0 <= l < heap0.len() && heap0[l] == x;
                    assert(heap0[l].wf());
                }
                assert forall|e: LsmError| #[trigger] r.can_fail(e) implies exists|i: int|
                    0 <= i < list.len() && (#[trigger] list[i]).can_fail(e) by {
                    let i = choose|i: int|
                        0 <= i < after.len() && (#[trigger] after[i]).1.can_fail(e);
                    assert(heap0.contains(after[i]));
                    let l = choose|l: int| 0 <= l < heap0.len() && heap0[l] == after[i];
                    assert(list[heap0[l].0 as int].can_fail(e));
                }
            }
            r
        }
    }
}

/// Ranks that are positions in a list prefer what comes first in the list.
proof fn lemma_union_is_merged<I: StorageIterator>(heap: Seq<HeapWrapper<I>>, list: Seq<Box<I>>)
    requires
        forall|j: int|
            0 <= j < heap.len() ==> (#[trigger] heap[j]).0 < list.len() && heap[j].1
                == list[heap[j].0 as int],
        forall|j: int, l: int| 0 <= j < l < heap.len() ==> heap[j].0 < heap[l].0,
        forall|i: int|
            0 <= i < list.len() && (#[trigger] list[i]).remaining().len() > 0 ==> exists|j: int|
                0 <= j < heap.len() && (#[trigger] heap[j]).0 == i,
    ensures
        distinct_ranks(runs(heap)),
        union_of(runs(heap)) == model::merged(maps_of(list)),
{
    let ws = runs(heap);
    let ms = maps_of(list);
    assert forall|j: int| 0 <= j < ws.len() implies (#[trigger] ws[j]) == (heap[j].0, list[heap[j].0 as int].remaining()) by {
        assert(heap[j].1 == list[heap[j].0 as int]);
    }
    assert forall|i: int, j: int|
        #![trigger ws[i], ws[j]]
        0 <= i < ws.len() && 0 <= j < ws.len() && i != j implies ws[i].0 != ws[j].0 by {
        if i < j {
            assert(heap[i].0 < heap[j].0);
        } else {
            assert(heap[j].0 < heap[i].0);
        }
    }
    assert forall|k: KeyTs| #[trigger] union_of(ws).contains_key(k) implies model::merged(
        ms,
    ).contains_key(k) && model::merged(ms)[k] == union_of(ws)[k] by {
        let r = lemma_decides_exists(ws, k);
        lemma_union_at(ws, k, r);
        let p = ws[r].0 as int;
        assert(ms[p] == model::entry_map(list[p].remaining()));
        assert forall|q: int| 0 <= q < p implies !(#[trigger] ms[q]).contains_key(k) by {
            if ms[q].contains_key(k) {
                assert(model::has_key(list[q].remaining(), k));
                assert(list[q].remaining().len() > 0);
                let j = choose|j: int| 0 <= j < heap.len() && (#[trigger] heap[j]).0 == q;
                assert(model::has_key(ws[j].1, k));
            }
        }
        model::lemma_merged_at(ms, k, p);
    }
    assert forall|k: KeyTs| #[trigger] model::merged(ms).contains_key(k) implies union_of(
        ws,
    ).contains_key(k) by {
        let q = model::lemma_merged_first(ms, k);
        assert(model::has_key(list[q].remaining(), k));
        assert(list[q].remaining().len() > 0);
        let j = choose|j: int| 0 <= j < heap.len() && (#[trigger] heap[j]).0 == q;
        assert(model::has_key(ws[j].1, k));
    }
    assert(union_of(ws) =~= model::merged(ms));
}

/// A merge has an entry if and only if one of the iterators has it and none before that one has an
/// entry with the same key.
pub proof fn lemma_merge_prefers_first<I: StorageIterator>(
    iters: Seq<Box<I>>,
    k: KeyTs,
    v: Seq<u8>,
)
    requires
        forall|i: int| 0 <= i < iters.len() ==> (#[trigger] iters[i]).wf(),
    ensures
        (model::merged(maps_of(iters)).contains_key(k) && model::merged(maps_of(iters))[k] == v)
            <==> exists|i: int|
            {
                &&& 0 <= i < iters.len()
                &&& (#[trigger] iters[i]).remaining().contains(Entry { key: k, value: v })
                &&& forall|j: int, w: Seq<u8>|
                    0 <= j < i ==> !#[trigger] iters[j].remaining().contains(
                        Entry { key: k, value: w },
                    )
            },
{
    let ms = maps_of(iters);
    let m = model::merged(ms);
    assert forall|i: int, w: Seq<u8>| 0 <= i < iters.len() implies (
    #[trigger] iters[i].remaining().contains(Entry { key: k, value: w }) <==> ms[i].contains_key(k)
        && ms[i][k] == w) by {
        assert(iters[i].wf());
        iters[i].lemma_remaining_sorted();
        model::lemma_entry_map_contains(iters[i].remaining(), k, w);
    }
    if m.contains_key(k) && m[k] == v {
        let i = model::lemma_merged_first(ms, k);
        assert(iters[i].remaining().contains(Entry { key: k, value: v }));
        assert forall|j: int, w: Seq<u8>| 0 <= j < i implies !#[trigger] iters[j].remaining().contains(
            Entry { key: k, value: w },
        ) by {
            assert(!ms[j].contains_key(k));
        }
    }
    assert forall|i: int|
        {
            &&& 0 <= i < iters.len()
            &&& (#[trigger] iters[i]).remaining().contains(Entry { key: k, value: v })
            &&& forall|j: int, w: Seq<u8>|
                0 <= j < i ==> !#[trigger] iters[j].remaining().contains(
                    Entry { key: k, value: w },
                )
        } implies m.contains_key(k) && m[k] == v by {
        assert forall|j: int| 0 <= j < i implies !(#[trigger] ms[j]).contains_key(k) by {
            if ms[j].contains_key(k) {
                assert(iters[j].remaining().contains(Entry { key: k, value: ms[j][k] }));
            }
        }
        model::lemma_merged_at(ms, k, i);
    }
}

/// One merging iterator fails only with errors with which the other may fail.
spec fn fails_like<I: StorageIterator>(a: MergeIterator<I>, b: MergeIterator<I>) -> bool {
    forall|e: LsmError| #[trigger] a.can_fail(e) ==> b.can_fail(e)
}

proof fn lemma_distinct_fewer(ws: Seq<RankedRun>)
    requires
        distinct_ranks(ws),
        ws.len() > 0,
    ensures
        distinct_ranks(ws.drop_last()),
{
    let t = ws.drop_last();
    assert forall|i: int, j: int|
        #![trigger t[i], t[j]]
        0 <= i < t.len() && 0 <= j < t.len() && i != j implies t[i].0 != t[j].0 by {
        assert(ws[i].0 != ws[j].0);
    }
}

proof fn lemma_distinct_update(ws: Seq<RankedRun>, m: int, run: Seq<Entry>)
    requires
        distinct_ranks(ws),
        0 <= m < ws.len(),
    ensures
        distinct_ranks(ws.update(m, (ws[m].0, run))),
{
    let t = ws.update(m, (ws[m].0, run));
    assert forall|i: int, j: int|
        #![trigger t[i], t[j]]
        0 <= i < t.len() && 0 <= j < t.len() && i != j implies t[i].0 != t[j].0 by {
        assert(ws[i].0 != ws[j].0);
    }
}

proof fn lemma_total_len_last(ws: Seq<RankedRun>)
    requires
        ws.len() > 0,
    ensures
        total_len(ws.drop_last()) <= total_len(ws),
{
}

/// The entries of a collection in the order of keys, but for the first if it has some key.
pub open spec fn past_key(u: Versions, k: KeyTs) -> Seq<Entry> {
    let s = model::sorted_entries(u);
    if s.len() > 0 && s[0].key == k {
        s.skip(1)
    } else {
        s
    }
}

/// The iterators of one merging iterator have no other keys than those of the other.
pub open spec fn keys_within<I: StorageIterator>(a: MergeIterator<I>, b: MergeIterator<I>) -> bool {
    forall|k: KeyTs| #[trigger] a.union().contains_key(k) ==> b.union().contains_key(k)
}

/// If no iterator of a type fails, a merging one over that type does not.
pub proof fn lemma_never_fails<I: StorageIterator>(m: MergeIterator<I>)
    requires
        forall|i: I, e: LsmError| !#[trigger] i.can_fail(e),
    ensures
        iterators::never_fails(m),
{
}

/// The keys of some runs are those of these runs and one more.
proof fn lemma_union_part(ws: Seq<RankedRun>, k: KeyTs)
    requires
        ws.len() > 0,
        union_of(ws.drop_last()).contains_key(k),
    ensures
        union_of(ws).contains_key(k),
{
    let t = ws.drop_last();
    let i = choose|i: int| 0 <= i < t.len() && model::has_key((#[trigger] t[i]).1, k);
    assert(model::has_key(ws[i].1, k));
}

/// The key at the head of a run is one of all runs.
proof fn lemma_union_has(ws: Seq<RankedRun>, i: int)
    requires
        0 <= i < ws.len(),
        ws[i].1.len() > 0,
    ensures
        union_of(ws).contains_key(ws[i].1[0].key),
{
    assert(model::has_key(ws[i].1, ws[i].1[0].key));
}

/// Where no iterator stands before a key, what is past it is what is left without it.
proof fn lemma_past_least<I: StorageIterator>(hs: Seq<HeapWrapper<I>>, k: KeyTs)
    requires
        distinct_ranks(runs(hs)),
        forall|j: int|
            0 <= j < hs.len() ==> (#[trigger] hs[j]).wf() && key::key_le(
                k,
                hs[j].1.remaining()[0].key,
            ),
    ensures
        past_key(union_of(runs(hs)), k) == model::sorted_entries(union_of(runs(hs)).remove(k)),
{
    broadcast use crate::key::group_key_order;

    let ws = runs(hs);
    let u = union_of(ws);
    lemma_union_finite(ws);
    assert forall|q: KeyTs| #[trigger] u.contains_key(q) implies key::key_le(k, q) by {
        let j = choose|j: int| 0 <= j < ws.len() && model::has_key((#[trigger] ws[j]).1, q);
        hs[j].1.lemma_remaining_sorted();
        assert(ws[j] == hs[j].run());
        let run = ws[j].1;
        let x = choose|x: int| 0 <= x < run.len() && (#[trigger] run[x]).key == q;
        if x > 0 {
            assert(key::key_lt(run[0].key, run[x].key));
        }
    }
    let s = model::sorted_entries(u);
    model::lemma_sorted_entries(u);
    if u.contains_key(k) {
        model::lemma_sorted_entries_head(u, k);
    } else {
        assert(u.remove(k) =~= u);
        if s.len() > 0 {
            model::lemma_entry_map_index(s, 0);
        }
    }
}

impl<I: StorageIterator> StorageIterator for MergeIterator<I> {
    closed spec fn wf(&self) -> bool {
        &&& forall|i: int| 0 <= i < self.all().len() ==> (#[trigger] self.all()[i]).wf()
        &&& distinct_ranks(runs(self.all()))
        &&& self.current is Some ==> least_run(runs(self.all()), self.iters@.len() as int)
    }

    closed spec fn remaining(&self) -> Seq<Entry> {
        if self.current is None {
            Seq::empty()
        } else {
            model::sorted_entries(self.union())
        }
    }

    closed spec fn can_fail(&self, e: LsmError) -> bool {
        exists|i: int| 0 <= i < self.all().len() && (#[trigger] self.all()[i]).1.can_fail(e)
    }

    /// A step failed, and the other iterators are left.
    closed spec fn may_resume(&self) -> bool {
        self.current is None && self.iters@.len() > 0
    }

    closed spec fn active(&self) -> usize {
        self.num_iterators
    }

    proof fn lemma_remaining_sorted(&self) {
        lemma_union_finite(runs(self.all()));
        model::lemma_sorted_entries(self.union());
    }

    fn is_valid(&self) -> (r: bool) {
        proof {
            self.lemma_head();
        }
        self.current.is_some()
    }

    fn key(&self) -> (r: KeySlice<'_>)
        ensures
            self.remaining().len() == 0 ==> r@ == (KeyTs { key: Seq::empty(), ts: TS_DEFAULT }),
    {
        proof {
            self.lemma_head();
        }
        match &self.current {
            Some(curr) => {
                assert(self.all()[self.iters@.len() as int].wf());
                curr.1.key()
            },
            None => {
                let r = KeySlice::from_slice(&[], TS_DEFAULT);
                assert(r@.key =~= Seq::empty());
                r
            },
        }
    }

    fn value(&self) -> (r: &[u8])
        ensures
            self.remaining().len() == 0 ==> r@ == Seq::<u8>::empty(),
    {
        proof {
            self.lemma_head();
        }
        match &self.current {
            Some(curr) => {
                assert(self.all()[self.iters@.len() as int].wf());
                curr.1.value()
            },
            None => {
                let r: &[u8] = &[];
                assert(r@ =~= Seq::empty());
                r
            },
        }
    }

    /// Moves the cursor one entry on. Where that fails, the iterator that failed is left out, and the
    /// next step goes on with the others.
    fn next(&mut self) -> (r: Result<(), LsmError>)
        ensures
            r is Ok && old(self).remaining().len() == 0 ==> final(self).remaining() == past_key(
                old(self).union(),
                KeyTs { key: Seq::empty(), ts: TS_DEFAULT },
            ),
            old(self).remaining().len() == 0 && !old(self).may_resume() ==> r is Ok,
            r is Ok ==> !final(self).may_resume(),
            r is Err ==> final(self).remaining().len() == 0 && keys_within(
                *final(self),
                *old(self),
            ),
    {
        broadcast use crate::key::group_key_order;

        proof {
            self.lemma_head();
        }
        let mut curr = match self.current.take() {
            None => {
                let none = KeyVec::new();
                proof {
                    assert(none@ =~= KeyTs { key: Seq::empty(), ts: TS_DEFAULT });
                    if !old(self).may_resume() {
                        assert(self.all() =~= Seq::empty());
                        assert(self.union() =~= Map::empty());
                        model::lemma_sorted_entries_empty(self.union());
                    }
                }
                return self.settle(&none);
            },
            Some(curr) => curr,
        };
        let ghost all0 = old(self).all();
        let ghost u0 = old(self).union();
        let ghost n = self.iters@.len() as int;
        assert(all0[n] == curr && all0 =~= self.iters@.push(curr));
        let prev_key = curr.1.key().to_key_vec();
        let ghost pk = prev_key@;
        let ghost ws0 = runs(all0);
        proof {
            assert(ws0[n] == curr.run());
            curr.1.lemma_remaining_sorted();
            lemma_union_advance(ws0, n);
            assert(self.all() =~= self.iters@);
            assert(runs(self.iters@) =~= ws0.drop_last());
            lemma_distinct_fewer(ws0);
            assert forall|j: int| 0 <= j < self.iters@.len() implies (#[trigger] self.iters@[j]).wf() by {
                assert(all0[j] == self.iters@[j]);
            }
            assert forall|k: KeyTs| #[trigger] self.union().contains_key(k) implies u0.contains_key(
                k,
            ) by {
                lemma_union_part(ws0, k);
            }
        }
        match curr.1.next() {
            Ok(()) => {},
            Err(e) => {
                assert(all0[n].1.can_fail(e));
                return Err(e);
            },
        }
        let ghost ws1 = runs(self.iters@.push(curr));
        let ghost kept = self.iters@;
        let ghost last = curr;
        proof {
            assert(ws1 =~= ws0.update(n, (ws0[n].0, ws0[n].1.skip(1))));
            lemma_distinct_update(ws0, n, ws0[n].1.skip(1));
            lemma_head_after_skip(all0[n].1.remaining());
        }
        if curr.1.is_valid() {
            self.iters.push(curr);
            assert(runs(self.iters@) =~= ws1);
        } else {
            proof {
                assert(ws1.last() == curr.run());
                lemma_union_drop_empty(ws1);
                assert(runs(self.iters@) =~= ws1.drop_last());
                lemma_distinct_fewer(ws1);
            }
        }
        let ghost mid = *self;
        let ghost u1 = self.union();
        proof {
            assert(self.all() =~= self.iters@);
            let ws = runs(self.iters@);
            assert(u1.remove(pk) == u0.remove(pk));
            assert forall|j: int| 0 <= j < self.iters@.len() implies (#[trigger] self.iters@[j]).wf()
                && key::key_le(pk, self.iters@[j].1.remaining()[0].key) by {
                if j < n {
                    assert(all0[j] == self.iters@[j]);
                    assert(ws0[j] == self.iters@[j].run());
                }
            }
            assert forall|e: LsmError| #[trigger] self.can_fail(e) implies old(self).can_fail(e) by {
                let j = choose|j: int|
                    0 <= j < self.all().len() && (#[trigger] self.all()[j]).1.can_fail(e);
                if j < n {
                    assert(all0[j].1.can_fail(e));
                } else {
                    assert(all0[n].1.can_fail(e));
                }
            }
            assert forall|k: KeyTs| #[trigger] u1.contains_key(k) implies u0.contains_key(k) by {
                if k != pk {
                    assert(u1.remove(pk).contains_key(k));
                    assert(u0.remove(pk).contains_key(k));
                } else {
                    lemma_union_has(ws0, n);
                }
            }
            lemma_past_least(self.iters@, pk);
            assert(past_key(u1, pk) == model::sorted_entries(u0.remove(pk)));
        }
        let r = self.settle(&prev_key);
        proof {
            if r is Err {
                assert forall|k: KeyTs| #[trigger] self.union().contains_key(k) implies u0.contains_key(
                    k,
                ) by {
                    assert(mid.union().contains_key(k));
                }
            } else {
                assert forall|e: LsmError| #[trigger] self.can_fail(e) implies old(self).can_fail(e) by {
                    assert(mid.can_fail(e));
                }
            }
        }
        r
    }

    fn num_active_iterators(&self) -> (r: usize) {
        self.num_iterators
    }
}

impl<I: StorageIterator> MergeIterator<I> {
    /// The merged run begins with the entry at which the current iterator stands.
    proof fn lemma_head(&self)
        requires
            self.wf(),
        ensures
            self.current is None <==> self.remaining().len() == 0,
            self.current matches Some(c) ==> {
                &&& c.wf()
                &&& self.remaining()[0] == c.1.remaining()[0]
                &&& self.remaining().skip(1) == model::sorted_entries(
                    self.union().remove(c.1.remaining()[0].key),
                )
            },
    {
        let ws = runs(self.all());
        lemma_union_finite(ws);
        match self.current {
            Some(c) => {
                let n = self.iters@.len() as int;
                assert(self.all()[n] == c);
                assert(c.wf());
                assert(ws[n] == c.run());
                assert forall|j: int| 0 <= j < ws.len() implies model::sorted((#[trigger] ws[j]).1) by {
                    assert(self.all()[j].wf());
                    self.all()[j].1.lemma_remaining_sorted();
                    assert(ws[j] == self.all()[j].run());
                }
                lemma_least_run(ws, n);
                model::lemma_sorted_entries_head(self.union(), c.1.remaining()[0].key);
            },
            None => {},
        }
    }
}

} // verus!
