//! Iterates on tables whose key ranges follow each other.
use vstd::prelude::*;
use crate::error::LsmError;
use crate::iterators::StorageIterator;
use crate::key;
use crate::key::{KeySlice, Order};
use crate::model;
use crate::model::Entry;
use crate::table::{SsTable, SsTableIterator};

verus! {

/// Concat multiple iterators ordered in key order and their key ranges do not overlap.
pub struct SstConcatIterator<'a> {
    current: Option<SsTableIterator<'a>>,
    next_sst_idx: usize,
    sstables: Vec<&'a SsTable>,
}

/// The entries of each table.
pub open spec fn runs(tables: Seq<&SsTable>) -> Seq<Seq<Entry>> {
    tables.map_values(|t: &SsTable| t.entries())
}

/// The tables are in order, and their key ranges follow each other.
pub open spec fn ordered(tables: Seq<&SsTable>) -> bool {
    &&& forall|i: int| 0 <= i < tables.len() ==> (#[trigger] tables[i]).wf()
    &&& model::sorted(model::concat(runs(tables)))
}

impl<'a> SstConcatIterator<'a> {
    /// What remains of the current table, and the tables behind it.
    spec fn rest(&self) -> Seq<Entry> {
        let after = model::concat(runs(self.sstables@).skip(self.next_sst_idx as int));
        match self.current {
            None => after,
            Some(c) => c.remaining() + after,
        }
    }

    spec fn placed(&self) -> bool {
        &&& forall|i: int| 0 <= i < self.sstables@.len() ==> (#[trigger] self.sstables@[i]).wf()
        &&& self.next_sst_idx <= self.sstables@.len()
        &&& self.current matches Some(c) ==> c.wf()
        &&& model::sorted(self.rest())
    }

    /// There is no current table, or it has entries left; without one, none follows.
    spec fn settled(&self) -> bool {
        &&& self.placed()
        &&& self.current matches Some(c) ==> c.remaining().len() > 0
        &&& self.current is None ==> self.next_sst_idx == self.sstables@.len()
    }

    proof fn lemma_rest(&self)
        requires
            self.settled(),
        ensures
            self.rest().len() > 0 <==> self.current is Some,
            self.current matches Some(c) ==> self.rest()[0] == c.remaining()[0],
    {
        if self.current is None {
            assert(runs(self.sstables@).skip(self.next_sst_idx as int) =~= Seq::empty());
        }
    }

    /// Leaves tables that are used up.
    fn settle(&mut self)
        requires
            old(self).placed(),
        ensures
            final(self).settled(),
            final(self).sstables@ == old(self).sstables@,
            final(self).rest() == old(self).rest(),
    {
        loop
            invariant
                self.placed(),
                self.sstables@ == old(self).sstables@,
                self.rest() == old(self).rest(),
            ensures
                self.settled(),
            decreases
                    self.sstables@.len() - self.next_sst_idx,
                    (if self.current is Some {
                        1nat
                    } else {
                        0
                    }),
        {
            let done: bool = match &self.current {
                None => self.next_sst_idx == self.sstables.len(),
                Some(c) => c.is_valid(),
            };
            if done {
                break;
            }
            let ghost before = self.rest();
            if self.next_sst_idx < self.sstables.len() {
                let i: usize = self.next_sst_idx;
                proof {
                    let rs = runs(self.sstables@);
                    model::lemma_concat_at(rs, i as int);
                    assert(rs[i as int] == self.sstables@[i as int].entries());
                }
                let c = SsTableIterator::create_and_seek_to_first(self.sstables[i]);
                self.current = Some(c);
                self.next_sst_idx = i + 1;
                assert(self.rest() =~= before);
            } else {
                self.current = None;
                assert(self.rest() =~= before);
            }
        }
    }

    pub fn create_and_seek_to_first(sstables: Vec<&'a SsTable>) -> (r: SstConcatIterator<'a>)
        requires
            ordered(sstables@),
        ensures
            r.wf(),
            r.remaining() == model::concat(runs(sstables@)),
    {
        assert(runs(sstables@).skip(0) =~= runs(sstables@));
        let mut r = SstConcatIterator { current: None, next_sst_idx: 0, sstables };
        r.settle();
        r
    }

    pub fn create_and_seek_to_key(sstables: Vec<&'a SsTable>, key: KeySlice<'_>) -> (r:
        SstConcatIterator<'a>)
        requires
            ordered(sstables@),
        ensures
            r.wf(),
            r.remaining() == model::from_key(model::concat(runs(sstables@)), key@),
    {
        let ghost rs = runs(sstables@);
        let ghost all = model::concat(rs);
        let mut i: usize = 0;
        assert(rs.skip(0) =~= rs);
        while i < sstables.len()
            invariant
                i <= sstables.len(),
                ordered(sstables@),
                rs == runs(sstables@),
                all == model::concat(rs),
                model::from_key(all, key@) == model::from_key(
                    model::concat(rs.skip(i as int)),
                    key@,
                ),
            decreases sstables.len() - i,
        {
            let table = sstables[i];
            let ghost here = table.entries();
            let ghost after = model::concat(rs.skip(i + 1));
            proof {
                model::lemma_concat_at(rs, i as int);
                assert(rs[i as int] == here);
                model::lemma_from_key_map(all, key@);
            }
            let skip: bool = match table.last_key().as_key_slice().compare(key) {
                Order::Less => true,
                _ => false,
            };
            if skip {
                proof {
                    broadcast use crate::key::group_key_order;

                    assert forall|j: int| 0 <= j < here.len() implies key::key_lt(
                        (#[trigger] here[j]).key,
                        key@,
                    ) by {
                        if j < here.len() - 1 {
                            assert(model::sorted(here));
                            assert(key::key_lt(here[j].key, here[here.len() - 1].key));
                        }
                    }
                    model::lemma_from_key_after(here, after, key@);
                }
            } else {
                let c = SsTableIterator::create_and_seek_to_key(table, key);
                if c.is_valid() {
                    proof {
                        model::lemma_from_key_within(here, after, key@);
                    }
                    return SstConcatIterator { current: Some(c), next_sst_idx: i + 1, sstables };
                }
                proof {
                    lemma_none_left(here, after, key@);
                }
            }
            i = i + 1;
        }
        let r = SstConcatIterator { current: None, next_sst_idx: i, sstables };
        proof {
            assert(rs.skip(i as int) =~= Seq::empty());
            assert(r.rest() =~= Seq::empty());
        }
        r
    }
}

/// A run that does not reach a key does not matter.
proof fn lemma_none_left(a: Seq<Entry>, b: Seq<Entry>, k: key::KeyTs)
    requires
        model::from_key(a, k).len() == 0,
    ensures
        model::from_key(a + b, k) == model::from_key(b, k),
    decreases a.len(),
{
    if a.len() == 0 {
        assert(a + b =~= b);
    } else {
        assert((a + b)[0] == a[0]);
        assert((a + b).skip(1) =~= a.skip(1) + b);
        lemma_none_left(a.skip(1), b, k);
    }
}

/// Tables one after the other have just the entries that one of them has.
pub proof fn lemma_concat_has_all(sstables: Seq<&SsTable>, e: Entry)
    ensures
        model::concat(runs(sstables)).contains(e) <==> exists|i: int|
            0 <= i < sstables.len() && (#[trigger] sstables[i]).entries().contains(e),
{
    let rs = runs(sstables);
    let all = model::concat(rs);
    if all.contains(e) {
        let (i, j) = model::lemma_concat_from(rs, all.index_of(e));
        assert(sstables[i].entries()[j] == e);
        assert(sstables[i].entries().contains(e));
    }
    assert forall|i: int|
        0 <= i < sstables.len() && (#[trigger] sstables[i]).entries().contains(e) implies all.contains(
        e,
    ) by {
        let j = sstables[i].entries().index_of(e);
        assert(rs[i] == sstables[i].entries());
        let k = model::lemma_concat_has(rs, i, j);
        assert(all[k] == e);
    }
}

impl<'a> StorageIterator for SstConcatIterator<'a> {
    closed spec fn wf(&self) -> bool {
        self.settled()
    }

    closed spec fn remaining(&self) -> Seq<Entry> {
        self.rest()
    }

    open spec fn can_fail(&self, e: LsmError) -> bool {
        false
    }

    open spec fn may_resume(&self) -> bool {
        false
    }

    open spec fn active(&self) -> usize {
        1
    }

    proof fn lemma_remaining_sorted(&self) {
    }

    fn is_valid(&self) -> (r: bool) {
        proof {
            self.lemma_rest();
        }
        match &self.current {
            None => false,
            Some(_) => true,
        }
    }

    fn key(&self) -> (r: KeySlice<'_>) {
        proof {
            self.lemma_rest();
        }
        match &self.current {
            None => no_key(),
            Some(c) => c.key(),
        }
    }

    fn value(&self) -> (r: &[u8]) {
        proof {
            self.lemma_rest();
        }
        match &self.current {
            None => no_key().key_ref(),
            Some(c) => c.value(),
        }
    }

    fn next(&mut self) -> (r: Result<(), LsmError>) {
        proof {
            self.lemma_rest();
        }
        match self.current.take() {
            None => {},
            Some(mut c) => {
                let _ = c.next();
                self.current = Some(c);
                assert(self.rest() =~= old(self).rest().skip(1));
                self.settle();
            },
        }
        Ok(())
    }

    fn num_active_iterators(&self) -> (r: usize) {
        1
    }
}

/// The empty key.
fn no_key() -> (r: KeySlice<'static>)
    ensures
        r@.key.len() == 0,
{
    KeySlice::from_slice(&[], 0)
}

} // verus!
