//! Iterators over sorted runs of entries.
pub mod concat_iterator;
pub mod merge_iterator;
pub mod run_iterator;
pub mod two_merge_iterator;

use vstd::prelude::*;
use crate::error::LsmError;
use crate::key::KeySlice;
use crate::model;
use crate::model::Entry;

verus! {

/// A cursor over a sorted run of entries.
///
/// Iterators over user keys, which have no versions, give every key with the timestamp
/// `TS_DEFAULT`.
pub trait StorageIterator: Sized {
    /// The iterator's invariant.
    spec fn wf(&self) -> bool;

    /// The entries from the cursor's position to the end.
    spec fn remaining(&self) -> Seq<Entry>;

    /// The errors with which a step of this iterator may fail.
    spec fn can_fail(&self, e: LsmError) -> bool;

    /// There may be entries behind the end, to which a further step goes on.
    spec fn may_resume(&self) -> bool;

    /// How many iterators over stored runs feed this one.
    spec fn active(&self) -> usize;

    /// The remaining entries are in the order of keys, each key once.
    proof fn lemma_remaining_sorted(&self)
        requires
            self.wf(),
        ensures
            model::sorted(self.remaining()),
    ;

    /// Tells whether the cursor is at an entry.
    fn is_valid(&self) -> (r: bool)
        requires
            self.wf(),
        ensures
            r == (self.remaining().len() > 0),
    ;

    /// The key at the cursor.
    fn key(&self) -> (r: KeySlice<'_>)
        requires
            self.wf(),
        ensures
            self.remaining().len() > 0 ==> r@ == self.remaining()[0].key,
    ;

    /// The value at the cursor.
    fn value(&self) -> (r: &[u8])
        requires
            self.wf(),
        ensures
            self.remaining().len() > 0 ==> r@ == self.remaining()[0].value,
    ;

    /// Moves the cursor one entry on.
    fn next(&mut self) -> (r: Result<(), LsmError>)
        requires
            old(self).wf(),
        ensures
            final(self).wf(),
            r is Ok ==> forall|e: LsmError| #[trigger]
                final(self).can_fail(e) ==> old(self).can_fail(e),
            r is Ok ==> final(self).active() == old(self).active(),
            r is Ok && old(self).remaining().len() > 0 ==> final(self).remaining() == old(
                self,
            ).remaining().skip(1),
            r is Ok && !old(self).may_resume() ==> !final(self).may_resume(),
            r is Ok && !old(self).may_resume() && old(self).remaining().len() == 0 ==> final(self).remaining().len() == 0,
            r matches Err(e) ==> old(self).can_fail(e),
    ;

    /// The number of iterators over stored runs that feed this one.
    fn num_active_iterators(&self) -> (r: usize)
        ensures
            r == self.active(),
    ;
}

/// No step of an iterator fails.
pub open spec fn never_fails<I: StorageIterator>(i: I) -> bool {
    forall|e: LsmError| !#[trigger] i.can_fail(e)
}

/// An iterator fails only with errors with which another may fail.
pub open spec fn fails_within<I: StorageIterator, J: StorageIterator>(i: I, j: J) -> bool {
    forall|e: LsmError| #[trigger] i.can_fail(e) ==> j.can_fail(e)
}

} // verus!
