//! Timestamps of commits, and transactions.
pub mod txn;

use vstd::prelude::*;
use crate::key::KeyTs;
use crate::mvcc::txn::Transaction;

verus! {

/// The timestamp of the latest commit.
pub struct LsmMvccInner {
    commit_ts: u64,
}

impl LsmMvccInner {
    pub closed spec fn latest(&self) -> u64 {
        self.commit_ts
    }

    pub fn new(initial_ts: u64) -> (r: LsmMvccInner)
        ensures
            r.latest() == initial_ts,
    {
        LsmMvccInner { commit_ts: initial_ts }
    }

    pub fn latest_commit_ts(&self) -> (r: u64)
        ensures
            r == self.latest(),
    {
        self.commit_ts
    }

    /// A transaction that reads as of the latest commit.
    pub fn new_txn(&self, serializable: bool) -> (r: Transaction)
        ensures
            r.wf(),
            r.read_ts == self.latest(),
            !r.committed,
            r.local() == Map::<KeyTs, Seq<u8>>::empty(),
            serializable ==> (r.key_hashes matches Some(h) && h.0@ == Set::<u32>::empty() && h.1@
                == Set::<u32>::empty()),
            !serializable ==> r.key_hashes is None,
    {
        Transaction::new(self.commit_ts, serializable)
    }

    pub fn update_commit_ts(&mut self, ts: u64)
        ensures
            final(self).latest() == ts,
    {
        self.commit_ts = ts;
    }
}

} // verus!
