//! A run that is read into memory, with what a compaction at the bottom keeps of it.
use vstd::prelude::*;
use crate::error::LsmError;
use crate::iterators;
use crate::iterators::StorageIterator;
use crate::key;
use crate::key::{KeySlice, KeyTs, KeyVec, TS_DEFAULT};
use crate::lsm_iterator;
use crate::model;
use crate::model::{Entry, Versions};

verus! {

/// The entry at `i` of a run, or an older version of its user key, is no mark of deletion.
pub open spec fn is_live(s: Seq<Entry>, i: int) -> bool {
    exists|j: int|
        i <= j < s.len() && (#[trigger] s[j]).key.key == s[i].key.key && s[j].value.len() > 0
}

/// A version and all older ones of its user key are marks of deletion.
pub open spec fn is_dead(m: Versions, k: KeyTs) -> bool {
    forall|u: u64|
        u <= k.ts && #[trigger] m.contains_key(KeyTs { key: k.key, ts: u }) ==> m[KeyTs {
            key: k.key,
            ts: u,
        }].len() == 0
}

/// The versions without the marks of deletion that hide no older version of their user key.
pub open spec fn trimmed_map(m: Versions) -> Versions {
    Map::new(|k: KeyTs| m.contains_key(k) && !is_dead(m, k), |k: KeyTs| m[k])
}

/// An entry of a run is live if and only if its version is not dead.
pub proof fn lemma_live(s: Seq<Entry>, i: int)
    requires
        model::sorted(s),
        0 <= i < s.len(),
    ensures
        is_live(s, i) <==> !is_dead(model::entry_map(s), s[i].key),
{
    let m = model::entry_map(s);
    let k = s[i].key;
    if is_live(s, i) {
        let j = choose|j: int|
            i <= j < s.len() && (#[trigger] s[j]).key.key == s[i].key.key && s[j].value.len() > 0;
        let q = s[j].key;
        model::lemma_entry_map_index(s, j);
        if i < j {
            reveal(key::key_lt);
            key::lemma_bytes_lt_irreflexive(k.key);
            assert(key::key_lt(s[i].key, s[j].key));
        }
        assert(q == KeyTs { key: k.key, ts: q.ts });
        assert(m.contains_key(KeyTs { key: k.key, ts: q.ts }));
    }
    if !is_dead(m, k) {
        let u = choose|u: u64|
            u <= k.ts && #[trigger] m.contains_key(KeyTs { key: k.key, ts: u }) && m[KeyTs {
                key: k.key,
                ts: u,
            }].len() > 0;
        let j = model::lemma_entry_map_key(s, KeyTs { key: k.key, ts: u });
        if j < i {
            reveal(key::key_lt);
            key::lemma_bytes_lt_irreflexive(k.key);
            assert(key::key_lt(s[j].key, s[i].key));
        }
        assert(s[j].key.key == s[i].key.key);
    }
}

/// An entry is live if it is no mark of deletion, or if the next one is live and of the same user
/// key.
proof fn lemma_live_next(s: Seq<Entry>, i: int)
    requires
        model::sorted(s),
        0 <= i < s.len(),
    ensures
        is_live(s, i) <==> s[i].value.len() > 0 || (i + 1 < s.len() && s[i + 1].key.key
            == s[i].key.key && is_live(s, i + 1)),
{
    broadcast use crate::key::lemma_bytes_order;

    if is_live(s, i) && s[i].value.len() == 0 {
        let j = choose|j: int|
            i <= j < s.len() && (#[trigger] s[j]).key.key == s[i].key.key && s[j].value.len() > 0;
        lsm_iterator::lemma_user_keys(s, i, i + 1);
        lsm_iterator::lemma_user_keys(s, i + 1, j);
        assert(s[i + 1].key.key == s[i].key.key);
    }
}

/// Iterates on a run that was read into memory.
pub struct RunIterator {
    /// What is left, in reverse order.
    items: Vec<(KeyVec, Vec<u8>)>,
}

spec fn item_entry(x: (KeyVec, Vec<u8>)) -> Entry {
    Entry { key: x.0@, value: x.1@ }
}

/// Items in reverse order, as a run.
spec fn run_of(items: Seq<(KeyVec, Vec<u8>)>) -> Seq<Entry> {
    Seq::new(items.len(), |i: int| item_entry(items[items.len() - 1 - i]))
}

impl RunIterator {
    /// Reads an iterator to its end.
    pub fn create<I: StorageIterator>(iter: I) -> (r: Result<RunIterator, LsmError>)
        requires
            iter.wf(),
        ensures
            r matches Ok(it) ==> it.wf() && it.remaining() == iter.remaining(),
            r matches Err(e) ==> iter.can_fail(e),
    {
        let ghost s = iter.remaining();
        let mut all: Vec<(KeyVec, Vec<u8>)> = Vec::new();
        let ghost mut n: int = 0;
        proof {
            iter.lemma_remaining_sorted();
            assert(s.skip(0) =~= s);
        }
        let mut it = iter;
        while it.is_valid()
            invariant
                it.wf(),
                iterators::fails_within(it, iter),
                s == iter.remaining(),
                0 <= n <= s.len(),
                it.remaining() == s.skip(n),
                all@.len() == n,
                forall|i: int| 0 <= i < n ==> item_entry(#[trigger] all@[i]) == s[i],
            ensures
                n == s.len(),
            decreases s.len() - n,
        {
            proof {
                assert(s.skip(n)[0] == s[n]);
                assert(s.skip(n).skip(1) =~= s.skip(n + 1));
            }
            let entry = (it.key().to_key_vec(), vstd::slice::slice_to_vec(it.value()));
            assert(item_entry(entry) == s[n]);
            all.push(entry);
            match it.next() {
                Err(e) => {
                    return Err(e);
                },
                Ok(()) => {},
            }
            proof {
                n = n + 1;
            }
        }
        let mut items: Vec<(KeyVec, Vec<u8>)> = Vec::new();
        assert(run_of(items@) =~= s.skip(s.len() as int));
        while all.len() > 0
            invariant
                all@.len() <= s.len(),
                forall|i: int| 0 <= i < all@.len() ==> item_entry(#[trigger] all@[i]) == s[i],
                run_of(items@) == s.skip(all@.len() as int),
            decreases all@.len(),
        {
            let ghost i = all@.len() - 1;
            let ghost tail = run_of(items@);
            match all.pop() {
                Some(x) => {
                    assert(item_entry(x) == s[i]);
                    items.push(x);
                    assert(run_of(items@) =~= seq![s[i]] + tail);
                    assert(s.skip(i) =~= seq![s[i]] + tail);
                },
                None => {},
            }
        }
        assert(s.skip(0) =~= s);
        Ok(RunIterator { items })
    }

    /// Tells of each entry that is left, from the last to the first, whether it is live.
    pub fn live(&self) -> (r: Vec<bool>)
        requires
            self.wf(),
        ensures
            r@.len() == self.remaining().len(),
            forall|i: int|
                0 <= i < r@.len() ==> #[trigger] r@[i] == is_live(
                    self.remaining(),
                    r@.len() - 1 - i,
                ),
    {
        let ghost s = self.remaining();
        let mut r: Vec<bool> = Vec::new();
        let mut i: usize = 0;
        while i < self.items.len()
            invariant
                self.wf(),
                s == self.remaining(),
                s.len() == self.items@.len(),
                i <= self.items@.len(),
                r@.len() == i,
                forall|j: int| 0 <= j < i ==> #[trigger] r@[j] == is_live(s, s.len() - 1 - j),
            decreases self.items@.len() - i,
        {
            proof {
                let n = s.len() - 1 - i;
                assert(s[n] == item_entry(self.items@[i as int]));
                lemma_live_next(s, n);
                if i > 0 {
                    assert(s[n + 1] == item_entry(self.items@[i - 1]));
                    assert(r@[i - 1] == is_live(s, n + 1));
                }
            }
            let live: bool = self.items[i].1.len() > 0 || (i > 0 && key::bytes_equal(
                self.items[i - 1].0.as_key_slice().key_ref(),
                self.items[i].0.as_key_slice().key_ref(),
            ) && r[i - 1]);
            r.push(live);
            i = i + 1;
        }
        r
    }
}

impl StorageIterator for RunIterator {
    closed spec fn wf(&self) -> bool {
        model::sorted(run_of(self.items@))
    }

    closed spec fn remaining(&self) -> Seq<Entry> {
        run_of(self.items@)
    }

    open spec fn can_fail(&self, e: LsmError) -> bool {
        false
    }

    open spec fn may_resume(&self) -> bool {
        false
    }

    open spec fn active(&self) -> usize {
        1
    }

    proof fn lemma_remaining_sorted(&self) {
    }

    fn is_valid(&self) -> (r: bool) {
        self.items.len() > 0
    }

    fn key(&self) -> (r: KeySlice<'_>) {
        if self.items.len() > 0 {
            self.items[self.items.len() - 1].0.as_key_slice()
        } else {
            KeySlice::from_slice(&[], TS_DEFAULT)
        }
    }

    fn value(&self) -> (r: &[u8]) {
        if self.items.len() > 0 {
            self.items[self.items.len() - 1].1.as_slice()
        } else {
            &[]
        }
    }

    fn next(&mut self) -> (r: Result<(), LsmError>) {
        proof {
            let s = run_of(self.items@);
            if s.len() > 0 {
                model::lemma_entry_map_skip(s);
            }
        }
        let _ = self.items.pop();
        proof {
            let s = run_of(old(self).items@);
            if s.len() > 0 {
                assert(run_of(self.items@) =~= s.skip(1));
            }
        }
        Ok(())
    }

    fn num_active_iterators(&self) -> (r: usize) {
        1
    }
}

} // verus!
