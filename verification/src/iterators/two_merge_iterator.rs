//! Merges two iterators of different types.
use vstd::prelude::*;
use crate::error::LsmError;
use crate::iterators::StorageIterator;
use crate::key;
use crate::key::{KeySlice, KeyTs, Order};
use crate::model;
use crate::model::{Entry, Versions};

verus! {

/// Merges two iterators of different types into one. If the two iterators have the same key, only
/// produce the key once and prefer the entry from A.
pub struct TwoMergeIterator<A: StorageIterator, B: StorageIterator> {
    a: A,
    b: B,
    num_iterators: usize,
}

/// The entries of both runs, `a` preferred.
pub open spec fn two_merged(a: Seq<Entry>, b: Seq<Entry>) -> Versions {
    model::prefer(model::entry_map(a), model::entry_map(b))
}

pub proof fn lemma_two_merged_finite(a: Seq<Entry>, b: Seq<Entry>)
    ensures
        two_merged(a, b).dom().finite(),
{
    model::lemma_entry_map_finite(a);
    model::lemma_entry_map_finite(b);
    assert(two_merged(a, b).dom() =~= model::entry_map(a).dom().union(model::entry_map(b).dom()));
}

/// A merge of two runs has an entry if and only if the first run has it, or the second has it and the
/// first has no entry with its key.
pub proof fn lemma_two_merge_prefers_first(a: Seq<Entry>, b: Seq<Entry>, k: KeyTs, v: Seq<u8>)
    requires
        model::sorted(a),
        model::sorted(b),
    ensures
        model::sorted(model::sorted_entries(two_merged(a, b))),
        model::sorted_entries(two_merged(a, b)).contains(Entry { key: k, value: v }) <==> {
            ||| a.contains(Entry { key: k, value: v })
            ||| b.contains(Entry { key: k, value: v }) && forall|w: Seq<u8>|
                !#[trigger] a.contains(Entry { key: k, value: w })
        },
{
    let m = two_merged(a, b);
    lemma_two_merged_finite(a, b);
    model::lemma_sorted_entries(m);
    model::lemma_entry_map_contains(model::sorted_entries(m), k, v);
    model::lemma_entry_map_contains(a, k, v);
    model::lemma_entry_map_contains(b, k, v);
    if model::entry_map(a).contains_key(k) {
        model::lemma_entry_map_contains(a, k, model::entry_map(a)[k]);
    } else {
        assert forall|w: Seq<u8>| !#[trigger] a.contains(Entry { key: k, value: w }) by {
            model::lemma_entry_map_contains(a, k, w);
        }
    }
}

proof fn lemma_least(s: Seq<Entry>, k: KeyTs)
    requires
        model::sorted(s),
        model::has_key(s, k),
    ensures
        s.len() > 0,
        key::key_le(s[0].key, k),
{
    let i = choose|i: int| 0 <= i < s.len() && (#[trigger] s[i]).key == k;
    if i > 0 {
        assert(key::key_lt(s[0].key, s[i].key));
    }
}

/// The merged run stands at `a`'s head where `a` is not behind `b`, and stepping over it steps
/// over that key in both runs.
proof fn lemma_head_a(a: Seq<Entry>, b: Seq<Entry>)
    requires
        model::sorted(a),
        model::sorted(b),
        a.len() > 0,
        b.len() > 0 ==> key::key_le(a[0].key, b[0].key),
    ensures
        model::sorted_entries(two_merged(a, b)).len() > 0,
        model::sorted_entries(two_merged(a, b))[0] == a[0],
        model::sorted_entries(two_merged(a, b)).skip(1) == model::sorted_entries(
            two_merged(
                a.skip(1),
                if b.len() > 0 && b[0].key == a[0].key {
                    b.skip(1)
                } else {
                    b
                },
            ),
        ),
{
    broadcast use crate::key::group_key_order;

    let m = two_merged(a, b);
    let k = a[0].key;
    lemma_two_merged_finite(a, b);
    model::lemma_entry_map_index(a, 0);
    assert forall|q: KeyTs| #[trigger] m.contains_key(q) implies key::key_le(k, q) by {
        if model::has_key(a, q) {
            lemma_least(a, q);
        } else {
            lemma_least(b, q);
        }
    }
    model::lemma_sorted_entries_head(m, k);
    model::lemma_entry_map_skip(a);
    if b.len() > 0 && b[0].key == k {
        model::lemma_entry_map_skip(b);
        assert(two_merged(a.skip(1), b.skip(1)) =~= m.remove(k));
    } else {
        assert(!model::entry_map(b).contains_key(k)) by {
            if model::has_key(b, k) {
                lemma_least(b, k);
            }
        }
        assert(two_merged(a.skip(1), b) =~= m.remove(k));
    }
}

proof fn lemma_head_b(a: Seq<Entry>, b: Seq<Entry>)
    requires
        model::sorted(a),
        model::sorted(b),
        b.len() > 0,
        a.len() > 0 ==> key::key_lt(b[0].key, a[0].key),
    ensures
        model::sorted_entries(two_merged(a, b)).len() > 0,
        model::sorted_entries(two_merged(a, b))[0] == b[0],
        model::sorted_entries(two_merged(a, b)).skip(1) == model::sorted_entries(
            two_merged(a, b.skip(1)),
        ),
{
    broadcast use crate::key::group_key_order;

    let m = two_merged(a, b);
    let k = b[0].key;
    lemma_two_merged_finite(a, b);
    model::lemma_entry_map_index(b, 0);
    assert(!model::entry_map(a).contains_key(k)) by {
        if model::has_key(a, k) {
            lemma_least(a, k);
        }
    }
    assert forall|q: KeyTs| #[trigger] m.contains_key(q) implies key::key_le(k, q) by {
        if model::has_key(a, q) {
            lemma_least(a, q);
        } else {
            lemma_least(b, q);
        }
    }
    model::lemma_sorted_entries_head(m, k);
    model::lemma_entry_map_skip(b);
    assert(two_merged(a, b.skip(1)) =~= m.remove(k));
}

proof fn lemma_both_empty(a: Seq<Entry>, b: Seq<Entry>)
    requires
        a.len() == 0,
        b.len() == 0,
    ensures
        model::sorted_entries(two_merged(a, b)).len() == 0,
{
    assert(two_merged(a, b) =~= Map::empty());
    model::lemma_sorted_entries_empty(two_merged(a, b));
}

/// A run stands at the next entry of two: it has one, and the other has none before it.
pub open spec fn goes_first(s: Seq<Entry>, other: Seq<Entry>) -> bool {
    s.len() > 0 && (other.len() > 0 ==> key::key_lt(s[0].key, other[0].key))
}

impl<A: StorageIterator, B: StorageIterator> TwoMergeIterator<A, B> {
    /// The iterator whose entries are preferred.
    pub closed spec fn first(&self) -> A {
        self.a
    }

    /// The other iterator.
    pub closed spec fn second(&self) -> B {
        self.b
    }

    pub fn create(a: A, b: B) -> (r: Result<TwoMergeIterator<A, B>, LsmError>)
        requires
            a.wf(),
            b.wf(),
            a.active() + b.active() <= usize::MAX,
        ensures
            r is Ok,
            r->Ok_0.wf(),
            r->Ok_0.remaining() == model::sorted_entries(two_merged(a.remaining(), b.remaining())),
            r->Ok_0.first() == a,
            r->Ok_0.second() == b,
            r->Ok_0.active() == a.active() + b.active(),
    {
        let num_iterators = a.num_active_iterators() + b.num_active_iterators();
        Ok(TwoMergeIterator { a, b, num_iterators })
    }

    proof fn lemma_heads(&self)
        requires
            self.wf(),
        ensures
            ({
                let a = self.a.remaining();
                let b = self.b.remaining();
                let r = self.remaining();
                &&& r.len() == 0 <==> a.len() == 0 && b.len() == 0
                &&& a.len() > 0 && (b.len() > 0 ==> key::key_le(a[0].key, b[0].key)) ==> r[0] == a[0]
                    && r.skip(1) == model::sorted_entries(
                    two_merged(
                        a.skip(1),
                        if b.len() > 0 && b[0].key == a[0].key {
                            b.skip(1)
                        } else {
                            b
                        },
                    ),
                )
                &&& b.len() > 0 && (a.len() > 0 ==> key::key_lt(b[0].key, a[0].key)) ==> r[0] == b[0]
                    && r.skip(1) == model::sorted_entries(two_merged(a, b.skip(1)))
            }),
    {
        broadcast use crate::key::group_key_order;

        self.a.lemma_remaining_sorted();
        self.b.lemma_remaining_sorted();
        let a = self.a.remaining();
        let b = self.b.remaining();
        if a.len() > 0 && (b.len() > 0 ==> key::key_le(a[0].key, b[0].key)) {
            lemma_head_a(a, b);
        } else if b.len() > 0 {
            assert(a.len() > 0 ==> key::key_lt(b[0].key, a[0].key)) by {
                if a.len() > 0 {
                    assert(!key::key_lt(a[0].key, b[0].key));
                }
            }
            lemma_head_b(a, b);
        } else {
            lemma_both_empty(a, b);
        }
    }
}

impl<A: StorageIterator, B: StorageIterator> StorageIterator for TwoMergeIterator<A, B> {
    open spec fn wf(&self) -> bool {
        self.first().wf() && self.second().wf()
    }

    open spec fn remaining(&self) -> Seq<Entry> {
        model::sorted_entries(two_merged(self.first().remaining(), self.second().remaining()))
    }

    /// The second iterator moves only from entry to entry.
    open spec fn can_fail(&self, e: LsmError) -> bool {
        self.first().can_fail(e) || (self.second().remaining().len() > 0
            && self.second().can_fail(e))
    }

    open spec fn may_resume(&self) -> bool {
        self.first().may_resume() || self.second().may_resume()
    }

    closed spec fn active(&self) -> usize {
        self.num_iterators
    }

    proof fn lemma_remaining_sorted(&self) {
        lemma_two_merged_finite(self.a.remaining(), self.b.remaining());
        model::lemma_sorted_entries(two_merged(self.a.remaining(), self.b.remaining()));
    }

    fn is_valid(&self) -> (r: bool) {
        proof {
            self.lemma_heads();
        }
        self.a.is_valid() || self.b.is_valid()
    }

    fn key(&self) -> (r: KeySlice<'_>) {
        broadcast use crate::key::group_key_order;

        proof {
            self.lemma_heads();
        }
        if !self.b.is_valid() {
            self.a.key()
        } else if !self.a.is_valid() {
            self.b.key()
        } else {
            match self.a.key().compare(self.b.key()) {
                Order::Greater => self.b.key(),
                _ => self.a.key(),
            }
        }
    }

    fn value(&self) -> (r: &[u8]) {
        broadcast use crate::key::group_key_order;

        proof {
            self.lemma_heads();
        }
        if !self.b.is_valid() {
            self.a.value()
        } else if !self.a.is_valid() {
            self.b.value()
        } else {
            match self.a.key().compare(self.b.key()) {
                Order::Greater => self.b.value(),
                _ => self.a.value(),
            }
        }
    }

    /// Moves the cursor one entry on. Where that fails, the iterator that was not at the next entry
    /// is as before.
    fn next(&mut self) -> (r: Result<(), LsmError>)
        ensures
            goes_first(old(self).first().remaining(), old(self).second().remaining()) ==> {
                &&& final(self).second() == old(self).second()
                &&& r matches Err(e) ==> old(self).first().can_fail(e)
            },
            goes_first(old(self).second().remaining(), old(self).first().remaining()) ==> {
                &&& final(self).first() == old(self).first()
                &&& r matches Err(e) ==> old(self).second().can_fail(e)
            },
    {
        broadcast use crate::key::group_key_order;

        proof {
            self.lemma_heads();
        }
        let r = if !self.b.is_valid() {
            self.a.next()
        } else if !self.a.is_valid() {
            self.b.next()
        } else {
            match self.a.key().compare(self.b.key()) {
                Order::Less => self.a.next(),
                Order::Greater => self.b.next(),
                Order::Equal => {
                    let ra = self.a.next();
                    let rb = self.b.next();
                    match ra {
                        Ok(()) => rb,
                        Err(e) => Err(e),
                    }
                },
            }
        };
        proof {
            self.lemma_heads();
        }
        r
    }

    fn num_active_iterators(&self) -> (r: usize) {
        self.num_iterators
    }
}

} // verus!
