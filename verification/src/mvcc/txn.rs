//! Transactions: reads as of a timestamp, and writes that others do not see.
use vstd::prelude::*;
use std::collections::HashSet;
use bytes::Bytes;
use crate::deps;
use crate::deps::{Bound, SkipList};
use crate::error::LsmError;
use crate::iterators;
use crate::iterators::StorageIterator;
use crate::iterators::two_merge_iterator;
use crate::iterators::two_merge_iterator::TwoMergeIterator;
use crate::key;
use crate::key::{KeySlice, KeyTs, TS_DEFAULT};
use crate::lsm_iterator::{FusedIterator, LsmIterator};
use crate::lsm_storage;
use crate::lsm_storage::LsmStorageInner;
use crate::lsm_storage::read;
use crate::mem_table;
use crate::mem_table::MemTableIterator;
use crate::model;
use crate::model::{Entry, Versions};
use crate::wal::Record;

verus! {

/// A transaction.
pub struct Transaction {
    pub read_ts: u64,
    pub local_storage: SkipList,
    pub committed: bool,
    /// Write set and read set
    pub key_hashes: Option<(HashSet<u32>, HashSet<u32>)>,
}

/// The entries that are not marks of deletion.
pub open spec fn live_entries(s: Seq<Entry>) -> Seq<Entry>
    decreases s.len(),
{
    if s.len() == 0 {
        s
    } else if s[0].value.len() > 0 {
        seq![s[0]] + live_entries(s.skip(1))
    } else {
        live_entries(s.skip(1))
    }
}

/// The versions that are not marks of deletion.
pub open spec fn live_map(m: Versions) -> Versions {
    Map::new(|k: KeyTs| m.contains_key(k) && m[k].len() > 0, |k: KeyTs| m[k])
}

pub proof fn lemma_live(s: Seq<Entry>)
    requires
        model::sorted(s),
    ensures
        model::sorted(live_entries(s)),
        model::entry_map(live_entries(s)) == live_map(model::entry_map(s)),
        forall|i: int| 0 <= i < live_entries(s).len() ==> s.contains(#[trigger] live_entries(s)[i]),
    decreases s.len(),
{
    let r = live_entries(s);
    if s.len() == 0 {
        assert(model::entry_map(r) =~= live_map(model::entry_map(s)));
    } else {
        let t = s.skip(1);
        let one = seq![s[0]];
        assert(s =~= one + t);
        model::lemma_sorted_parts(one, t);
        lemma_live(t);
        let q = live_entries(t);
        assert forall|i: int| 0 <= i < q.len() implies s.contains(#[trigger] q[i]) by {
            assert(t.contains(q[i]));
            let j = t.index_of(q[i]);
            assert(s[j + 1] == q[i]);
        }
        assert(s.contains(s[0]));
        model::lemma_entry_map_append(one, t);
        model::lemma_entry_map_index(one, 0);
        assert forall|k: KeyTs| #[trigger] model::entry_map(one).contains_key(k) implies k
            == s[0].key by {
            let i = model::lemma_entry_map_key(one, k);
        }
        if s[0].value.len() > 0 {
            if q.len() > 0 {
                assert(t.contains(q[0]));
                let j = t.index_of(q[0]);
                assert(key::key_lt(one[0].key, t[j].key));
            }
            model::lemma_sorted_append(one, q);
            model::lemma_entry_map_append(one, q);
        } else {
            assert(!model::entry_map(t).contains_key(s[0].key)) by {
                if model::entry_map(t).contains_key(s[0].key) {
                    let j = model::lemma_entry_map_key(t, s[0].key);
                    assert(key::key_lt(one[0].key, t[j].key));
                    key::lemma_key_order(one[0].key, t[j].key);
                }
            }
        }
        assert(model::entry_map(r) =~= live_map(model::entry_map(s)));
    }
}

/// Of a run the entries stay that are no marks of deletion.
pub proof fn lemma_live_entries(s: Seq<Entry>, e: Entry)
    ensures
        live_entries(s).contains(e) <==> s.contains(e) && e.value.len() > 0,
    decreases s.len(),
{
    if s.len() > 0 {
        let t = s.skip(1);
        let r = live_entries(s);
        let q = live_entries(t);
        lemma_live_entries(t, e);
        assert(s.contains(e) <==> s[0] == e || t.contains(e)) by {
            if t.contains(e) {
                let j = t.index_of(e);
                assert(s[j + 1] == e);
            }
            if s.contains(e) {
                let j = s.index_of(e);
                if j > 0 {
                    assert(t[j - 1] == e);
                }
            }
        }
        if s[0].value.len() > 0 {
            assert(r.contains(e) <==> s[0] == e || q.contains(e)) by {
                assert(r[0] == s[0]);
                if q.contains(e) {
                    let j = q.index_of(e);
                    assert(r[j + 1] == e);
                }
                if r.contains(e) {
                    let j = r.index_of(e);
                    if j > 0 {
                        assert(q[j - 1] == e);
                    }
                }
            }
        }
    }
}

/// A read or write set after a user key was noted in it. A user key that has no hash is not noted.
pub open spec fn noted(hashes: Set<u32>, uk: Seq<u8>) -> Set<u32> {
    if deps::hashable(uk) {
        hashes.insert(deps::hash32_of(uk))
    } else {
        hashes
    }
}

impl Transaction {
    /// The writes of the transaction.
    pub open spec fn local(&self) -> Versions {
        mem_table::versions_of(deps::skip_entries(self.local_storage))
    }

    /// The writes carry no timestamp.
    pub open spec fn wf(&self) -> bool {
        forall|k: KeyTs| #[trigger] self.local().contains_key(k) ==> k.ts == TS_DEFAULT
    }

    /// What a transaction sees of a user key: its own write or, without one, what was there at its
    /// timestamp.
    pub open spec fn sees(&self, versions: Versions, uk: Seq<u8>) -> Option<Seq<u8>> {
        let k = KeyTs { key: uk, ts: TS_DEFAULT };
        if self.local().contains_key(k) {
            if self.local()[k].len() > 0 {
                Some(self.local()[k])
            } else {
                None
            }
        } else if uk.len() == 0 {
            None
        } else {
            model::lookup(versions, uk, self.read_ts)
        }
    }

    /// The transaction after it noted that it read a user key.
    pub open spec fn noted_read(&self, before: Transaction, uk: Seq<u8>) -> bool {
        &&& self.read_ts == before.read_ts
        &&& self.committed == before.committed
        &&& match (before.key_hashes, self.key_hashes) {
            (None, None) => true,
            (Some(a), Some(b)) => b.0@ == a.0@ && b.1@ == noted(a.1@, uk),
            _ => false,
        }
    }

    /// The transaction after it noted that it wrote a user key.
    pub open spec fn noted_write(&self, before: Transaction, uk: Seq<u8>) -> bool {
        &&& self.read_ts == before.read_ts
        &&& self.committed == before.committed
        &&& match (before.key_hashes, self.key_hashes) {
            (None, None) => true,
            (Some(a), Some(b)) => b.0@ == noted(a.0@, uk) && b.1@ == a.1@,
            _ => false,
        }
    }

    /// A transaction that reads as of some timestamp.
    pub fn new(read_ts: u64, serializable: bool) -> (r: Transaction)
        ensures
            r.wf(),
            r.read_ts == read_ts,
            !r.committed,
            r.local() == Map::<KeyTs, Seq<u8>>::empty(),
            serializable ==> (r.key_hashes matches Some(h) && h.0@ == Set::<u32>::empty() && h.1@
                == Set::<u32>::empty()),
            !serializable ==> r.key_hashes is None,
    {
        broadcast use vstd::std_specs::hash::group_hash_axioms;

        proof {
            mem_table::lemma_no_versions();
        }
        let key_hashes: Option<(HashSet<u32>, HashSet<u32>)> = if serializable {
            Some((HashSet::new(), HashSet::new()))
        } else {
            None
        };
        Transaction { read_ts, local_storage: deps::skip_new(), committed: false, key_hashes }
    }

    /// Notes that a user key is read.
    fn note_read(&mut self, key: &[u8])
        ensures
            final(self).noted_read(*old(self), key@),
            final(self).local_storage == old(self).local_storage,
    {
        broadcast use vstd::std_specs::hash::group_hash_axioms;

        match self.key_hashes.take() {
            None => {},
            Some((writes, reads)) => {
                let mut reads = reads;
                if deps::is_hashable(key) {
                    let key_hash = deps::hash32(key);
                    let _ = reads.insert(key_hash);
                }
                self.key_hashes = Some((writes, reads));
            },
        }
    }

    /// Notes that a user key is written.
    fn note_write(&mut self, key: &[u8])
        ensures
            final(self).noted_write(*old(self), key@),
            final(self).local_storage == old(self).local_storage,
    {
        broadcast use vstd::std_specs::hash::group_hash_axioms;

        match self.key_hashes.take() {
            None => {},
            Some((writes, reads)) => {
                let mut writes = writes;
                if deps::is_hashable(key) {
                    let key_hash = deps::hash32(key);
                    let _ = writes.insert(key_hash);
                }
                self.key_hashes = Some((writes, reads));
            },
        }
    }

    /// Notes that iterators of this transaction have read user keys with some hashes.
    pub fn add_reads(&mut self, hashes: &Vec<u32>)
        ensures
            final(self).local() == old(self).local(),
            final(self).read_ts == old(self).read_ts,
            final(self).committed == old(self).committed,
            match (old(self).key_hashes, final(self).key_hashes) {
                (None, None) => true,
                (Some(a), Some(b)) => b.0@ == a.0@ && b.1@ == a.1@.union(hashes@.to_set()),
                _ => false,
            },
    {
        broadcast use vstd::std_specs::hash::group_hash_axioms;

        match self.key_hashes.take() {
            None => {},
            Some((writes, reads)) => {
                let ghost start = reads@;
                let mut reads = reads;
                let mut i: usize = 0;
                assert(reads@ =~= start.union(hashes@.take(0).to_set()));
                while i < hashes.len()
                    invariant
                        i <= hashes@.len(),
                        reads@ == start.union(hashes@.take(i as int).to_set()),
                    decreases hashes@.len() - i,
                {
                    broadcast use vstd::std_specs::hash::group_hash_axioms;

                    proof {
                        let a = hashes@.take(i as int);
                        let b = hashes@.take(i + 1);
                        assert(b =~= a.push(hashes@[i as int]));
                        assert forall|x: u32| #[trigger] b.contains(x) <==> a.contains(x) || x
                            == hashes@[i as int] by {
                            if a.contains(x) {
                                let j = a.index_of(x);
                                assert(b[j] == x);
                            }
                            if x == hashes@[i as int] {
                                assert(b[i as int] == x);
                            }
                            if b.contains(x) {
                                let j = b.index_of(x);
                                if j < i {
                                    assert(a[j] == x);
                                }
                            }
                        }
                        assert(start.union(b.to_set()) =~= start.union(a.to_set()).insert(
                            hashes@[i as int],
                        ));
                    }
                    let _ = reads.insert(hashes[i]);
                    i = i + 1;
                }
                assert(hashes@.take(i as int) =~= hashes@);
                self.key_hashes = Some((writes, reads));
            },
        }
    }

    /// Get a key: from the transaction's own writes or, without one, as it was at its timestamp.
    pub fn get(&mut self, inner: &LsmStorageInner, key: &[u8]) -> (r: Result<
        Option<Bytes>,
        LsmError,
    >)
        requires
            inner.state.wf(),
            inner.state.countable(),
        ensures
            r is Ok,
            read::value_of(r->Ok_0) == old(self).sees(inner.state.versions(), key@),
            final(self).noted_read(*old(self), key@),
            final(self).local() == old(self).local(),
            final(self).read_ts == old(self).read_ts,
            final(self).key_hashes matches Some(h) ==> {
                &&& deps::hashable(key@) ==> h.1@.contains(deps::hash32_of(key@))
                &&& old(self).key_hashes matches Some(g) && h.0@ == g.0@ && forall|x: u32| #[trigger]
                    h.1@.contains(x) <==> g.1@.contains(x) || (deps::hashable(key@) && x
                        == deps::hash32_of(key@))
            },
    {
        self.note_read(key);
        // Check local (uncommitted) writes first.
        let k = (vstd::slice::slice_to_vec(key), deps::invert(TS_DEFAULT));
        match deps::skip_get(&self.local_storage, &k) {
            Some(value) => {
                if value.len() == 0 {
                    return Ok(None);
                }
                return Ok(Some(deps::bytes_from_vec(value)));
            },
            None => {},
        }
        inner.get_with_ts(key, self.read_ts)
    }

    /// Writes a value, for this transaction alone.
    pub fn put(&mut self, key: &[u8], value: &[u8])
        ensures
            final(self).noted_write(*old(self), key@),
            final(self).local() == old(self).local().insert(
                KeyTs { key: key@, ts: TS_DEFAULT },
                value@,
            ),
            final(self).read_ts == old(self).read_ts,
            final(self).key_hashes matches Some(h) ==> {
                &&& deps::hashable(key@) ==> h.0@.contains(deps::hash32_of(key@))
                &&& old(self).key_hashes matches Some(g) && h.1@ == g.1@ && forall|x: u32| #[trigger]
                    h.0@.contains(x) <==> g.0@.contains(x) || (deps::hashable(key@) && x
                        == deps::hash32_of(key@))
            },
            old(self).wf() ==> final(self).wf(),
    {
        self.note_write(key);
        self.write(key, vstd::slice::slice_to_vec(value));
        proof {
            assert forall|k: KeyTs|
                old(self).wf() && #[trigger] self.local().contains_key(k) implies k.ts
                == TS_DEFAULT by {
                if k != (KeyTs { key: key@, ts: TS_DEFAULT }) {
                    assert(old(self).local().contains_key(k));
                }
            }
        }
    }

    /// Deletes a key, for this transaction alone.
    pub fn delete(&mut self, key: &[u8])
        ensures
            final(self).noted_write(*old(self), key@),
            final(self).local() == old(self).local().insert(
                KeyTs { key: key@, ts: TS_DEFAULT },
                Seq::empty(),
            ),
            final(self).read_ts == old(self).read_ts,
            final(self).key_hashes matches Some(h) ==> {
                &&& deps::hashable(key@) ==> h.0@.contains(deps::hash32_of(key@))
                &&& old(self).key_hashes matches Some(g) && h.1@ == g.1@ && forall|x: u32| #[trigger]
                    h.0@.contains(x) <==> g.0@.contains(x) || (deps::hashable(key@) && x
                        == deps::hash32_of(key@))
            },
            old(self).wf() ==> final(self).wf(),
    {
        self.note_write(key);
        self.write(key, Vec::new());
        proof {
            assert forall|k: KeyTs|
                old(self).wf() && #[trigger] self.local().contains_key(k) implies k.ts
                == TS_DEFAULT by {
                if k != (KeyTs { key: key@, ts: TS_DEFAULT }) {
                    assert(old(self).local().contains_key(k));
                }
            }
        }
    }

    fn write(&mut self, key: &[u8], value: Vec<u8>)
        ensures
            final(self).read_ts == old(self).read_ts,
            final(self).committed == old(self).committed,
            final(self).key_hashes == old(self).key_hashes,
            final(self).local() == old(self).local().insert(
                KeyTs { key: key@, ts: TS_DEFAULT },
                value@,
            ),
    {
        proof {
            mem_table::lemma_versions_insert(
                deps::skip_entries(self.local_storage),
                KeyTs { key: key@, ts: TS_DEFAULT },
                value@,
            );
        }
        deps::skip_insert(
            &mut self.local_storage,
            (vstd::slice::slice_to_vec(key), deps::invert(TS_DEFAULT)),
            value,
        );
    }

    /// What a scan of a range sees: the transaction's own writes, and what was there at its
    /// timestamp, without what is deleted.
    pub open spec fn scan_view(
        &self,
        inner: LsmStorageInner,
        lower: Bound<Seq<u8>>,
        upper: Bound<Seq<u8>>,
    ) -> Versions {
        live_map(
            model::prefer(
                lsm_storage::mem_view(self.local(), lower, upper),
                model::visible(inner.state.view_in(lower, upper), self.read_ts),
            ),
        )
    }

    /// An iterator over what the transaction sees within a range.
    pub fn scan<'a>(&self, inner: &'a LsmStorageInner, lower: Bound<&[u8]>, upper: Bound<&[u8]>) -> (r:
        Result<TxnIterator<'a>, LsmError>)
        requires
            self.wf(),
            inner.state.wf(),
            inner.state.countable(),
        ensures
            r is Ok,
            r->Ok_0.wf(),
            iterators::never_fails(r->Ok_0),
            r->Ok_0.remaining() == model::sorted_entries(
                self.scan_view(*inner, model::bound(lower), model::bound(upper)),
            ),
            forall|i: int|
                0 <= i < r->Ok_0.remaining().len() ==> model::within(
                    (#[trigger] r->Ok_0.remaining()[i]).key.key,
                    model::bound(lower),
                    model::bound(upper),
                ) && r->Ok_0.remaining()[i].value.len() > 0,
            r->Ok_0.notes() == (self.key_hashes is Some),
            r->Ok_0.reads() == first_read(r->Ok_0.notes(), r->Ok_0.remaining()),
    {
        let lsm_iter = match inner.scan_with_ts(lower, upper, self.read_ts) {
            Err(e) => {
                return Err(e);
            },
            Ok(it) => it,
        };
        let local_iter = TxnLocalIterator::create(&self.local_storage, lower, upper);
        let ghost a = local_iter.remaining();
        let ghost b = lsm_iter.remaining();
        let ghost lo = model::bound(lower);
        let ghost up = model::bound(upper);
        let ghost v = model::visible(inner.state.view_in(lo, up), self.read_ts);
        proof {
            lsm_iter.lemma_remaining_sorted();
            two_merge_iterator::lemma_two_merged_finite(a, b);
            model::lemma_sorted_entries(two_merge_iterator::two_merged(a, b));
        }
        let iter = match TwoMergeIterator::create(local_iter, lsm_iter) {
            Err(e) => {
                return Err(e);
            },
            Ok(it) => it,
        };
        let ghost s = iter.remaining();
        proof {
            model::lemma_sorted_entries(v);
            assert forall|i: int| 0 <= i < s.len() implies (#[trigger] s[i]).key.ts == TS_DEFAULT by {
                model::lemma_entry_map_index(s, i);
                let k = s[i].key;
                if model::entry_map(a).contains_key(k) {
                    assert(self.local().contains_key(k));
                } else {
                    assert(v.contains_key(k));
                }
            }
            lemma_live(s);
            model::lemma_sorted_entries_of(live_entries(s));
            let shown = live_entries(s);
            let view = self.scan_view(*inner, lo, up);
            assert(model::entry_map(shown) == view);
            assert forall|i: int| 0 <= i < shown.len() implies model::within(
                (#[trigger] shown[i]).key.key,
                lo,
                up,
            ) && shown[i].value.len() > 0 by {
                model::lemma_entry_map_index(shown, i);
                lemma_scan_within(*self, *inner, lo, up, shown[i].key);
            }
        }
        TxnIterator::create(self.key_hashes.is_some(), iter)
    }
}

/// A scan of a transaction shows user keys in its range alone.
pub proof fn lemma_scan_within(
    t: Transaction,
    inner: LsmStorageInner,
    lower: Bound<Seq<u8>>,
    upper: Bound<Seq<u8>>,
    k: KeyTs,
)
    requires
        t.scan_view(inner, lower, upper).contains_key(k),
    ensures
        model::within(k.key, lower, upper),
        t.scan_view(inner, lower, upper)[k].len() > 0,
{
    if lsm_storage::mem_view(t.local(), lower, upper).contains_key(k) {
        model::lemma_within(t.local(), lower, upper, k);
    } else {
        read::lemma_scan_within(inner.state, lower, upper, t.read_ts, k);
    }
}

/// What a transaction sees of a user key: the value that it wrote itself, if it wrote one, and
/// otherwise what a reader gets at the timestamp at which it began.
pub proof fn lemma_sees(t: Transaction, versions: Versions, uk: Seq<u8>)
    ensures
        t.local().contains_key(KeyTs { key: uk, ts: TS_DEFAULT }) && t.local()[KeyTs {
            key: uk,
            ts: TS_DEFAULT,
        }].len() > 0 ==> t.sees(versions, uk) == Some(
            t.local()[KeyTs { key: uk, ts: TS_DEFAULT }],
        ),
        t.local().contains_key(KeyTs { key: uk, ts: TS_DEFAULT }) && t.local()[KeyTs {
            key: uk,
            ts: TS_DEFAULT,
        }].len() == 0 ==> t.sees(versions, uk) is None,
        !t.local().contains_key(KeyTs { key: uk, ts: TS_DEFAULT }) && uk.len() > 0 ==> t.sees(
            versions,
            uk,
        ) == model::lookup(versions, uk, t.read_ts),
{
}

/// A write of a transaction does not change what it sees of other user keys.
pub proof fn lemma_sees_others(
    before: Transaction,
    after: Transaction,
    versions: Versions,
    uk: Seq<u8>,
    value: Seq<u8>,
    other: Seq<u8>,
)
    requires
        after.local() == before.local().insert(KeyTs { key: uk, ts: TS_DEFAULT }, value),
        after.read_ts == before.read_ts,
        other != uk,
    ensures
        after.sees(versions, other) == before.sees(versions, other),
{
}

/// A transaction sees its own writes.
pub proof fn lemma_sees_own_write(
    before: Transaction,
    after: Transaction,
    versions: Versions,
    uk: Seq<u8>,
    value: Seq<u8>,
)
    requires
        after.local() == before.local().insert(KeyTs { key: uk, ts: TS_DEFAULT }, value),
    ensures
        after.sees(versions, uk) == if value.len() > 0 {
            Some(value)
        } else {
            None
        },
{
}

/// A transaction does not see what is committed after its timestamp.
pub proof fn lemma_sees_snapshot(t: Transaction, versions: Versions, rs: Seq<Record>, uk: Seq<u8>)
    requires
        forall|i: int| 0 <= i < rs.len() ==> (#[trigger] rs[i]).key.ts > t.read_ts,
    ensures
        t.sees(mem_table::replay(versions, rs), uk) == t.sees(versions, uk),
{
    lsm_storage::write::lemma_batch_snapshot(versions, rs, uk, t.read_ts);
}

/// A scan of a transaction shows what it sees of each user key in the range, if no user key is
/// empty.
pub proof fn lemma_scan_sees(
    t: Transaction,
    inner: LsmStorageInner,
    lower: Bound<Seq<u8>>,
    upper: Bound<Seq<u8>>,
    uk: Seq<u8>,
)
    requires
        inner.state.keys_nonempty(),
        forall|k: KeyTs| #[trigger] t.local().contains_key(k) ==> k.key.len() > 0,
        uk.len() > 0,
        model::after_lower(uk, lower),
        model::before_upper(uk, upper),
    ensures
        ({
            let k = KeyTs { key: uk, ts: TS_DEFAULT };
            let view = t.scan_view(inner, lower, upper);
            &&& view.contains_key(k) <==> t.sees(inner.state.versions(), uk) is Some
            &&& view.contains_key(k) ==> t.sees(inner.state.versions(), uk) == Some(view[k])
        }),
{
    let versions = inner.state.versions();
    inner.state.lemma_view(lower, upper);
    model::lemma_visible_in_range(versions, t.read_ts, lower, upper);
    let r = model::in_range(t.local(), lower, upper);
    assert(!(exists|k: KeyTs| #[trigger] r.contains_key(k) && k.key.len() == 0));
    if model::lookup(versions, uk, t.read_ts) is Some {
        let n = choose|n: u64| model::is_newest(versions, uk, t.read_ts, n);
        model::lemma_lookup(versions, uk, t.read_ts, n);
    }
}

/// The hash of the first user key of a run, if hashes are noted and it has one.
pub open spec fn first_read(notes: bool, s: Seq<Entry>) -> Seq<u32> {
    if notes && s.len() > 0 && deps::hashable(s[0].key.key) {
        seq![deps::hash32_of(s[0].key.key)]
    } else {
        Seq::empty()
    }
}

/// What is noted where an iterator stands: the hash of the user key, if hashes are noted and the user
/// key has one.
pub proof fn lemma_first_read(notes: bool, s: Seq<Entry>)
    ensures
        !notes || s.len() == 0 ==> first_read(notes, s).len() == 0,
        notes && s.len() > 0 && deps::hashable(s[0].key.key) ==> first_read(notes, s).len() == 1
            && first_read(notes, s)[0] == deps::hash32_of(s[0].key.key),
{
}

/// An iterator over a range of a transaction's own writes.
pub struct TxnLocalIterator {
    inner: MemTableIterator,
}

impl TxnLocalIterator {
    pub fn create(map: &SkipList, lower: Bound<&[u8]>, upper: Bound<&[u8]>) -> (r: TxnLocalIterator)
        ensures
            r.wf(),
            model::entry_map(r.remaining()) == lsm_storage::mem_view(
                mem_table::versions_of(deps::skip_entries(*map)),
                model::bound(lower),
                model::bound(upper),
            ),
    {
        let inner = MemTableIterator::over(map, lower, upper);
        proof {
            let m = mem_table::versions_of(deps::skip_entries(*map));
            let n = model::in_range(m, model::bound(lower), model::bound(upper));
            model::lemma_sorted_entries(n);
            read::lemma_shown_map(
                m,
                model::bound(lower),
                model::bound(upper),
                model::sorted_entries(n),
            );
        }
        TxnLocalIterator { inner }
    }
}

impl StorageIterator for TxnLocalIterator {
    closed spec fn wf(&self) -> bool {
        self.inner.wf()
    }

    closed spec fn remaining(&self) -> Seq<Entry> {
        self.inner.remaining()
    }

    open spec fn can_fail(&self, e: LsmError) -> bool {
        false
    }

    closed spec fn may_resume(&self) -> bool {
        self.inner.may_resume()
    }

    open spec fn active(&self) -> usize {
        1
    }

    proof fn lemma_remaining_sorted(&self) {
        self.inner.lemma_remaining_sorted();
    }

    fn is_valid(&self) -> (r: bool) {
        self.inner.is_valid()
    }

    fn key(&self) -> (r: KeySlice<'_>) {
        self.inner.key()
    }

    fn value(&self) -> (r: &[u8]) {
        self.inner.value()
    }

    fn next(&mut self) -> (r: Result<(), LsmError>) {
        self.inner.next()
    }

    fn num_active_iterators(&self) -> (r: usize) {
        1
    }
}

/// An iterator over what a transaction sees. It notes the hashes of the user keys that it stands
/// at, where the transaction asks for it.
pub struct TxnIterator<'a> {
    notes: bool,
    reads: Vec<u32>,
    iter: TwoMergeIterator<TxnLocalIterator, FusedIterator<LsmIterator<'a>>>,
}

impl<'a> TxnIterator<'a> {
    pub closed spec fn notes(&self) -> bool {
        self.notes
    }

    /// The hashes that were noted.
    pub closed spec fn reads(&self) -> Seq<u32> {
        self.reads@
    }

    spec fn rest(&self) -> Seq<Entry> {
        self.iter.remaining()
    }

    /// The inner iterator is in order, and its keys carry no timestamp.
    spec fn placed(&self) -> bool {
        &&& self.iter.wf()
        &&& forall|i: int|
            0 <= i < self.rest().len() ==> (#[trigger] self.rest()[i]).key.ts == TS_DEFAULT
    }

    pub fn create(
        notes: bool,
        iter: TwoMergeIterator<TxnLocalIterator, FusedIterator<LsmIterator<'a>>>,
    ) -> (r: Result<TxnIterator<'a>, LsmError>)
        requires
            iter.wf(),
            forall|i: int|
                0 <= i < iter.remaining().len() ==> (#[trigger] iter.remaining()[i]).key.ts
                    == TS_DEFAULT,
        ensures
            r is Ok,
            r matches Ok(it) ==> {
                &&& it.wf()
                &&& it.remaining() == live_entries(iter.remaining())
                &&& it.notes() == notes
                &&& it.reads() == first_read(notes, it.remaining())
            },
    {
        let mut txn_iter = TxnIterator { notes, reads: Vec::new(), iter };
        match txn_iter.move_to_non_delete() {
            Err(e) => {
                return Err(e);
            },
            Ok(()) => {},
        }
        txn_iter.record_read_key();
        assert(txn_iter.reads@ =~= first_read(notes, txn_iter.remaining()));
        Ok(txn_iter)
    }

    /// Hands over the hashes that were noted.
    pub fn into_reads(self) -> (r: Vec<u32>)
        ensures
            r@ == self.reads(),
    {
        self.reads
    }

    /// Notes the user key at the cursor.
    fn record_read_key(&mut self)
        requires
            old(self).iter.wf(),
        ensures
            final(self).iter == old(self).iter,
            final(self).notes == old(self).notes,
            final(self).reads@ == old(self).reads@ + first_read(old(self).notes, old(self).rest()),
    {
        if !self.iter.is_valid() {
            assert(self.reads@ =~= old(self).reads@ + first_read(self.notes, self.rest()));
            return;
        }
        if self.notes && deps::is_hashable(self.iter.key().key_ref()) {
            let key_hash = deps::hash32(self.iter.key().key_ref());
            self.reads.push(key_hash);
        }
        assert(self.reads@ =~= old(self).reads@ + first_read(self.notes, self.rest()));
    }

    /// Only the inner iterator may have changed, and it is in order.
    spec fn kept_but_inner(&self, before: &TxnIterator<'a>) -> bool {
        &&& self.placed()
        &&& iterators::fails_within(self.iter, before.iter)
        &&& self.iter.active() == before.iter.active()
        &&& self.notes == before.notes
        &&& self.reads == before.reads
    }

    /// Moves past the user key at the cursor.
    fn skip_key(&mut self) -> (r: Result<(), LsmError>)
        requires
            old(self).placed(),
        ensures
            r is Ok ==> final(self).kept_but_inner(old(self)),
            r is Ok && old(self).rest().len() > 0 ==> final(self).rest() == old(self).rest().skip(1),
            r is Ok && old(self).rest().len() == 0 ==> final(self).rest().len() == 0,
            r matches Err(e) ==> old(self).iter.can_fail(e),
    {
        let key = vstd::slice::slice_to_vec(self.iter.key().key_ref());
        let ghost s = self.rest();
        let ghost mut n: int = 0;
        proof {
            self.iter.lemma_remaining_sorted();
            assert(s.skip(0) =~= s);
        }
        while self.iter.is_valid() && key::bytes_equal(self.iter.key().key_ref(), key.as_slice())
            invariant
                self.kept_but_inner(old(self)),
                s == old(self).rest(),
                model::sorted(s),
                forall|i: int| 0 <= i < s.len() ==> (#[trigger] s[i]).key.ts == TS_DEFAULT,
                s.len() > 0 ==> key@ == s[0].key.key,
                0 <= n <= 1,
                n <= s.len(),
                self.rest() == s.skip(n),
            ensures
                s.len() > 0 ==> n == 1,
            decreases 1 - n,
        {
            proof {
                if n == 1 {
                    // Two entries with the same user key would have the same key.
                    assert(s.skip(1)[0] == s[1]);
                    assert(s[0].key.ts == TS_DEFAULT && s[1].key.ts == TS_DEFAULT);
                    assert(s[0].key =~= s[1].key);
                    assert(key::key_lt(s[0].key, s[1].key));
                    key::lemma_key_order(s[0].key, s[1].key);
                }
                assert(s.skip(0).skip(1) =~= s.skip(1));
                assert forall|i: int| 0 <= i < s.skip(1).len() implies (
                #[trigger] s.skip(1)[i]).key.ts == TS_DEFAULT by {
                    assert(s.skip(1)[i] == s[i + 1]);
                }
            }
            match self.iter.next() {
                Err(e) => {
                    return Err(e);
                },
                Ok(()) => {},
            }
            proof {
                n = n + 1;
            }
        }
        Ok(())
    }

    /// Moves past deleted user keys.
    fn move_to_non_delete(&mut self) -> (r: Result<(), LsmError>)
        requires
            old(self).placed(),
        ensures
            r is Ok ==> final(self).kept_but_inner(old(self)),
            r is Ok ==> live_entries(final(self).rest()) == live_entries(old(self).rest()),
            r is Ok && final(self).rest().len() > 0 ==> final(self).rest()[0].value.len() > 0,
            r matches Err(e) ==> old(self).iter.can_fail(e),
    {
        while self.iter.is_valid() && self.iter.value().len() == 0
            invariant
                self.kept_but_inner(old(self)),
                live_entries(self.rest()) == live_entries(old(self).rest()),
            ensures
                self.rest().len() > 0 ==> self.rest()[0].value.len() > 0,
            decreases self.rest().len(),
        {
            match self.skip_key() {
                Err(e) => {
                    return Err(e);
                },
                Ok(()) => {},
            }
        }
        Ok(())
    }
}

impl<'a> StorageIterator for TxnIterator<'a> {
    closed spec fn wf(&self) -> bool {
        self.placed() && (self.rest().len() > 0 ==> self.rest()[0].value.len() > 0)
    }

    closed spec fn remaining(&self) -> Seq<Entry> {
        live_entries(self.rest())
    }

    open spec fn can_fail(&self, e: LsmError) -> bool {
        false
    }

    open spec fn may_resume(&self) -> bool {
        false
    }

    closed spec fn active(&self) -> usize {
        self.iter.active()
    }

    proof fn lemma_remaining_sorted(&self) {
        self.iter.lemma_remaining_sorted();
        lemma_live(self.rest());
    }

    fn is_valid(&self) -> (r: bool) {
        self.iter.is_valid()
    }

    fn key(&self) -> (r: KeySlice<'_>) {
        self.iter.key()
    }

    fn value(&self) -> (r: &[u8]) {
        self.iter.value()
    }

    fn next(&mut self) -> (r: Result<(), LsmError>)
        ensures
            r is Ok,
            final(self).notes() == old(self).notes(),
            final(self).reads() == old(self).reads() + first_read(
                old(self).notes(),
                final(self).remaining(),
            ),
    {
        match self.skip_key() {
            Err(e) => {
                return Err(e);
            },
            Ok(()) => {},
        }
        match self.move_to_non_delete() {
            Err(e) => {
                return Err(e);
            },
            Ok(()) => {},
        }
        self.record_read_key();
        proof {
            let s = old(self).rest();
            if s.len() > 0 {
                assert(live_entries(s).skip(1) =~= live_entries(s.skip(1)));
            }
        }
        Ok(())
    }

    fn num_active_iterators(&self) -> (r: usize) {
        self.iter.num_active_iterators()
    }
}

} // verus!
