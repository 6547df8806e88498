//! Iterators over what a reader at some timestamp sees.
use vstd::prelude::*;
use bytes::Bytes;
use crate::deps;
use crate::deps::Bound;
use crate::error::LsmError;
use crate::iterators;
use crate::iterators::StorageIterator;
use crate::iterators::concat_iterator::SstConcatIterator;
use crate::iterators::merge_iterator;
use crate::iterators::merge_iterator::MergeIterator;
use crate::iterators::two_merge_iterator::TwoMergeIterator;
use crate::key;
use crate::key::{KeySlice, KeyTs, TS_DEFAULT};
use crate::mem_table;
use crate::mem_table::MemTableIterator;
use crate::model;
use crate::model::{Entry, Versions};
use crate::table::SsTableIterator;

verus! {

/// Represents the internal type for an LSM iterator: the memtables and L0 first, then the levels.
pub type LsmIteratorInner<'a> = TwoMergeIterator<
    TwoMergeIterator<MergeIterator<MemTableIterator>, MergeIterator<SsTableIterator<'a>>>,
    MergeIterator<SstConcatIterator<'a>>,
>;

/// The entry at `j` of a run is what a reader at `ts` gets for its user key: it is not too new, no
/// entry before it is the reader's version of that user key, and it is no mark of deletion.
pub open spec fn shows_at(s: Seq<Entry>, j: int, ts: u64) -> bool {
    &&& s[j].key.ts <= ts
    &&& s[j].value.len() > 0
    &&& forall|i: int| 0 <= i < j && (#[trigger] s[i]).key.ts <= ts ==> s[i].key.key != s[j].key.key
}

/// One run is the end of another.
pub open spec fn is_tail(t: Seq<Entry>, s: Seq<Entry>) -> bool {
    t.len() <= s.len() && t == s.skip(s.len() - t.len())
}

/// A run begins at the first entry of another one that a reader gets; it is empty if there is none.
pub open spec fn first_shown(t: Seq<Entry>, s: Seq<Entry>, ts: u64) -> bool {
    let n = s.len() - t.len();
    &&& is_tail(t, s)
    &&& n < s.len() ==> shows_at(s, n, ts)
    &&& forall|j: int| 0 <= j < n ==> !#[trigger] shows_at(s, j, ts)
}

/// A run is another one without the entries of a user key, with which that one begins.
pub open spec fn past_key(t: Seq<Entry>, s: Seq<Entry>, uk: Seq<u8>) -> bool {
    let n = s.len() - t.len();
    &&& is_tail(t, s)
    &&& forall|j: int| 0 <= j < n ==> (#[trigger] s[j]).key.key == uk
    &&& forall|j: int| n <= j < s.len() ==> (#[trigger] s[j]).key.key != uk
}

/// Iterates on the user keys that a reader at some timestamp sees, up to an upper end.
pub struct LsmIterator<'a> {
    inner: LsmIteratorInner<'a>,
    end_bound: Bound<Bytes>,
    read_timestamp: u64,
    prev_key: Option<Vec<u8>>,
}

/// A collection without the versions of one user key.
pub open spec fn without(m: Versions, uk: Seq<u8>) -> Versions {
    Map::new(|k: KeyTs| m.contains_key(k) && k.key != uk, |k: KeyTs| m[k])
}

/// What a reader at `ts` sees of a run, up to the upper end of a range.
pub open spec fn visible_run(s: Seq<Entry>, ts: u64, upper: Bound<Seq<u8>>) -> Seq<Entry> {
    model::sorted_entries(
        model::in_range(model::visible(model::entry_map(s), ts), Bound::Unbounded, upper),
    )
}

/// What a reader sees of a run: for each user key up to the upper end the value of its newest version
/// that is not newer than the reader, if that is no mark of deletion.
pub proof fn lemma_visible_run(
    s: Seq<Entry>,
    ts: u64,
    upper: Bound<Seq<u8>>,
    uk: Seq<u8>,
    v: Seq<u8>,
)
    requires
        model::sorted(s),
    ensures
        model::sorted(visible_run(s, ts, upper)),
        visible_run(s, ts, upper).contains(
            Entry { key: KeyTs { key: uk, ts: TS_DEFAULT }, value: v },
        ) <==> {
            &&& v.len() > 0
            &&& model::within(uk, Bound::Unbounded, upper)
            &&& exists|t: u64|
                {
                    &&& t <= ts
                    &&& #[trigger] s.contains(Entry { key: KeyTs { key: uk, ts: t }, value: v })
                    &&& forall|u: u64, w: Seq<u8>|
                        t < u <= ts ==> !#[trigger] s.contains(
                            Entry { key: KeyTs { key: uk, ts: u }, value: w },
                        )
                }
        },
{
    let m = model::entry_map(s);
    let seen = model::visible(m, ts);
    let r = model::in_range(seen, Bound::Unbounded, upper);
    let k = KeyTs { key: uk, ts: TS_DEFAULT };
    lemma_visible_finite(s, ts, upper);
    model::lemma_sorted_entries(r);
    model::lemma_entry_map_contains(visible_run(s, ts, upper), k, v);
    model::lemma_within(seen, Bound::Unbounded, upper, k);
    model::lemma_lookup_newest(m, uk, ts, v);
    assert forall|u: u64, w: Seq<u8>| #[trigger] s.contains(
        Entry { key: KeyTs { key: uk, ts: u }, value: w },
    ) <==> m.contains_key(KeyTs { key: uk, ts: u }) && m[KeyTs { key: uk, ts: u }] == w by {
        model::lemma_entry_map_contains(s, KeyTs { key: uk, ts: u }, w);
    }
    if model::lookup(m, uk, ts) == Some(v) {
        let t = choose|t: u64|
            {
                &&& t <= ts
                &&& #[trigger] m.contains_key(KeyTs { key: uk, ts: t })
                &&& m[KeyTs { key: uk, ts: t }] == v
                &&& forall|u: u64|
                    t < u <= ts ==> !#[trigger] m.contains_key(KeyTs { key: uk, ts: u })
            };
        assert(s.contains(Entry { key: KeyTs { key: uk, ts: t }, value: v }));
        assert forall|u: u64, w: Seq<u8>| t < u <= ts implies !#[trigger] s.contains(
            Entry { key: KeyTs { key: uk, ts: u }, value: w },
        ) by {
            assert(!m.contains_key(KeyTs { key: uk, ts: u }));
        }
    }
    if v.len() > 0 && exists|t: u64|
        {
            &&& t <= ts
            &&& #[trigger] s.contains(Entry { key: KeyTs { key: uk, ts: t }, value: v })
            &&& forall|u: u64, w: Seq<u8>|
                t < u <= ts ==> !#[trigger] s.contains(
                    Entry { key: KeyTs { key: uk, ts: u }, value: w },
                )
        } {
        let t = choose|t: u64|
            {
                &&& t <= ts
                &&& #[trigger] s.contains(Entry { key: KeyTs { key: uk, ts: t }, value: v })
                &&& forall|u: u64, w: Seq<u8>|
                    t < u <= ts ==> !#[trigger] s.contains(
                        Entry { key: KeyTs { key: uk, ts: u }, value: w },
                    )
            };
        assert(m.contains_key(KeyTs { key: uk, ts: t }));
        assert forall|u: u64| t < u <= ts implies !#[trigger] m.contains_key(
            KeyTs { key: uk, ts: u },
        ) by {
            let q = KeyTs { key: uk, ts: u };
            if m.contains_key(q) {
                assert(s.contains(Entry { key: KeyTs { key: uk, ts: u }, value: m[q] }));
            }
        }
    }
}

/// A version that is too new for the reader does not matter.
proof fn lemma_too_new(s: Seq<Entry>, ts: u64)
    requires
        model::sorted(s),
        s.len() > 0,
        s[0].key.ts > ts,
    ensures
        model::visible(model::entry_map(s.skip(1)), ts) == model::visible(model::entry_map(s), ts),
{
    let m = model::entry_map(s);
    let n = model::entry_map(s.skip(1));
    model::lemma_entry_map_skip(s);
    assert forall|uk: Seq<u8>| #[trigger] model::lookup(m, uk, ts) == model::lookup(n, uk, ts) by {
        model::lemma_lookup_same(m, n, uk, ts);
    }
    assert(model::visible(n, ts) =~= model::visible(m, ts));
}

/// Without the versions of a user key the reader sees all but that user key.
proof fn lemma_visible_without(m: Versions, uk: Seq<u8>, ts: u64)
    ensures
        model::visible(without(m, uk), ts) == model::visible(m, ts).remove(
            KeyTs { key: uk, ts: TS_DEFAULT },
        ),
{
    let n = without(m, uk);
    assert forall|q: Seq<u8>| q != uk implies #[trigger] model::lookup(m, q, ts) == model::lookup(
        n,
        q,
        ts,
    ) by {
        model::lemma_lookup_same(m, n, q, ts);
    }
    model::lemma_lookup_none(n, uk, ts);
    assert(model::visible(n, ts) =~= model::visible(m, ts).remove(
        KeyTs { key: uk, ts: TS_DEFAULT },
    ));
}

/// The first entry of a run, if the reader may see it, is what the reader gets for its user key.
pub(crate) proof fn lemma_first_seen(s: Seq<Entry>, ts: u64)
    requires
        model::sorted(s),
        s.len() > 0,
        s[0].key.ts <= ts,
    ensures
        s[0].value.len() > 0 ==> model::lookup(model::entry_map(s), s[0].key.key, ts) == Some(
            s[0].value,
        ),
        s[0].value.len() == 0 ==> model::lookup(model::entry_map(s), s[0].key.key, ts) is None,
{
    let m = model::entry_map(s);
    let k = s[0].key;
    model::lemma_entry_map_index(s, 0);
    assert(k == KeyTs { key: k.key, ts: k.ts });
    assert forall|u: u64|
        u <= ts && #[trigger] m.contains_key(KeyTs { key: k.key, ts: u }) implies u <= k.ts by {
        let i = model::lemma_entry_map_key(s, KeyTs { key: k.key, ts: u });
        if i > 0 {
            reveal(key::key_lt);
            key::lemma_bytes_lt_irreflexive(k.key);
            assert(key::key_lt(s[0].key, s[i].key));
        }
    }
    model::lemma_lookup(m, k.key, ts, k.ts);
}

/// The user keys of a sorted run do not descend.
pub proof fn lemma_user_keys(s: Seq<Entry>, i: int, j: int)
    requires
        model::sorted(s),
        0 <= i <= j < s.len(),
    ensures
        key::bytes_le(s[i].key.key, s[j].key.key),
{
    if i < j {
        reveal(key::key_lt);
        assert(key::key_lt(s[i].key, s[j].key));
    }
}

/// A run whose user keys are all above `uk` has no version of it.
proof fn lemma_left_behind(s: Seq<Entry>, uk: Seq<u8>)
    requires
        model::sorted(s),
        s.len() > 0 ==> key::bytes_lt(uk, s[0].key.key),
    ensures
        without(model::entry_map(s), uk) == model::entry_map(s),
{
    broadcast use crate::key::lemma_bytes_order;

    let m = model::entry_map(s);
    assert forall|k: KeyTs| #[trigger] m.contains_key(k) implies k.key != uk by {
        let i = model::lemma_entry_map_key(s, k);
        lemma_user_keys(s, 0, i);
        if s[0].key.key != s[i].key.key {
            key::lemma_bytes_lt_transitive(uk, s[0].key.key, s[i].key.key);
        }
        key::lemma_bytes_lt_irreflexive(uk);
    }
    assert(without(m, uk) =~= m);
}

/// Passing over a version of `uk` leaves the other user keys.
proof fn lemma_pass_over(s: Seq<Entry>, uk: Seq<u8>)
    requires
        model::sorted(s),
        s.len() > 0,
        s[0].key.key == uk,
    ensures
        without(model::entry_map(s.skip(1)), uk) == without(model::entry_map(s), uk),
{
    model::lemma_entry_map_skip(s);
    assert(without(model::entry_map(s.skip(1)), uk) =~= without(model::entry_map(s), uk));
}

/// The reader has passed no entry that shows, nor one that decides for an entry that is left.
spec fn all_passed(t: Seq<Entry>, s: Seq<Entry>, ts: u64) -> bool {
    let n = s.len() - t.len();
    &&& is_tail(t, s)
    &&& forall|j: int| 0 <= j < n ==> !#[trigger] shows_at(s, j, ts)
    &&& forall|i: int, j: int|
        0 <= i < n <= j < s.len() && (#[trigger] s[i]).key.ts <= ts ==> s[i].key.key != (
        #[trigger] s[j]).key.key
}

/// A user key whose version for the reader is a mark of deletion is passed as a whole.
proof fn lemma_passed_key(t: Seq<Entry>, mid: Seq<Entry>, s: Seq<Entry>, ts: u64)
    requires
        all_passed(mid, s, ts),
        mid.len() > 0,
        mid[0].key.ts <= ts,
        mid[0].value.len() == 0,
        past_key(t, mid, mid[0].key.key),
    ensures
        all_passed(t, s, ts),
        t.len() < mid.len(),
{
    let a = s.len() - mid.len();
    let b = mid.len() - t.len();
    assert(mid[0].key.key == mid[0].key.key);
    assert(s[a] == mid[0]);
    assert(t =~= s.skip(a + b));
    assert forall|j: int| 0 <= j < a + b implies !#[trigger] shows_at(s, j, ts) by {
        if j > a {
            assert(mid[j - a] == s[j]);
        }
    }
    assert forall|i: int, j: int|
        0 <= i < a + b <= j < s.len() && (#[trigger] s[i]).key.ts <= ts implies s[i].key.key != (
    #[trigger] s[j]).key.key by {
        assert(mid[j - a] == s[j]);
        if i >= a {
            assert(mid[i - a] == s[i]);
        }
    }
}

/// What the reader sees is finite.
pub(crate) proof fn lemma_visible_finite(s: Seq<Entry>, ts: u64, upper: Bound<Seq<u8>>)
    ensures
        model::visible(model::entry_map(s), ts).dom().finite(),
        model::in_range(
            model::visible(model::entry_map(s), ts),
            Bound::Unbounded,
            upper,
        ).dom().finite(),
{
    let m = model::entry_map(s);
    let keys = s.map_values(|e: Entry| KeyTs { key: e.key.key, ts: TS_DEFAULT });
    let v = model::visible(m, ts);
    assert forall|k: KeyTs| #[trigger] v.dom().contains(k) implies keys.to_set().contains(k) by {
        let t = choose|t: u64| model::is_newest(m, k.key, ts, t);
        let i = model::lemma_entry_map_key(s, KeyTs { key: k.key, ts: t });
        assert(keys[i] == k);
    }
    assert(v.dom().subset_of(keys.to_set()));
    vstd::set_lib::lemma_set_subset_finite(keys.to_set(), v.dom());
    let r = model::in_range(v, Bound::Unbounded, upper);
    assert(r.dom().subset_of(v.dom()));
    vstd::set_lib::lemma_set_subset_finite(v.dom(), r.dom());
}

/// The cursor is at what the reader gets for a user key, or at the end.
pub open spec fn at_visible(s: Seq<Entry>, ts: u64) -> bool {
    s.len() > 0 ==> s[0].key.ts <= ts && s[0].value.len() > 0
}

/// At a visible entry within the range, the reader sees that entry first, and then what the other
/// user keys give. Past the end of the range, the reader sees nothing more.
proof fn lemma_visible_head(s: Seq<Entry>, ts: u64, upper: Bound<Seq<u8>>)
    requires
        model::sorted(s),
        at_visible(s, ts),
    ensures
        visible_run(s, ts, upper).len() > 0 <==> s.len() > 0 && model::before_upper(
            s[0].key.key,
            upper,
        ),
        s.len() > 0 && model::before_upper(s[0].key.key, upper) ==> {
            let uk = s[0].key.key;
            let rest = model::visible(without(model::entry_map(s), uk), ts);
            &&& visible_run(s, ts, upper)[0] == (Entry {
                key: KeyTs { key: uk, ts: TS_DEFAULT },
                value: s[0].value,
            })
            &&& visible_run(s, ts, upper).skip(1) == model::sorted_entries(
                model::in_range(rest, Bound::Unbounded, upper),
            )
        },
{
    let m = model::entry_map(s);
    let v = model::visible(m, ts);
    let r = model::in_range(v, Bound::Unbounded, upper);
    lemma_visible_finite(s, ts, upper);
    assert forall|k: KeyTs| #[trigger] v.contains_key(k) implies s.len() > 0 && key::bytes_le(
        s[0].key.key,
        k.key,
    ) by {
        let t = choose|t: u64| model::is_newest(m, k.key, ts, t);
        let i = model::lemma_entry_map_key(s, KeyTs { key: k.key, ts: t });
        lemma_user_keys(s, 0, i);
    }
    if s.len() > 0 && model::before_upper(s[0].key.key, upper) {
        let k = KeyTs { key: s[0].key.key, ts: TS_DEFAULT };
        lemma_first_seen(s, ts);
        assert(v.contains_key(k));
        assert(r.contains_key(k));
        assert forall|q: KeyTs| #[trigger] r.contains_key(q) implies key::key_le(k, q) by {
            assert(v.contains_key(q));
            reveal(key::key_lt);
            if k.key == q.key {
                assert(k =~= q);
            }
        }
        model::lemma_sorted_entries_head(r, k);
        lemma_visible_without(m, k.key, ts);
        assert(r.remove(k) =~= model::in_range(
            model::visible(without(m, k.key), ts),
            Bound::Unbounded,
            upper,
        ));
    } else {
        assert forall|k: KeyTs| !#[trigger] r.contains_key(k) by {
            if r.contains_key(k) {
                assert(v.contains_key(k));
                lemma_beyond(s[0].key.key, k.key, upper);
            }
        }
        assert(r =~= Map::empty());
        model::lemma_sorted_entries_empty(r);
    }
}

/// What is behind something past the end of a range is past it, too.
pub(crate) proof fn lemma_beyond(a: Seq<u8>, b: Seq<u8>, upper: Bound<Seq<u8>>)
    requires
        key::bytes_le(a, b),
        model::before_upper(b, upper),
    ensures
        model::before_upper(a, upper),
{
    match upper {
        Bound::Included(x) => {
            if a != b && b != x {
                key::lemma_bytes_lt_transitive(a, b, x);
            }
        },
        Bound::Excluded(x) => {
            if a != b {
                key::lemma_bytes_lt_transitive(a, b, x);
            }
        },
        Bound::Unbounded => {},
    }
}

/// No step of the iterators over memtables and tables fails.
pub proof fn lemma_inner_never_fails(i: LsmIteratorInner<'_>)
    ensures
        iterators::never_fails(i),
{
    let upper = i.first();
    merge_iterator::lemma_never_fails(upper.first());
    merge_iterator::lemma_never_fails(upper.second());
    merge_iterator::lemma_never_fails(i.second());
}

impl<'a> LsmIterator<'a> {
    /// What remains of the versions.
    closed spec fn rest(&self) -> Seq<Entry> {
        self.inner.remaining()
    }

    spec fn seen(&self) -> Versions {
        model::visible(model::entry_map(self.rest()), self.read_timestamp)
    }

    spec fn upper(&self) -> Bound<Seq<u8>> {
        mem_table::bytes_bound(self.end_bound)
    }

    pub fn new(iter: LsmIteratorInner<'a>, end_bound: Bound<Bytes>, read_timestamp: u64) -> (r:
        Result<LsmIterator<'a>, LsmError>)
        requires
            iter.wf(),
        ensures
            r is Ok,
            r matches Ok(i) ==> {
                &&& i.wf()
                &&& i.remaining() == visible_run(
                    iter.remaining(),
                    read_timestamp,
                    mem_table::bytes_bound(end_bound),
                )
                &&& i.active() == iter.active()
            },
    {
        proof {
            lemma_inner_never_fails(iter);
        }
        let mut lsm_iter = LsmIterator { inner: iter, end_bound, read_timestamp, prev_key: None };
        match lsm_iter.skip_tompstone() {
            Err(e) => {
                return Err(e);
            },
            Ok(()) => {},
        }
        lsm_iter.note_key();
        Ok(lsm_iter)
    }

    /// Notes the user key at the cursor.
    fn note_key(&mut self)
        requires
            old(self).inner.wf(),
        ensures
            final(self).inner == old(self).inner,
            final(self).end_bound == old(self).end_bound,
            final(self).read_timestamp == old(self).read_timestamp,
            final(self).rest().len() > 0 ==> (final(self).prev_key matches Some(k) && k@ == final(self).rest()[0].key.key),
    {
        if self.inner.is_valid() {
            self.prev_key = Some(vstd::slice::slice_to_vec(self.inner.key().key_ref()));
        }
    }

    /// Moves the inner iterator past the remaining versions of a user key.
    fn skip_versions(&mut self, key: &[u8]) -> (r: Result<(), LsmError>)
        requires
            old(self).inner.wf(),
            old(self).rest().len() > 0 ==> key::bytes_le(key@, old(self).rest()[0].key.key),
        ensures
            r is Ok ==> final(self).kept_but_inner(old(self)),
            r is Ok ==> model::entry_map(final(self).rest()) == without(
                model::entry_map(old(self).rest()),
                key@,
            ),
            r is Ok ==> past_key(final(self).rest(), old(self).rest(), key@),
            r matches Err(e) ==> old(self).inner.can_fail(e),
    {
        let ghost start = self.rest();
        proof {
            assert(start.skip(0) =~= start);
        }
        loop
            invariant
                self.kept_but_inner(old(self)),
                start == old(self).rest(),
                is_tail(self.rest(), start),
                forall|j: int|
                    0 <= j < start.len() - self.rest().len() ==> (#[trigger] start[j]).key.key
                        == key@,
                self.rest().len() > 0 ==> key::bytes_le(key@, self.rest()[0].key.key),
                without(model::entry_map(self.rest()), key@) == without(
                    model::entry_map(start),
                    key@,
                ),
            ensures
                model::entry_map(self.rest()) == without(model::entry_map(start), key@),
                past_key(self.rest(), start, key@),
            decreases self.rest().len(),
        {
            let ghost s = self.rest();
            let ghost n = start.len() - s.len();
            proof {
                self.inner.lemma_remaining_sorted();
            }
            if !(self.inner.is_valid() && key::bytes_equal(self.inner.key().key_ref(), key)) {
                proof {
                    lemma_left_behind(s, key@);
                    assert forall|j: int| n <= j < start.len() implies (#[trigger] start[j]).key.key
                        != key@ by {
                        assert(s[j - n] == start[j]);
                        model::lemma_entry_map_index(s, j - n);
                        assert(without(model::entry_map(s), key@).contains_key(s[j - n].key));
                    }
                }
                break;
            }
            proof {
                lemma_pass_over(s, key@);
                assert(start[n] == s[0]);
                assert(s.skip(1) =~= start.skip(n + 1));
                if s.len() > 1 {
                    lemma_user_keys(s, 0, 1);
                }
            }
            match self.inner.next() {
                Err(e) => {
                    return Err(e);
                },
                Ok(()) => {},
            }
        }
        Ok(())
    }

    /// Only the inner iterator may have changed, and it is in order.
    spec fn kept_but_inner(&self, before: &LsmIterator<'a>) -> bool {
        &&& self.inner.wf()
        &&& iterators::fails_within(self.inner, before.inner)
        &&& self.inner.active() == before.inner.active()
        &&& self.end_bound == before.end_bound
        &&& self.read_timestamp == before.read_timestamp
        &&& self.prev_key == before.prev_key
    }

    /// Advance the inner iterator past any entries that should not be visible:
    ///   - versions newer than `read_timestamp`
    ///   - tombstones (the best visible version of a key is a delete marker,
    ///     so skip all remaining versions of that user key and repeat)
    fn skip_tompstone(&mut self) -> (r: Result<(), LsmError>)
        requires
            old(self).inner.wf(),
        ensures
            r is Ok ==> final(self).kept_but_inner(old(self)),
            r is Ok ==> first_shown(
                final(self).rest(),
                old(self).rest(),
                old(self).read_timestamp,
            ),
            r is Ok ==> final(self).seen() == old(self).seen(),
            r matches Err(e) ==> old(self).inner.can_fail(e),
    {
        let ghost start = self.rest();
        let ghost ts = self.read_timestamp;
        proof {
            assert(start.skip(0) =~= start);
        }
        loop
            invariant
                self.kept_but_inner(old(self)),
                self.seen() == old(self).seen(),
                start == old(self).rest(),
                ts == old(self).read_timestamp,
                all_passed(self.rest(), start, ts),
            ensures
                first_shown(self.rest(), start, ts),
            decreases self.rest().len(),
        {
            let ghost before = self.rest();
            while self.inner.is_valid() && self.inner.key().ts() > self.read_timestamp
                invariant
                    self.kept_but_inner(old(self)),
                    self.seen() == old(self).seen(),
                    ts == old(self).read_timestamp,
                    all_passed(self.rest(), start, ts),
                    self.rest().len() <= before.len(),
                ensures
                    self.rest().len() > 0 ==> self.rest()[0].key.ts <= self.read_timestamp,
                decreases self.rest().len(),
            {
                proof {
                    let s = self.rest();
                    let n = start.len() - s.len();
                    self.inner.lemma_remaining_sorted();
                    lemma_too_new(s, ts);
                    assert(start[n] == s[0]);
                    assert(s.skip(1) =~= start.skip(n + 1));
                }
                match self.inner.next() {
                    Err(e) => {
                        return Err(e);
                    },
                    Ok(()) => {},
                }
            }
            let ghost s = self.rest();
            let ghost n = start.len() - s.len();
            if !self.inner.is_valid() {
                break;
            }
            assert(start[n] == s[0]);
            if self.inner.value().len() > 0 {
                break;
            }
            proof {
                self.inner.lemma_remaining_sorted();
                lemma_first_seen(s, ts);
                lemma_visible_without(model::entry_map(s), s[0].key.key, ts);
                assert(self.seen().remove(KeyTs { key: s[0].key.key, ts: TS_DEFAULT })
                    =~= self.seen());
            }
            let tomb_key = vstd::slice::slice_to_vec(self.inner.key().key_ref());
            match self.skip_versions(tomb_key.as_slice()) {
                Err(e) => {
                    return Err(e);
                },
                Ok(()) => {},
            }
            proof {
                lemma_passed_key(self.rest(), s, start, ts);
            }
        }
        Ok(())
    }

    /// Tells whether the user key at the cursor is within the range.
    fn in_range(&self) -> (r: bool)
        requires
            self.inner.wf(),
            self.rest().len() > 0,
        ensures
            r == model::before_upper(self.rest()[0].key.key, self.upper()),
    {
        broadcast use crate::key::lemma_bytes_order;

        match &self.end_bound {
            Bound::Included(bound) => match key::compare_bytes(
                self.inner.key().key_ref(),
                deps::bytes_slice(bound),
            ) {
                key::Order::Greater => false,
                _ => true,
            },
            Bound::Excluded(bound) => match key::compare_bytes(
                self.inner.key().key_ref(),
                deps::bytes_slice(bound),
            ) {
                key::Order::Less => true,
                _ => false,
            },
            Bound::Unbounded => true,
        }
    }
}

impl<'a> StorageIterator for LsmIterator<'a> {
    closed spec fn wf(&self) -> bool {
        &&& self.inner.wf()
        &&& at_visible(self.rest(), self.read_timestamp)
        &&& self.rest().len() > 0 ==> (self.prev_key matches Some(k) && k@
            == self.rest()[0].key.key)
    }

    closed spec fn remaining(&self) -> Seq<Entry> {
        visible_run(self.rest(), self.read_timestamp, self.upper())
    }

    open spec fn can_fail(&self, e: LsmError) -> bool {
        false
    }

    open spec fn may_resume(&self) -> bool {
        false
    }

    closed spec fn active(&self) -> usize {
        self.inner.active()
    }

    proof fn lemma_remaining_sorted(&self) {
        lemma_visible_finite(self.rest(), self.read_timestamp, self.upper());
        model::lemma_sorted_entries(
            model::in_range(self.seen(), Bound::Unbounded, self.upper()),
        );
    }

    fn is_valid(&self) -> (r: bool) {
        proof {
            self.inner.lemma_remaining_sorted();
            lemma_visible_head(self.rest(), self.read_timestamp, self.upper());
        }
        self.inner.is_valid() && self.in_range()
    }

    fn key(&self) -> (r: KeySlice<'_>) {
        proof {
            self.inner.lemma_remaining_sorted();
            lemma_visible_head(self.rest(), self.read_timestamp, self.upper());
        }
        KeySlice::from_slice(self.inner.key().key_ref(), TS_DEFAULT)
    }

    fn value(&self) -> (r: &[u8]) {
        proof {
            self.inner.lemma_remaining_sorted();
            lemma_visible_head(self.rest(), self.read_timestamp, self.upper());
        }
        self.inner.value()
    }

    fn next(&mut self) -> (r: Result<(), LsmError>)
        ensures
            r is Ok,
    {
        proof {
            self.inner.lemma_remaining_sorted();
            lemma_inner_never_fails(self.inner);
            lemma_visible_head(self.rest(), self.read_timestamp, self.upper());
        }
        // Skip all remaining versions of the user key at the cursor.
        let prev_key: Option<Vec<u8>> = match &self.prev_key {
            None => None,
            Some(k) => Some(vstd::slice::slice_to_vec(k.as_slice())),
        };
        match prev_key {
            None => {},
            Some(key) => {
                if self.inner.is_valid() {
                    match self.skip_versions(key.as_slice()) {
                        Err(e) => {
                            return Err(e);
                        },
                        Ok(()) => {},
                    }
                }
            },
        }
        let ghost mid = self.rest();
        assert(is_tail(mid, old(self).rest())) by {
            assert(old(self).rest().skip(0) =~= old(self).rest());
        }
        // Advance to the first visible entry for the next user key.
        match self.skip_tompstone() {
            Err(e) => {
                return Err(e);
            },
            Ok(()) => {},
        }
        // Note the user key for the next call.
        self.note_key();
        proof {
            let s = old(self).rest();
            let t = self.rest();
            self.inner.lemma_remaining_sorted();
            lemma_visible_head(t, self.read_timestamp, self.upper());
            if t.len() > 0 {
                let n = s.len() - t.len();
                assert(t[0] == mid[mid.len() - t.len()]);
                assert(t[0] == s[n]);
                lemma_user_keys(s, 0, n);
                if model::before_upper(t[0].key.key, self.upper()) {
                    lemma_beyond(s[0].key.key, t[0].key.key, self.upper());
                }
            }
        }
        Ok(())
    }

    fn num_active_iterators(&self) -> (r: usize) {
        self.inner.num_active_iterators()
    }
}

/// A wrapper around an iterator: once `next` has returned an error, `is_valid` is false and `next`
/// always returns an error.
pub struct FusedIterator<I: StorageIterator> {
    iter: I,
    has_errored: bool,
}

impl<I: StorageIterator> FusedIterator<I> {
    pub closed spec fn inner(&self) -> I {
        self.iter
    }

    pub closed spec fn errored(&self) -> bool {
        self.has_errored
    }

    pub fn new(iter: I) -> (r: FusedIterator<I>)
        ensures
            r.inner() == iter,
            !r.errored(),
    {
        FusedIterator { iter, has_errored: false }
    }
}

impl<I: StorageIterator> StorageIterator for FusedIterator<I> {
    open spec fn wf(&self) -> bool {
        self.inner().wf()
    }

    open spec fn remaining(&self) -> Seq<Entry> {
        if self.errored() {
            Seq::empty()
        } else {
            self.inner().remaining()
        }
    }

    open spec fn can_fail(&self, e: LsmError) -> bool {
        if self.errored() {
            e == LsmError::IteratorErrored
        } else {
            self.inner().can_fail(e)
        }
    }

    open spec fn may_resume(&self) -> bool {
        !self.errored() && self.inner().may_resume()
    }

    open spec fn active(&self) -> usize {
        self.inner().active()
    }

    proof fn lemma_remaining_sorted(&self) {
        if !self.errored() {
            self.inner().lemma_remaining_sorted();
        }
    }

    fn is_valid(&self) -> (r: bool) {
        !self.has_errored && self.iter.is_valid()
    }

    fn key(&self) -> (r: KeySlice<'_>)
        ensures
            self.inner().remaining().len() > 0 ==> r@ == self.inner().remaining()[0].key,
    {
        self.iter.key()
    }

    fn value(&self) -> (r: &[u8])
        ensures
            self.inner().remaining().len() > 0 ==> r@ == self.inner().remaining()[0].value,
    {
        self.iter.value()
    }

    fn next(&mut self) -> (r: Result<(), LsmError>)
        ensures
            old(self).errored() ==> r == Err::<(), LsmError>(LsmError::IteratorErrored)
                && *final(self) == *old(self),
            r is Err ==> final(self).errored() && final(self).remaining().len() == 0,
            !old(self).errored() ==> (r matches Err(e) ==> old(self).inner().can_fail(e)),
            r is Ok ==> !final(self).errored(),
    {
        if self.has_errored {
            return Err(LsmError::IteratorErrored);
        }
        match self.iter.next() {
            Ok(()) => Ok(()),
            Err(e) => {
                self.has_errored = true;
                Err(e)
            },
        }
    }

    fn num_active_iterators(&self) -> (r: usize) {
        self.iter.num_active_iterators()
    }
}

} // verus!
