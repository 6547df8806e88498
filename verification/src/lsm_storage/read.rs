//! Reads: the iterators over all versions, and what they lead to.
use vstd::prelude::*;
use bytes::Bytes;
use crate::deps;
use crate::deps::Bound;
use crate::error::LsmError;
use crate::iterators;
use crate::iterators::StorageIterator;
use crate::iterators::concat_iterator;
use crate::iterators::concat_iterator::SstConcatIterator;
use crate::iterators::merge_iterator;
use crate::iterators::merge_iterator::MergeIterator;
use crate::iterators::two_merge_iterator;
use crate::iterators::two_merge_iterator::TwoMergeIterator;
use crate::key;
use crate::key::{KeySlice, KeyTs, Order, TS_RANGE_BEGIN};
use crate::lsm_iterator;
use crate::lsm_iterator::{FusedIterator, LsmIterator, LsmIteratorInner};
use crate::lsm_storage;
use crate::lsm_storage::{LsmStorageInner, LsmStorageState};
use crate::mem_table;
use crate::mem_table::{MemTable, MemTableIterator};
use crate::model;
use crate::model::{Entry, Versions};
use crate::table::{SsTable, SsTableIterator};

verus! {

/// Tells whether a table with some first and last key may have user keys in a range.
pub fn range_overlap(
    user_begin: Bound<&[u8]>,
    user_end: Bound<&[u8]>,
    table_begin: KeySlice<'_>,
    table_end: KeySlice<'_>,
) -> (r: bool)
    ensures
        r == (model::before_upper(table_begin@.key, model::bound(user_end)) && model::after_lower(
            table_end@.key,
            model::bound(user_begin),
        )),
        r <==> model::within(table_begin@.key, Bound::Unbounded, model::bound(user_end))
            && model::within(table_end@.key, model::bound(user_begin), Bound::Unbounded),
{
    broadcast use crate::key::lemma_bytes_order;

    proof {
        let none = Map::<KeyTs, Seq<u8>>::empty();
        model::lemma_within(none, Bound::Unbounded, model::bound(user_end), table_begin@);
        model::lemma_within(none, model::bound(user_begin), Bound::Unbounded, table_end@);
    }
    match user_end {
        Bound::Excluded(key) => match key::compare_bytes(key, table_begin.key_ref()) {
            Order::Greater => {},
            _ => {
                return false;
            },
        },
        Bound::Included(key) => match key::compare_bytes(key, table_begin.key_ref()) {
            Order::Less => {
                return false;
            },
            _ => {},
        },
        Bound::Unbounded => {},
    }
    match user_begin {
        Bound::Excluded(key) => match key::compare_bytes(key, table_end.key_ref()) {
            Order::Less => {},
            _ => {
                return false;
            },
        },
        Bound::Included(key) => match key::compare_bytes(key, table_end.key_ref()) {
            Order::Greater => {
                return false;
            },
            _ => {},
        },
        Bound::Unbounded => {},
    }
    true
}

/// Tells whether a user key is within a table's range.
pub fn key_within(user_key: &[u8], table_begin: KeySlice<'_>, table_end: KeySlice<'_>) -> (r: bool)
    ensures
        r == (key::bytes_le(table_begin@.key, user_key@) && key::bytes_le(
            user_key@,
            table_end@.key,
        )),
        r <==> !key::bytes_lt(user_key@, table_begin@.key) && !key::bytes_lt(
            table_end@.key,
            user_key@,
        ),
{
    broadcast use crate::key::lemma_bytes_order;

    let above: bool = match key::compare_bytes(table_begin.key_ref(), user_key) {
        Order::Greater => false,
        _ => true,
    };
    let below: bool = match key::compare_bytes(user_key, table_end.key_ref()) {
        Order::Greater => false,
        _ => true,
    };
    above && below
}

/// A user key is within a table's range, and the table's filter lets it pass.
pub open spec fn may_have(table: SsTable, uk: Seq<u8>) -> bool {
    &&& key::bytes_le(table.first().key, uk)
    &&& key::bytes_le(uk, table.last().key)
    &&& match table.filter() {
        Some(b) => b.lets_pass(uk),
        None => true,
    }
}

/// Tells whether a table may have a user key.
pub fn keep_table(key: &[u8], table: &SsTable) -> (r: bool)
    requires
        table.wf(),
    ensures
        r == may_have(*table, key@),
        r <==> {
            &&& !key::bytes_lt(key@, table.first().key) && !key::bytes_lt(table.last().key, key@)
            &&& table.filter() is Some && deps::hashable(key@) ==> table.filter()->0.may_hold(
                deps::fingerprint32_of(key@),
            )
        },
{
    if key_within(key, table.first_key().as_key_slice(), table.last_key().as_key_slice()) {
        match table.bloom() {
            Some(bloom) => bloom.may_contain_key(key),
            None => true,
        }
    } else {
        false
    }
}

/// A table has no user key in a range.
pub open spec fn misses(table: SsTable, lower: Bound<Seq<u8>>, upper: Bound<Seq<u8>>) -> bool {
    model::in_range(model::entry_map(table.entries()), lower, upper) == Map::<
        KeyTs,
        Seq<u8>,
    >::empty()
}

/// A table that does not have a user key misses it.
proof fn lemma_key_missed(table: SsTable, uk: Seq<u8>)
    requires
        table.wf(),
        !may_have(table, uk),
    ensures
        misses(table, Bound::Included(uk), Bound::Included(uk)),
{
    broadcast use crate::key::lemma_bytes_order;

    let s = table.entries();
    let m = model::in_range(model::entry_map(s), Bound::Included(uk), Bound::Included(uk));
    assert forall|k: KeyTs| !#[trigger] m.contains_key(k) by {
        if m.contains_key(k) {
            assert(k.key == uk);
            let i = model::lemma_entry_map_key(s, k);
            lsm_iterator::lemma_user_keys(s, 0, i);
            lsm_iterator::lemma_user_keys(s, i, s.len() - 1);
            assert(s[i].key.key == uk);
        }
    }
    assert(m =~= Map::empty());
}

/// A table whose range does not overlap a range misses it.
proof fn lemma_range_missed(table: SsTable, lower: Bound<Seq<u8>>, upper: Bound<Seq<u8>>)
    requires
        table.wf(),
        !(model::before_upper(table.first().key, upper) && model::after_lower(
            table.last().key,
            lower,
        )),
    ensures
        misses(table, lower, upper),
{
    let s = table.entries();
    let m = model::in_range(model::entry_map(s), lower, upper);
    assert forall|k: KeyTs| !#[trigger] m.contains_key(k) by {
        if m.contains_key(k) {
            let i = model::lemma_entry_map_key(s, k);
            lsm_iterator::lemma_user_keys(s, 0, i);
            lsm_iterator::lemma_user_keys(s, i, s.len() - 1);
            lsm_iterator::lemma_beyond(s[0].key.key, k.key, upper);
            lemma_before(k.key, s[s.len() - 1].key.key, lower);
        }
    }
    assert(m =~= Map::empty());
}

/// What is behind something within the lower end of a range is within it, too.
proof fn lemma_before(a: Seq<u8>, b: Seq<u8>, lower: Bound<Seq<u8>>)
    requires
        key::bytes_le(a, b),
        model::after_lower(a, lower),
    ensures
        model::after_lower(b, lower),
{
    match lower {
        Bound::Included(x) => {
            if a != b && a != x {
                key::lemma_bytes_lt_transitive(x, a, b);
            }
        },
        Bound::Excluded(x) => {
            if a != b {
                key::lemma_bytes_lt_transitive(x, a, b);
            }
        },
        Bound::Unbounded => {},
    }
}

/// How many of some flags are set.
pub open spec fn count(flags: Seq<bool>) -> nat
    decreases flags.len(),
{
    if flags.len() == 0 {
        0
    } else if flags.last() {
        count(flags.drop_last()) + 1
    } else {
        count(flags.drop_last())
    }
}

/// One more flag counts if it is set.
pub proof fn lemma_count_push(flags: Seq<bool>, x: bool)
    ensures
        count(Seq::empty()) == 0,
        count(flags.push(x)) == count(flags) + if x {
            1int
        } else {
            0
        },
{
    assert(flags.push(x).drop_last() =~= flags);
}

/// A table has entries, and its range overlaps another one.
pub open spec fn overlaps(t: SsTable, lower: Bound<Seq<u8>>, upper: Bound<Seq<u8>>) -> bool {
    &&& t.entries().len() > 0
    &&& model::within(t.first().key, Bound::Unbounded, upper)
    &&& model::within(t.last().key, lower, Bound::Unbounded)
}

/// Iterators of which each counts once.
proof fn lemma_active_count<I: StorageIterator>(iters: Seq<Box<I>>, flags: Seq<bool>)
    requires
        iters.len() == flags.len(),
        forall|i: int|
            0 <= i < iters.len() ==> (#[trigger] iters[i]).active() == 1 && (
            iters[i].remaining().len() > 0) == flags[i],
    ensures
        merge_iterator::active_sum(iters) == count(flags),
    decreases iters.len(),
{
    if iters.len() > 0 {
        let t = iters.drop_last();
        let n = iters.len() - 1;
        assert forall|i: int| 0 <= i < t.len() implies (#[trigger] t[i]).active() == 1 && (
        t[i].remaining().len() > 0) == flags.drop_last()[i] by {
            assert(t[i] == iters[i]);
        }
        lemma_active_count(t, flags.drop_last());
        assert(iters[n].active() == 1);
    }
}

/// A run has entries if and only if its map has.
proof fn lemma_has_entries(s: Seq<Entry>)
    requires
        model::sorted(s),
    ensures
        s.len() > 0 <==> exists|k: KeyTs| #[trigger] model::entry_map(s).contains_key(k),
{
    if s.len() > 0 {
        model::lemma_entry_map_index(s, 0);
    }
    if exists|k: KeyTs| #[trigger] model::entry_map(s).contains_key(k) {
        let k = choose|k: KeyTs| #[trigger] model::entry_map(s).contains_key(k);
        let i = model::lemma_entry_map_key(s, k);
    }
}

/// From the lower end of a range on there is an entry of a table whose range overlaps it.
proof fn lemma_seek_finds(t: SsTable, lower: Bound<Seq<u8>>, upper: Bound<Seq<u8>>, s: Seq<Entry>)
    requires
        t.wf(),
        model::before_upper(t.first().key, upper),
        model::after_lower(t.last().key, lower),
        model::sorted(s),
        model::entry_map(s) == model::in_range(
            model::entry_map(t.entries()),
            lower,
            Bound::Unbounded,
        ),
    ensures
        s.len() > 0 <==> overlaps(t, lower, upper),
{
    let m = model::entry_map(t.entries());
    let none = Map::<KeyTs, Seq<u8>>::empty();
    model::lemma_within(none, Bound::Unbounded, upper, t.first());
    model::lemma_within(none, lower, Bound::Unbounded, t.last());
    lemma_has_entries(s);
    if t.entries().len() > 0 {
        model::lemma_entry_map_index(t.entries(), t.entries().len() - 1);
        assert(model::entry_map(s).contains_key(t.last()));
    } else if s.len() > 0 {
        model::lemma_entry_map_index(s, 0);
        let i = model::lemma_entry_map_key(t.entries(), s[0].key);
    }
}

/// Which tables a read leaves out.
#[derive(Clone, Copy)]
enum Wanted<'k> {
    /// Those that cannot have a user key.
    Key(&'k [u8]),
    /// Those that cannot have user keys in a range.
    Range,
}

/// A read of a single user key is a read of the range that holds it alone.
spec fn wants(w: Wanted<'_>, lower: Bound<&[u8]>, upper: Bound<&[u8]>) -> bool {
    match w {
        Wanted::Key(k) => lower == Bound::Included(k) && upper == Bound::Included(k),
        Wanted::Range => true,
    }
}

/// A read takes a table into account: for a user key, where the table may have it; for a range,
/// where the table's range overlaps it.
spec fn takes(w: Wanted<'_>, lower: Bound<&[u8]>, upper: Bound<&[u8]>, table: SsTable) -> bool {
    match w {
        Wanted::Key(k) => may_have(table, k@),
        Wanted::Range => model::before_upper(table.first().key, model::bound(upper))
            && model::after_lower(table.last().key, model::bound(lower)),
    }
}

/// Tells whether a read takes a table into account.
fn is_wanted(w: Wanted<'_>, lower: Bound<&[u8]>, upper: Bound<&[u8]>, table: &SsTable) -> (r: bool)
    requires
        table.wf(),
        wants(w, lower, upper),
    ensures
        r == takes(w, lower, upper, *table),
        !r ==> misses(*table, model::bound(lower), model::bound(upper)),
{
    match w {
        Wanted::Key(key) => {
            let r = keep_table(key, table);
            proof {
                if !r {
                    lemma_key_missed(*table, key@);
                }
            }
            r
        },
        Wanted::Range => {
            let r = range_overlap(
                lower,
                upper,
                table.first_key().as_key_slice(),
                table.last_key().as_key_slice(),
            );
            proof {
                if !r {
                    lemma_range_missed(*table, model::bound(lower), model::bound(upper));
                }
            }
            r
        },
    }
}

/// Moves an iterator past all versions of a user key, where it begins with them.
fn skip_key<I: StorageIterator>(iter: &mut I, key: &[u8]) -> (r: Result<(), LsmError>)
    requires
        old(iter).wf(),
        old(iter).remaining().len() > 0 ==> key::bytes_le(key@, old(iter).remaining()[0].key.key),
    ensures
        r is Ok ==> final(iter).wf(),
        r is Ok ==> iterators::fails_within(*final(iter), *old(iter)),
        r is Ok ==> final(iter).active() == old(iter).active(),
        r is Ok ==> model::entry_map(final(iter).remaining()) == model::in_range(
            model::entry_map(old(iter).remaining()),
            Bound::Excluded(key@),
            Bound::Unbounded,
        ),
        r matches Err(e) ==> old(iter).can_fail(e),
{
    let ghost start = model::entry_map(iter.remaining());
    loop
        invariant
            iter.wf(),
            iterators::fails_within(*iter, *old(iter)),
            iter.active() == old(iter).active(),
            iter.remaining().len() > 0 ==> key::bytes_le(key@, iter.remaining()[0].key.key),
            model::in_range(
                model::entry_map(iter.remaining()),
                Bound::Excluded(key@),
                Bound::Unbounded,
            ) == model::in_range(start, Bound::Excluded(key@), Bound::Unbounded),
            start == model::entry_map(old(iter).remaining()),
        ensures
            model::entry_map(iter.remaining()) == model::in_range(
                start,
                Bound::Excluded(key@),
                Bound::Unbounded,
            ),
        decreases iter.remaining().len(),
    {
        let ghost s = iter.remaining();
        proof {
            iter.lemma_remaining_sorted();
        }
        if !(iter.is_valid() && key::bytes_equal(iter.key().key_ref(), key)) {
            proof {
                let m = model::entry_map(s);
                assert forall|k: KeyTs| #[trigger] m.contains_key(k) implies key::bytes_lt(
                    key@,
                    k.key,
                ) by {
                    let i = model::lemma_entry_map_key(s, k);
                    lsm_iterator::lemma_user_keys(s, 0, i);
                    if s[0].key.key != k.key {
                        key::lemma_bytes_lt_transitive(key@, s[0].key.key, k.key);
                    }
                }
                assert(model::in_range(m, Bound::Excluded(key@), Bound::Unbounded) =~= m);
            }
            break;
        }
        proof {
            model::lemma_entry_map_skip(s);
            key::lemma_bytes_lt_irreflexive(key@);
            assert(model::in_range(
                model::entry_map(s.skip(1)),
                Bound::Excluded(key@),
                Bound::Unbounded,
            ) =~= model::in_range(model::entry_map(s), Bound::Excluded(key@), Bound::Unbounded));
            if s.len() > 1 {
                lsm_iterator::lemma_user_keys(s, 0, 1);
            }
        }
        match iter.next() {
            Err(e) => {
                return Err(e);
            },
            Ok(()) => {},
        }
    }
    Ok(())
}

/// An iterator over a table that begins at the lower end of a range.
fn seek_table<'a>(table: &'a SsTable, lower: Bound<&[u8]>) -> (r: Result<
    SsTableIterator<'a>,
    LsmError,
>)
    requires
        table.wf(),
    ensures
        r matches Ok(it) && it.wf() && model::entry_map(it.remaining()) == model::in_range(
            model::entry_map(table.entries()),
            model::bound(lower),
            Bound::Unbounded,
        ),
{
    match lower {
        Bound::Included(key) => {
            proof {
                model::lemma_from_bound(table.entries(), key@);
            }
            Ok(
                SsTableIterator::create_and_seek_to_key(
                    table,
                    KeySlice::from_slice(key, TS_RANGE_BEGIN),
                ),
            )
        },
        Bound::Excluded(key) => {
            let mut iter = SsTableIterator::create_and_seek_to_key(
                table,
                KeySlice::from_slice(key, TS_RANGE_BEGIN),
            );
            proof {
                model::lemma_from_bound(table.entries(), key@);
                lemma_begins(table.entries(), iter.remaining(), key@);
            }
            match skip_key(&mut iter, key) {
                Err(e) => Err(e),
                Ok(()) => Ok(iter),
            }
        },
        Bound::Unbounded => {
            let iter = SsTableIterator::create_and_seek_to_first(table);
            assert(model::in_range(
                model::entry_map(table.entries()),
                Bound::Unbounded,
                Bound::Unbounded,
            ) =~= model::entry_map(table.entries()));
            Ok(iter)
        },
    }
}

/// What begins at a user key has it or one behind it first, and excluding it takes it out.
proof fn lemma_begins(all: Seq<Entry>, s: Seq<Entry>, uk: Seq<u8>)
    requires
        model::sorted(all),
        s == model::from_key(all, KeyTs { key: uk, ts: TS_RANGE_BEGIN }),
    ensures
        s.len() > 0 ==> key::bytes_le(uk, s[0].key.key),
        model::in_range(model::entry_map(s), Bound::Excluded(uk), Bound::Unbounded)
            == model::in_range(model::entry_map(all), Bound::Excluded(uk), Bound::Unbounded),
{
    let k = KeyTs { key: uk, ts: TS_RANGE_BEGIN };
    model::lemma_from_key_map(all, k);
    model::lemma_from_bound(all, uk);
    if s.len() > 0 {
        model::lemma_entry_map_index(s, 0);
    }
    assert(model::in_range(model::entry_map(s), Bound::Excluded(uk), Bound::Unbounded)
        =~= model::in_range(model::entry_map(all), Bound::Excluded(uk), Bound::Unbounded));
}

/// An iterator over a level that begins at the lower end of a range.
fn seek_level<'a>(tables: Vec<&'a SsTable>, lower: Bound<&[u8]>) -> (r: Result<
    SstConcatIterator<'a>,
    LsmError,
>)
    requires
        concat_iterator::ordered(tables@),
    ensures
        r matches Ok(it) && it.wf() && model::entry_map(it.remaining()) == model::in_range(
            model::entry_map(model::concat(concat_iterator::runs(tables@))),
            model::bound(lower),
            Bound::Unbounded,
        ),
{
    let ghost all = model::concat(concat_iterator::runs(tables@));
    match lower {
        Bound::Included(key) => {
            proof {
                model::lemma_from_bound(all, key@);
            }
            Ok(
                SstConcatIterator::create_and_seek_to_key(
                    tables,
                    KeySlice::from_slice(key, TS_RANGE_BEGIN),
                ),
            )
        },
        Bound::Excluded(key) => {
            let mut iter = SstConcatIterator::create_and_seek_to_key(
                tables,
                KeySlice::from_slice(key, TS_RANGE_BEGIN),
            );
            proof {
                model::lemma_from_bound(all, key@);
                lemma_begins(all, iter.remaining(), key@);
            }
            match skip_key(&mut iter, key) {
                Err(e) => Err(e),
                Ok(()) => Ok(iter),
            }
        },
        Bound::Unbounded => {
            let iter = SstConcatIterator::create_and_seek_to_first(tables);
            assert(model::in_range(model::entry_map(all), Bound::Unbounded, Bound::Unbounded)
                =~= model::entry_map(all));
            Ok(iter)
        },
    }
}

/// Each of the iterators counts as one at most.
pub(crate) proof fn lemma_active_sum<I: StorageIterator>(iters: Seq<Box<I>>)
    requires
        forall|i: int| 0 <= i < iters.len() ==> (#[trigger] iters[i]).active() == 1,
    ensures
        0 <= merge_iterator::active_sum(iters) <= iters.len(),
    decreases iters.len(),
{
    if iters.len() > 0 {
        let init = iters.drop_last();
        assert forall|i: int| 0 <= i < init.len() implies (#[trigger] init[i]).active() == 1 by {
            assert(init[i] == iters[i]);
        }
        lemma_active_sum(init);
        assert(iters[iters.len() - 1].active() == 1);
    }
}

/// What a scan shows, as a map.
pub(crate) proof fn lemma_shown_map(m: Versions, lower: Bound<Seq<u8>>, upper: Bound<Seq<u8>>, s: Seq<Entry>)
    requires
        model::sorted(s),
        model::entry_map(s) == model::in_range(m, lower, upper),
    ensures
        model::entry_map(mem_table::shown(s)) == lsm_storage::mem_view(m, lower, upper),
        model::in_range(lsm_storage::mem_view(m, lower, upper), Bound::Unbounded, upper)
            == lsm_storage::mem_view(m, lower, upper),
{
    let r = model::in_range(m, lower, upper);
    model::lemma_in_range_twice(m, lower, upper);
    let none = Map::<KeyTs, Seq<u8>>::empty();
    assert(model::in_range(none, Bound::Unbounded, upper) =~= none);
    if exists|k: KeyTs| #[trigger] r.contains_key(k) && k.key.len() == 0 {
        let k = choose|k: KeyTs| #[trigger] r.contains_key(k) && k.key.len() == 0;
        let i = model::lemma_entry_map_key(s, k);
        lsm_iterator::lemma_user_keys(s, 0, i);
        assert(s[0].key.key.len() == 0);
        assert(model::entry_map(mem_table::shown(s)) =~= none);
    } else if s.len() > 0 {
        model::lemma_entry_map_index(s, 0);
        assert(r.contains_key(s[0].key));
    }
}

/// The memtable's part of a read.
fn scan_memtable(memtable: &MemTable, lower: Bound<&[u8]>, upper: Bound<&[u8]>) -> (r:
    MemTableIterator)
    ensures
        r.wf(),
        model::entry_map(r.remaining()) == lsm_storage::mem_view(
            memtable.versions(),
            model::bound(lower),
            model::bound(upper),
        ),
        model::in_range(
            model::entry_map(r.remaining()),
            Bound::Unbounded,
            model::bound(upper),
        ) == model::entry_map(r.remaining()),
{
    let r = memtable.scan(lower, upper);
    proof {
        let m = memtable.versions();
        let n = model::in_range(m, model::bound(lower), model::bound(upper));
        let s = model::sorted_entries(n);
        model::lemma_sorted_entries(n);
        lemma_shown_map(m, model::bound(lower), model::bound(upper), s);
    }
    r
}

impl LsmStorageState {
    /// Which memtables show something in a range.
    pub open spec fn mem_flags(&self, lower: Bound<Seq<u8>>, upper: Bound<Seq<u8>>) -> Seq<bool> {
        Seq::new(
            self.memtables().len(),
            |i: int|
                exists|k: KeyTs| #[trigger]
                    lsm_storage::mem_view(
                        self.memtables()[i].versions(),
                        lower,
                        upper,
                    ).contains_key(k),
        )
    }

    /// Which tables of L0 overlap a range.
    pub open spec fn l0_flags(&self, lower: Bound<Seq<u8>>, upper: Bound<Seq<u8>>) -> Seq<bool> {
        Seq::new(
            self.l0_sstables@.len(),
            |i: int| overlaps(self.sstables@[self.l0_sstables@[i]], lower, upper),
        )
    }

    /// Which levels have a table that overlaps a range.
    pub open spec fn level_flags(&self, lower: Bound<Seq<u8>>, upper: Bound<Seq<u8>>) -> Seq<bool> {
        Seq::new(
            self.levels@.len(),
            |i: int|
                exists|j: int|
                    0 <= j < self.levels@[i].1@.len() && overlaps(
                        self.sstables@[#[trigger] self.levels@[i].1@[j]],
                        lower,
                        upper,
                    ),
        )
    }

    /// How many sources feed a scan: the memtables that show something in the range, the tables of
    /// L0 that overlap it, and the levels that have a table that does.
    pub open spec fn scan_sources(&self, lower: Bound<Seq<u8>>, upper: Bound<Seq<u8>>) -> nat {
        count(self.mem_flags(lower, upper)) + count(self.l0_flags(lower, upper)) + count(
            self.level_flags(lower, upper),
        )
    }

    /// Iterators over the memtables.
    fn mem_iters(&self, lower: Bound<&[u8]>, upper: Bound<&[u8]>) -> (r: Vec<Box<MemTableIterator>>)
        requires
            self.countable(),
        ensures
            r@.len() == self.memtables().len(),
            forall|i: int| 0 <= i < r@.len() ==> (#[trigger] r@[i]).wf(),
            merge_iterator::maps_of(r@) == self.memtables().map_values(
                |m: MemTable|
                    lsm_storage::mem_view(m.versions(), model::bound(lower), model::bound(upper)),
            ),
            model::in_range(
                model::merged(merge_iterator::maps_of(r@)),
                Bound::Unbounded,
                model::bound(upper),
            ) == model::merged(merge_iterator::maps_of(r@)),
    {
        let ghost up = model::bound(upper);
        let ghost views = self.memtables().map_values(
            |m: MemTable| lsm_storage::mem_view(m.versions(), model::bound(lower), up),
        );
        let mut iters: Vec<Box<MemTableIterator>> = Vec::new();
        iters.push(Box::new(scan_memtable(&self.memtable, lower, upper)));
        proof {
            let ms = merge_iterator::maps_of(iters@);
            assert(self.memtables()[0] == self.memtable);
            assert(ms =~= views.take(1));
            model::lemma_merged_push(Seq::empty(), ms[0]);
            assert(ms =~= Seq::<Versions>::empty().push(ms[0]));
            lemma_range_push(Seq::empty(), ms[0], up);
        }
        let mut i: usize = 0;
        while i < self.imm_memtables.len()
            invariant
                i <= self.imm_memtables@.len(),
                up == model::bound(upper),
                views == self.memtables().map_values(
                    |m: MemTable| lsm_storage::mem_view(m.versions(), model::bound(lower), up),
                ),
                iters@.len() == i + 1,
                forall|j: int| 0 <= j < iters@.len() ==> (#[trigger] iters@[j]).wf(),
                merge_iterator::maps_of(iters@) == views.take(i + 1),
                model::in_range(
                    model::merged(merge_iterator::maps_of(iters@)),
                    Bound::Unbounded,
                    up,
                ) == model::merged(merge_iterator::maps_of(iters@)),
            decreases self.imm_memtables@.len() - i,
        {
            let ghost before = merge_iterator::maps_of(iters@);
            let it = scan_memtable(&self.imm_memtables[i], lower, upper);
            iters.push(Box::new(it));
            proof {
                let ms = merge_iterator::maps_of(iters@);
                assert(self.memtables()[i + 1] == self.imm_memtables@[i as int]);
                assert(ms =~= before.push(model::entry_map(it.remaining())));
                assert(ms =~= views.take(i + 2));
                lemma_range_push(before, model::entry_map(it.remaining()), up);
            }
            i = i + 1;
        }
        assert(views.take(i + 1) =~= views);
        iters
    }

    /// Iterators over the tables of L0.
    fn l0_iters<'a>(&'a self, w: Wanted<'_>, lower: Bound<&[u8]>, upper: Bound<&[u8]>) -> (r: Result<
        Vec<Box<SsTableIterator<'a>>>,
        LsmError,
    >)
        requires
            self.wf(),
            wants(w, lower, upper),
        ensures
            r is Ok,
            r->Ok_0@.len() <= self.l0_sstables@.len(),
            forall|i: int| 0 <= i < r->Ok_0@.len() ==> (#[trigger] r->Ok_0@[i]).wf(),
            model::in_range(
                model::merged(merge_iterator::maps_of(r->Ok_0@)),
                Bound::Unbounded,
                model::bound(upper),
            ) == model::in_range(self.l0_versions(), model::bound(lower), model::bound(upper)),
            w is Range ==> merge_iterator::active_sum(r->Ok_0@) == count(
                self.l0_flags(model::bound(lower), model::bound(upper)),
            ),
    {
        broadcast use vstd::std_specs::hash::group_hash_axioms;

        let ghost lo = model::bound(lower);
        let ghost up = model::bound(upper);
        let ghost maps = lsm_storage::table_maps(self.sstables@, self.l0_sstables@);
        let ghost flags = self.l0_flags(lo, up);
        let mut iters: Vec<Box<SsTableIterator<'a>>> = Vec::new();
        let mut i: usize = 0;
        proof {
            lemma_count_push(flags, true);
            assert(flags.take(0) =~= Seq::empty());
            let none = Map::<KeyTs, Seq<u8>>::empty();
            assert(model::merged(maps.take(0)) =~= none);
            assert(model::merged(merge_iterator::maps_of(iters@)) =~= none);
            assert(model::in_range(none, Bound::Unbounded, up) =~= none);
            assert(model::in_range(none, lo, up) =~= none);
        }
        while i < self.l0_sstables.len()
            invariant
                i <= self.l0_sstables@.len(),
                self.wf(),
                wants(w, lower, upper),
                lo == model::bound(lower),
                up == model::bound(upper),
                maps == lsm_storage::table_maps(self.sstables@, self.l0_sstables@),
                iters@.len() <= i,
                flags == self.l0_flags(lo, up),
                w is Range ==> merge_iterator::active_sum(iters@) == count(flags.take(i as int)),
                forall|j: int| 0 <= j < iters@.len() ==> (#[trigger] iters@[j]).wf(),
                model::in_range(
                    model::merged(merge_iterator::maps_of(iters@)),
                    Bound::Unbounded,
                    up,
                ) == model::in_range(model::merged(maps.take(i as int)), lo, up),
            decreases self.l0_sstables@.len() - i,
        {
            broadcast use vstd::std_specs::hash::group_hash_axioms;

            let table = match self.sstables.get(&self.l0_sstables[i]) {
                Some(t) => t,
                None => {
                    assert(false);
                    return Ok(iters);
                },
            };
            let ghost m = model::entry_map(table.entries());
            let ghost before = merge_iterator::maps_of(iters@);
            proof {
                assert(maps.take(i + 1) =~= maps.take(i as int).push(m));
                model::lemma_merged_push(maps.take(i as int), m);
                model::lemma_in_range_prefer(model::merged(maps.take(i as int)), m, lo, up);
                assert(flags.take(i + 1) =~= flags.take(i as int).push(flags[i as int]));
                lemma_count_push(flags.take(i as int), flags[i as int]);
                let none = Map::<KeyTs, Seq<u8>>::empty();
                model::lemma_within(none, Bound::Unbounded, up, table.first());
                model::lemma_within(none, lo, Bound::Unbounded, table.last());
            }
            let ghost old_iters = iters@;
            if is_wanted(w, lower, upper, table) {
                let it = match seek_table(table, lower) {
                    Err(e) => {
                        return Err(e);
                    },
                    Ok(it) => it,
                };
                iters.push(Box::new(it));
                proof {
                    let n = model::entry_map(it.remaining());
                    assert(merge_iterator::maps_of(iters@) =~= before.push(n));
                    model::lemma_merged_push(before, n);
                    model::lemma_in_range_prefer(model::merged(before), n, Bound::Unbounded, up);
                    model::lemma_in_range_twice(m, lo, up);
                    if w is Range {
                        it.lemma_remaining_sorted();
                        lemma_seek_finds(*table, lo, up, it.remaining());
                        merge_iterator::lemma_active_sum_push(old_iters, iters@[iters@.len() - 1]);
                        assert(iters@ =~= old_iters.push(iters@[iters@.len() - 1]));
                    }
                }
            } else {
                proof {
                    let old_part = model::in_range(model::merged(maps.take(i as int)), lo, up);
                    assert(model::prefer(old_part, Map::empty()) =~= old_part);
                }
            }
            i = i + 1;
        }
        assert(maps.take(i as int) =~= maps);
        assert(flags.take(i as int) =~= flags);
        Ok(iters)
    }
}

/// From the lower end of a range on there is an entry of a level if and only if one of its tables
/// that overlap the range has entries.
proof fn lemma_level_finds(
    tables: Seq<&SsTable>,
    lower: Bound<Seq<u8>>,
    upper: Bound<Seq<u8>>,
    s: Seq<Entry>,
)
    requires
        concat_iterator::ordered(tables),
        forall|i: int|
            0 <= i < tables.len() ==> model::after_lower(
                (#[trigger] tables[i]).last().key,
                lower,
            ),
        model::sorted(s),
        model::entry_map(s) == model::in_range(
            model::entry_map(model::concat(concat_iterator::runs(tables))),
            lower,
            Bound::Unbounded,
        ),
    ensures
        s.len() > 0 <==> exists|i: int|
            0 <= i < tables.len() && (#[trigger] tables[i]).entries().len() > 0,
{
    let rs = concat_iterator::runs(tables);
    let all = model::concat(rs);
    lemma_has_entries(s);
    if s.len() > 0 {
        model::lemma_entry_map_index(s, 0);
        let y = model::lemma_entry_map_key(all, s[0].key);
        let (a, x) = model::lemma_concat_from(rs, y);
        assert(tables[a].entries().len() > 0);
    }
    if exists|i: int| 0 <= i < tables.len() && (#[trigger] tables[i]).entries().len() > 0 {
        let i = choose|i: int| 0 <= i < tables.len() && (#[trigger] tables[i]).entries().len() > 0;
        let n = tables[i].entries().len() - 1;
        assert(rs[i] == tables[i].entries());
        let y = model::lemma_concat_has(rs, i, n);
        model::lemma_entry_map_index(all, y);
        assert(tables[i].wf());
        assert(all[y].key == tables[i].last());
        assert(model::entry_map(s).contains_key(tables[i].last()));
    }
}

/// One more table of a level, whose range overlaps another one if it has entries.
proof fn lemma_one_more(
    s: LsmStorageState,
    ids: Seq<usize>,
    tables: Seq<&SsTable>,
    t: &SsTable,
    n: int,
    lower: Bound<Seq<u8>>,
    upper: Bound<Seq<u8>>,
)
    requires
        0 <= n < ids.len(),
        *t == s.sstables@[ids[n]],
    ensures
        (t.entries().len() > 0 <==> overlaps(*t, lower, upper)) && ((exists|j: int|
            0 <= j < tables.len() && (#[trigger] tables[j]).entries().len() > 0) <==> exists|j: int|
            0 <= j < n && overlaps(s.sstables@[#[trigger] ids[j]], lower, upper)) ==> ((exists|
            j: int,
        |
            0 <= j < tables.push(t).len() && (#[trigger] tables.push(t)[j]).entries().len() > 0)
            <==> exists|j: int|
            0 <= j < n + 1 && overlaps(s.sstables@[#[trigger] ids[j]], lower, upper)),
{
    let all = tables.push(t);
    assert(all[tables.len() as int] == t);
    assert forall|j: int| 0 <= j < tables.len() implies #[trigger] all[j] == tables[j] by {}
    if exists|j: int| 0 <= j < tables.len() && (#[trigger] tables[j]).entries().len() > 0 {
        let j = choose|j: int| 0 <= j < tables.len() && (#[trigger] tables[j]).entries().len() > 0;
        assert(all[j].entries().len() > 0);
    }
    if t.entries().len() > 0 {
        assert(all[tables.len() as int].entries().len() > 0);
    }
    if exists|j: int| 0 <= j < all.len() && (#[trigger] all[j]).entries().len() > 0 {
        let j = choose|j: int| 0 <= j < all.len() && (#[trigger] all[j]).entries().len() > 0;
        if j < tables.len() {
            assert(tables[j].entries().len() > 0);
        }
    }
}

/// Adding a collection within a range keeps the range.
proof fn lemma_range_push(ms: Seq<Versions>, m: Versions, upper: Bound<Seq<u8>>)
    requires
        model::in_range(model::merged(ms), Bound::Unbounded, upper) == model::merged(ms)
            || ms.len() == 0,
        model::in_range(m, Bound::Unbounded, upper) == m,
    ensures
        model::in_range(model::merged(ms.push(m)), Bound::Unbounded, upper) == model::merged(
            ms.push(m),
        ),
{
    model::lemma_merged_push(ms, m);
    model::lemma_in_range_prefer(model::merged(ms), m, Bound::Unbounded, upper);
    if ms.len() == 0 {
        let none = Map::<KeyTs, Seq<u8>>::empty();
        assert(model::in_range(none, Bound::Unbounded, upper) =~= none);
    }
}

impl LsmStorageState {
    /// The tables of a level that a read takes into account.
    fn level_part<'a>(
        &'a self,
        ids: &Vec<usize>,
        w: Wanted<'_>,
        lower: Bound<&[u8]>,
        upper: Bound<&[u8]>,
    ) -> (r: Vec<&'a SsTable>)
        requires
            lsm_storage::level_ok(self.sstables@, ids@),
            wants(w, lower, upper),
        ensures
            concat_iterator::ordered(r@),
            w is Range ==> forall|i: int|
                0 <= i < r@.len() ==> takes(w, lower, upper, *(#[trigger] r@[i])),
            w is Range ==> ((exists|i: int| 0 <= i < r@.len() && (#[trigger] r@[i]).entries().len() > 0)
                <==> exists|j: int|
                0 <= j < ids@.len() && overlaps(
                    self.sstables@[#[trigger] ids@[j]],
                    model::bound(lower),
                    model::bound(upper),
                )),
            model::in_range(
                model::entry_map(model::concat(concat_iterator::runs(r@))),
                model::bound(lower),
                model::bound(upper),
            ) == model::in_range(
                model::entry_map(
                    model::concat(lsm_storage::table_runs(self.sstables@, ids@)),
                ),
                model::bound(lower),
                model::bound(upper),
            ),
    {
        let ghost lo = model::bound(lower);
        let ghost up = model::bound(upper);
        let ghost rs = lsm_storage::table_runs(self.sstables@, ids@);
        let mut tables: Vec<&'a SsTable> = Vec::new();
        let mut i: usize = 0;
        proof {
            assert(model::concat(concat_iterator::runs(tables@)) =~= Seq::empty());
            assert(model::concat(rs.take(0)) =~= Seq::empty());
        }
        while i < ids.len()
            invariant
                i <= ids@.len(),
                lsm_storage::level_ok(self.sstables@, ids@),
                wants(w, lower, upper),
                lo == model::bound(lower),
                up == model::bound(upper),
                rs == lsm_storage::table_runs(self.sstables@, ids@),
                concat_iterator::ordered(tables@),
                forall|j: int|
                    0 <= j < tables@.len() ==> takes(w, lower, upper, *(#[trigger] tables@[j])),
                w is Range ==> ((exists|j: int|
                    0 <= j < tables@.len() && (#[trigger] tables@[j]).entries().len() > 0)
                    <==> exists|j: int|
                    0 <= j < i && overlaps(self.sstables@[#[trigger] ids@[j]], lo, up)),
                part_of(
                    model::concat(concat_iterator::runs(tables@)),
                    model::concat(rs.take(i as int)),
                    lo,
                    up,
                ),
            decreases ids@.len() - i,
        {
            broadcast use vstd::std_specs::hash::group_hash_axioms;

            let table = match self.sstables.get(&ids[i]) {
                Some(t) => t,
                None => {
                    assert(false);
                    return tables;
                },
            };
            let ghost part = model::concat(concat_iterator::runs(tables@));
            let ghost before = model::concat(rs.take(i as int));
            let ghost here = table.entries();
            proof {
                assert(rs[i as int] == here);
                model::lemma_concat_at(rs, i as int);
                let after = model::concat(rs.skip(i + 1));
                assert(before + (here + after) =~= (before + here) + after);
                model::lemma_sorted_parts(before + here, after);
            }
            let ghost old_tables = tables@;
            proof {
                let none = Map::<KeyTs, Seq<u8>>::empty();
                model::lemma_within(none, Bound::Unbounded, up, table.first());
                model::lemma_within(none, lo, Bound::Unbounded, table.last());
                assert(*table == self.sstables@[ids@[i as int]]);
            }
            if is_wanted(w, lower, upper, table) {
                tables.push(table);
                proof {
                    lemma_one_more(*self, ids@, old_tables, table, i as int, lo, up);
                    assert(concat_iterator::runs(tables@) =~= concat_iterator::runs(
                        old_tables,
                    ).push(here));
                    model::lemma_concat_push(concat_iterator::runs(old_tables), here);
                    lemma_part_kept(part, before, here, lo, up);
                }
            } else {
                proof {
                    lemma_part_left(part, before, here, lo, up);
                }
            }
            i = i + 1;
        }
        assert(rs.take(i as int) =~= rs);
        tables
    }

    /// Iterators over the levels.
    fn level_iters<'a>(&'a self, w: Wanted<'_>, lower: Bound<&[u8]>, upper: Bound<&[u8]>) -> (r:
        Result<Vec<Box<SstConcatIterator<'a>>>, LsmError>)
        requires
            self.wf(),
            wants(w, lower, upper),
        ensures
            r is Ok,
            r->Ok_0@.len() == self.levels@.len(),
            forall|i: int| 0 <= i < r->Ok_0@.len() ==> (#[trigger] r->Ok_0@[i]).wf(),
            model::in_range(
                model::merged(merge_iterator::maps_of(r->Ok_0@)),
                Bound::Unbounded,
                model::bound(upper),
            ) == model::in_range(self.level_versions(), model::bound(lower), model::bound(upper)),
            w is Range ==> merge_iterator::active_sum(r->Ok_0@) == count(
                self.level_flags(model::bound(lower), model::bound(upper)),
            ),
    {
        let ghost lo = model::bound(lower);
        let ghost up = model::bound(upper);
        let ghost maps = lsm_storage::level_maps(self.sstables@, self.levels@);
        let mut iters: Vec<Box<SstConcatIterator<'a>>> = Vec::new();
        let mut i: usize = 0;
        proof {
            let none = Map::<KeyTs, Seq<u8>>::empty();
            assert(model::merged(maps.take(0)) =~= none);
            assert(model::merged(merge_iterator::maps_of(iters@)) =~= none);
            assert(model::in_range(none, Bound::Unbounded, up) =~= none);
            assert(model::in_range(none, lo, up) =~= none);
        }
        while i < self.levels.len()
            invariant
                i <= self.levels@.len(),
                self.wf(),
                wants(w, lower, upper),
                lo == model::bound(lower),
                up == model::bound(upper),
                maps == lsm_storage::level_maps(self.sstables@, self.levels@),
                iters@.len() == i,
                w is Range ==> forall|j: int|
                    0 <= j < i ==> ((#[trigger] iters@[j]).remaining().len() > 0) == self.level_flags(
                        lo,
                        up,
                    )[j],
                forall|j: int| 0 <= j < iters@.len() ==> (#[trigger] iters@[j]).wf(),
                model::in_range(
                    model::merged(merge_iterator::maps_of(iters@)),
                    Bound::Unbounded,
                    up,
                ) == model::in_range(model::merged(maps.take(i as int)), lo, up),
            decreases self.levels@.len() - i,
        {
            let ids = &self.levels[i].1;
            assert(lsm_storage::level_ok(self.sstables@, self.levels@[i as int].1@));
            let tables = self.level_part(ids, w, lower, upper);
            let ghost part = model::entry_map(model::concat(concat_iterator::runs(tables@)));
            let ghost m = maps[i as int];
            let ghost before = merge_iterator::maps_of(iters@);
            let ghost kept = tables@;
            let it = match seek_level(tables, lower) {
                Err(e) => {
                    return Err(e);
                },
                Ok(it) => it,
            };
            iters.push(Box::new(it));
            proof {
                if w is Range {
                    it.lemma_remaining_sorted();
                    lemma_level_finds(kept, lo, up, it.remaining());
                    assert(self.level_flags(lo, up)[i as int] == (it.remaining().len() > 0));
                }
                assert(maps.take(i + 1) =~= maps.take(i as int).push(m));
                model::lemma_merged_push(maps.take(i as int), m);
                model::lemma_in_range_prefer(model::merged(maps.take(i as int)), m, lo, up);
                let n = model::entry_map(it.remaining());
                assert(merge_iterator::maps_of(iters@) =~= before.push(n));
                model::lemma_merged_push(before, n);
                model::lemma_in_range_prefer(model::merged(before), n, Bound::Unbounded, up);
                model::lemma_in_range_twice(part, lo, up);
            }
            i = i + 1;
        }
        assert(maps.take(i as int) =~= maps);
        proof {
            if w is Range {
                lemma_active_count(iters@, self.level_flags(lo, up));
            }
        }
        Ok(iters)
    }

    /// An iterator over the versions of the user keys in a range, which may go on behind it.
    fn iter_over<'a>(&'a self, w: Wanted<'_>, lower: Bound<&[u8]>, upper: Bound<&[u8]>) -> (r: Result<
        LsmIteratorInner<'a>,
        LsmError,
    >)
        requires
            self.wf(),
            self.countable(),
            wants(w, lower, upper),
        ensures
            r is Ok,
            r->Ok_0.wf(),
            iterators::never_fails(r->Ok_0),
            r->Ok_0.active() <= self.sources(),
            w is Range ==> r->Ok_0.active() == self.scan_sources(
                model::bound(lower),
                model::bound(upper),
            ),
            model::in_range(
                model::entry_map(r->Ok_0.remaining()),
                Bound::Unbounded,
                model::bound(upper),
            ) == self.view_in(model::bound(lower), model::bound(upper)),
    {
        let ghost lo = model::bound(lower);
        let ghost up = model::bound(upper);
        let mem = self.mem_iters(lower, upper);
        proof {
            lemma_active_sum(mem@);
            let flags = self.mem_flags(lo, up);
            let maps = merge_iterator::maps_of(mem@);
            assert forall|i: int| 0 <= i < mem@.len() implies (#[trigger] mem@[i]).active() == 1 && (
            mem@[i].remaining().len() > 0) == flags[i] by {
                assert(maps[i] == model::entry_map(mem@[i].remaining()));
                mem@[i].lemma_remaining_sorted();
                lemma_has_entries(mem@[i].remaining());
            }
            lemma_active_count(mem@, flags);
        }
        let ghost mem_map = model::merged(merge_iterator::maps_of(mem@));
        proof {
            lemma_merged_maps_finite(mem@);
            model::lemma_sorted_entries(mem_map);
        }
        let memtable_iter = MergeIterator::create(mem);
        let l0 = match self.l0_iters(w, lower, upper) {
            Err(e) => {
                return Err(e);
            },
            Ok(x) => x,
        };
        let ghost l0_map = model::merged(merge_iterator::maps_of(l0@));
        proof {
            lemma_active_sum(l0@);
            lemma_merged_maps_finite(l0@);
            model::lemma_sorted_entries(l0_map);
        }
        let l0_iter = MergeIterator::create(l0);
        let levels = match self.level_iters(w, lower, upper) {
            Err(e) => {
                return Err(e);
            },
            Ok(x) => x,
        };
        let ghost level_map = model::merged(merge_iterator::maps_of(levels@));
        proof {
            lemma_active_sum(levels@);
            lemma_merged_maps_finite(levels@);
            model::lemma_sorted_entries(level_map);
        }
        let level_iter = MergeIterator::create(levels);
        let ghost a = memtable_iter.remaining();
        let ghost b = l0_iter.remaining();
        let ghost c = level_iter.remaining();
        let iter = match TwoMergeIterator::create(memtable_iter, l0_iter) {
            Err(e) => {
                return Err(e);
            },
            Ok(x) => x,
        };
        proof {
            two_merge_iterator::lemma_two_merged_finite(a, b);
            model::lemma_sorted_entries(two_merge_iterator::two_merged(a, b));
        }
        let ghost ab = iter.remaining();
        let iter = match TwoMergeIterator::create(iter, level_iter) {
            Err(e) => {
                return Err(e);
            },
            Ok(x) => x,
        };
        proof {
            two_merge_iterator::lemma_two_merged_finite(ab, c);
            model::lemma_sorted_entries(two_merge_iterator::two_merged(ab, c));
            model::lemma_in_range_prefer(mem_map, l0_map, Bound::Unbounded, up);
            model::lemma_in_range_prefer(
                model::prefer(mem_map, l0_map),
                level_map,
                Bound::Unbounded,
                up,
            );
        }
        Ok(iter)
    }
}

/// The entries of iterators are finite.
pub(crate) proof fn lemma_merged_maps_finite<I: StorageIterator>(iters: Seq<Box<I>>)
    ensures
        model::merged(merge_iterator::maps_of(iters)).dom().finite(),
{
    let ms = merge_iterator::maps_of(iters);
    assert forall|i: int| 0 <= i < ms.len() implies (#[trigger] ms[i]).dom().finite() by {
        model::lemma_entry_map_finite(iters[i].remaining());
    }
    model::lemma_merged_finite(ms);
}

/// Some entries of a run, with all of those within a range.
spec fn part_of(
    part: Seq<Entry>,
    whole: Seq<Entry>,
    lower: Bound<Seq<u8>>,
    upper: Bound<Seq<u8>>,
) -> bool {
    &&& model::sorted(part)
    &&& model::sorted(whole)
    &&& forall|i: int| 0 <= i < part.len() ==> whole.contains(#[trigger] part[i])
    &&& model::in_range(model::entry_map(part), lower, upper) == model::in_range(
        model::entry_map(whole),
        lower,
        upper,
    )
}

proof fn lemma_part_kept(
    part: Seq<Entry>,
    whole: Seq<Entry>,
    here: Seq<Entry>,
    lower: Bound<Seq<u8>>,
    upper: Bound<Seq<u8>>,
)
    requires
        part_of(part, whole, lower, upper),
        model::sorted(whole + here),
    ensures
        part_of(part + here, whole + here, lower, upper),
{
    model::lemma_sorted_parts(whole, here);
    if part.len() > 0 && here.len() > 0 {
        let x = part[part.len() - 1];
        assert(whole.contains(x));
        let i = whole.index_of(x);
        assert(key::key_lt(whole[i].key, here[0].key));
    }
    model::lemma_sorted_append(part, here);
    model::lemma_entry_map_append(part, here);
    model::lemma_entry_map_append(whole, here);
    model::lemma_in_range_prefer(model::entry_map(part), model::entry_map(here), lower, upper);
    model::lemma_in_range_prefer(model::entry_map(whole), model::entry_map(here), lower, upper);
    let p = part + here;
    let q = whole + here;
    assert forall|i: int| 0 <= i < p.len() implies q.contains(#[trigger] p[i]) by {
        if i < part.len() {
            assert(whole.contains(part[i]));
            let j = whole.index_of(part[i]);
            assert(q[j] == p[i]);
        } else {
            assert(q[whole.len() + (i - part.len())] == p[i]);
        }
    }
}

proof fn lemma_part_left(
    part: Seq<Entry>,
    whole: Seq<Entry>,
    here: Seq<Entry>,
    lower: Bound<Seq<u8>>,
    upper: Bound<Seq<u8>>,
)
    requires
        part_of(part, whole, lower, upper),
        model::sorted(whole + here),
        model::in_range(model::entry_map(here), lower, upper) == Map::<KeyTs, Seq<u8>>::empty(),
    ensures
        part_of(part, whole + here, lower, upper),
{
    model::lemma_entry_map_append(whole, here);
    model::lemma_in_range_prefer(model::entry_map(whole), model::entry_map(here), lower, upper);
    let m = model::in_range(model::entry_map(whole), lower, upper);
    assert(model::prefer(m, Map::empty()) =~= m);
    let q = whole + here;
    assert forall|i: int| 0 <= i < part.len() implies q.contains(#[trigger] part[i]) by {
        assert(whole.contains(part[i]));
        let j = whole.index_of(part[i]);
        assert(q[j] == part[i]);
    }
}

/// The bytes that a reader gets, as a mathematical value.
pub open spec fn value_of(r: Option<Bytes>) -> Option<Seq<u8>> {
    match r {
        None => None,
        Some(b) => Some(deps::bytes_seq(b)),
    }
}

impl LsmStorageState {
    /// The value that a reader at `read_ts` gets for a user key. There is none for the empty one.
    pub fn get_with_ts(&self, key: &[u8], read_ts: u64) -> (r: Result<Option<Bytes>, LsmError>)
        requires
            self.wf(),
            self.countable(),
        ensures
            r is Ok,
            value_of(r->Ok_0) == if key@.len() == 0 {
                None
            } else {
                model::lookup(self.versions(), key@, read_ts)
            },
    {
        let mut iter = match self.iter_over(
            Wanted::Key(key),
            Bound::Included(key),
            Bound::Included(key),
        ) {
            Err(e) => {
                return Err(e);
            },
            Ok(it) => it,
        };
        let ghost view = self.view_in(Bound::Included(key@), Bound::Included(key@));
        let ghost all = model::entry_map(iter.remaining());
        proof {
            self.lemma_key_view(key@, read_ts);
            lemma_key_lookup(all, view, key@, read_ts);
            let s = iter.remaining();
            iter.lemma_remaining_sorted();
            assert forall|i: int| 0 <= i < s.len() implies key::bytes_le(
                key@,
                (#[trigger] s[i]).key.key,
            ) by {
                model::lemma_entry_map_index(s, i);
            }
        }
        // Advance past versions newer than the snapshot.
        while iter.is_valid() && key::bytes_equal(iter.key().key_ref(), key) && iter.key().ts()
            > read_ts
            invariant
                iter.wf(),
                iterators::never_fails(iter),
                model::lookup(model::entry_map(iter.remaining()), key@, read_ts) == model::lookup(
                    all,
                    key@,
                    read_ts,
                ),
                forall|i: int|
                    0 <= i < iter.remaining().len() ==> key::bytes_le(
                        key@,
                        (#[trigger] iter.remaining()[i]).key.key,
                    ),
            ensures
                iter.remaining().len() > 0 && iter.remaining()[0].key.key == key@
                    ==> iter.remaining()[0].key.ts <= read_ts,
            decreases iter.remaining().len(),
        {
            proof {
                let s = iter.remaining();
                iter.lemma_remaining_sorted();
                model::lemma_entry_map_skip(s);
                model::lemma_lookup_same(
                    model::entry_map(s.skip(1)),
                    model::entry_map(s),
                    key@,
                    read_ts,
                );
                assert forall|i: int| 0 <= i < s.skip(1).len() implies key::bytes_le(
                    key@,
                    (#[trigger] s.skip(1)[i]).key.key,
                ) by {
                    assert(s.skip(1)[i] == s[i + 1]);
                }
            }
            match iter.next() {
                Err(e) => {
                    return Err(e);
                },
                Ok(()) => {},
            }
        }
        proof {
            let s = iter.remaining();
            iter.lemma_remaining_sorted();
            if s.len() > 0 && s[0].key.key == key@ {
                lsm_iterator::lemma_first_seen(s, read_ts);
            } else {
                lemma_not_there(s, key@, read_ts);
            }
        }
        if iter.is_valid() && key::bytes_equal(iter.key().key_ref(), key) && iter.value().len()
            > 0 {
            return Ok(Some(deps::bytes_copy(iter.value())));
        }
        Ok(None)
    }

    /// An iterator over what a reader at `read_ts` sees within a range.
    pub fn scan_with_ts<'a>(&'a self, lower: Bound<&[u8]>, upper: Bound<&[u8]>, read_ts: u64) -> (r:
        Result<FusedIterator<LsmIterator<'a>>, LsmError>)
        requires
            self.wf(),
            self.countable(),
        ensures
            r is Ok,
            r->Ok_0.wf(),
            iterators::never_fails(r->Ok_0),
            forall|i: int|
                0 <= i < r->Ok_0.remaining().len() ==> model::within(
                    (#[trigger] r->Ok_0.remaining()[i]).key.key,
                    model::bound(lower),
                    model::bound(upper),
                ) && r->Ok_0.remaining()[i].value.len() > 0,
            r->Ok_0.active() <= self.sources(),
            r->Ok_0.active() == self.scan_sources(model::bound(lower), model::bound(upper)),
            r->Ok_0.remaining() == model::sorted_entries(
                model::visible(
                    self.view_in(model::bound(lower), model::bound(upper)),
                    read_ts,
                ),
            ),
            model::visible(
                self.view_in(model::bound(lower), model::bound(upper)),
                read_ts,
            ).dom().finite(),
            self.keys_nonempty() ==> r->Ok_0.remaining() == model::sorted_entries(
                model::in_range(
                    model::visible(self.versions(), read_ts),
                    model::bound(lower),
                    model::bound(upper),
                ),
            ),
    {
        let ghost lo = model::bound(lower);
        let ghost up = model::bound(upper);
        let iter = match self.iter_over(Wanted::Range, lower, upper) {
            Err(e) => {
                return Err(e);
            },
            Ok(it) => it,
        };
        let ghost m = model::entry_map(iter.remaining());
        proof {
            model::lemma_visible_in_range(m, read_ts, Bound::Unbounded, up);
            lsm_iterator::lemma_visible_finite(iter.remaining(), read_ts, up);
            assert(model::visible(self.view_in(lo, up), read_ts).dom().finite());
            lemma_run_within(*self, lo, up, read_ts);
            if self.keys_nonempty() {
                self.lemma_view(lo, up);
                model::lemma_visible_in_range(self.versions(), read_ts, lo, up);
            }
        }
        match LsmIterator::new(iter, mem_table::map_bound(upper), read_ts) {
            Err(e) => Err(e),
            Ok(it) => Ok(FusedIterator::new(it)),
        }
    }

    /// Without empty user keys a scan shows all versions within the range.
    pub proof fn lemma_view(&self, lower: Bound<Seq<u8>>, upper: Bound<Seq<u8>>)
        requires
            forall|i: int, k: KeyTs|
                0 <= i < self.memtables().len() && #[trigger] model::in_range(
                    self.memtables()[i].versions(),
                    lower,
                    upper,
                ).contains_key(k) ==> k.key.len() > 0,
        ensures
            self.view_in(lower, upper) == model::in_range(self.versions(), lower, upper),
    {
        let ms = self.memtables();
        let a = ms.map_values(|m: MemTable| lsm_storage::mem_view(m.versions(), lower, upper));
        let b = ms.map_values(|m: MemTable| m.versions());
        assert forall|i: int| 0 <= i < ms.len() implies #[trigger] a[i] == model::in_range(
            b[i],
            lower,
            upper,
        ) by {
            let r = model::in_range(ms[i].versions(), lower, upper);
            assert(!(exists|k: KeyTs| #[trigger] r.contains_key(k) && k.key.len() == 0));
        }
        lemma_in_range_merged(a, b, lower, upper);
        model::lemma_in_range_prefer(self.mem_versions(), self.l0_versions(), lower, upper);
        model::lemma_in_range_prefer(
            model::prefer(self.mem_versions(), self.l0_versions()),
            self.level_versions(),
            lower,
            upper,
        );
    }

    /// A read of a user key that is not empty sees all its versions; one of the empty user key
    /// sees none.
    proof fn lemma_key_view(&self, uk: Seq<u8>, ts: u64)
        requires
            self.wf(),
        ensures
            model::lookup(self.view_in(Bound::Included(uk), Bound::Included(uk)), uk, ts) == if uk.len()
                == 0 {
                None
            } else {
                model::lookup(self.versions(), uk, ts)
            },
            forall|k: KeyTs| #[trigger]
                self.view_in(Bound::Included(uk), Bound::Included(uk)).contains_key(k) ==> k.key
                    == uk,
    {
        broadcast use crate::key::lemma_bytes_order;

        let b = Bound::Included(uk);
        if uk.len() > 0 {
            self.lemma_view(b, b);
            model::lemma_lookup_same(self.view_in(b, b), self.versions(), uk, ts);
        } else {
            let none = Map::<KeyTs, Seq<u8>>::empty();
            let ms = self.memtables();
            let views = ms.map_values(|m: MemTable| lsm_storage::mem_view(m.versions(), b, b));
            assert forall|k: KeyTs| !#[trigger] model::merged(views).contains_key(k) by {
                if model::merged(views).contains_key(k) {
                    let i = model::lemma_merged_first(views, k);
                    let r = model::in_range(ms[i].versions(), b, b);
                    assert(r.contains_key(k));
                }
            }
            assert forall|k: KeyTs| !#[trigger] model::in_range(
                self.l0_versions(),
                b,
                b,
            ).contains_key(k) by {
                let maps = lsm_storage::table_maps(self.sstables@, self.l0_sstables@);
                if model::in_range(self.l0_versions(), b, b).contains_key(k) {
                    let i = model::lemma_merged_first(maps, k);
                    lemma_table_keys(self.sstables@[self.l0_sstables@[i]], k);
                }
            }
            assert forall|k: KeyTs| !#[trigger] model::in_range(
                self.level_versions(),
                b,
                b,
            ).contains_key(k) by {
                let maps = lsm_storage::level_maps(self.sstables@, self.levels@);
                if model::in_range(self.level_versions(), b, b).contains_key(k) {
                    let i = model::lemma_merged_first(maps, k);
                    let ids = self.levels@[i].1@;
                    let rs = lsm_storage::table_runs(self.sstables@, ids);
                    let x = model::lemma_entry_map_key(model::concat(rs), k);
                    let (j, y) = model::lemma_concat_from(rs, x);
                    assert(lsm_storage::level_ok(self.sstables@, self.levels@[i].1@));
                    let t = self.sstables@[ids[j]];
                    model::lemma_entry_map_index(t.entries(), y);
                    lemma_table_keys(t, k);
                }
            }
            assert(self.view_in(b, b) =~= none);
            model::lemma_lookup_none(none, uk, ts);
        }
    }
}

/// No user key in a table is empty.
pub proof fn lemma_table_keys(table: SsTable, k: KeyTs)
    requires
        table.wf(),
        model::entry_map(table.entries()).contains_key(k),
    ensures
        k.key.len() > 0,
{
    let l = table.layout();
    let x = model::lemma_entry_map_key(table.entries(), k);
    let (i, j) = model::lemma_concat_from(l.blocks(), x);
    assert(l.block_ok(i));
    assert(l.blocks()[i] == l.block(i));
    let data = crate::block::decoded_data(l.raw(i));
    let offsets = crate::block::decoded_offsets(l.raw(i));
    assert(l.block(i)[j] == crate::block::entry_at(
        data,
        crate::block::first_key_of(data).key,
        offsets[j] as int,
    ));
}

/// Restricting each of some collections restricts them together.
proof fn lemma_in_range_merged(
    a: Seq<Versions>,
    b: Seq<Versions>,
    lower: Bound<Seq<u8>>,
    upper: Bound<Seq<u8>>,
)
    requires
        a.len() == b.len(),
        forall|i: int| 0 <= i < a.len() ==> #[trigger] a[i] == model::in_range(b[i], lower, upper),
    ensures
        model::merged(a) == model::in_range(model::merged(b), lower, upper),
    decreases a.len(),
{
    if a.len() == 0 {
        assert(model::merged(a) =~= model::in_range(model::merged(b), lower, upper));
    } else {
        assert forall|i: int| 0 <= i < a.skip(1).len() implies #[trigger] a.skip(1)[i]
            == model::in_range(b.skip(1)[i], lower, upper) by {
            assert(a.skip(1)[i] == a[i + 1]);
        }
        lemma_in_range_merged(a.skip(1), b.skip(1), lower, upper);
        assert(a[0] == model::in_range(b[0], lower, upper));
        model::lemma_in_range_prefer(b[0], model::merged(b.skip(1)), lower, upper);
    }
}

/// A collection whose part up to a user key has that user key alone.
proof fn lemma_key_lookup(all: Versions, view: Versions, uk: Seq<u8>, ts: u64)
    requires
        model::in_range(all, Bound::Unbounded, Bound::Included(uk)) == view,
        forall|k: KeyTs| #[trigger] view.contains_key(k) ==> k.key == uk,
    ensures
        model::lookup(all, uk, ts) == model::lookup(view, uk, ts),
        forall|k: KeyTs| #[trigger] all.contains_key(k) ==> key::bytes_le(uk, k.key),
{
    broadcast use crate::key::lemma_bytes_order;

    assert forall|k: KeyTs| #[trigger] all.contains_key(k) implies key::bytes_le(uk, k.key) by {
        if !key::bytes_le(uk, k.key) {
            assert(key::bytes_lt(k.key, uk));
            assert(view.contains_key(k));
        }
    }
    assert forall|t: u64| #[trigger] all.contains_key(KeyTs { key: uk, ts: t }) <==> view.contains_key(
        KeyTs { key: uk, ts: t },
    ) by {}
    model::lemma_lookup_same(all, view, uk, ts);
}

/// A run that begins behind a user key has no version of it.
proof fn lemma_not_there(s: Seq<Entry>, uk: Seq<u8>, ts: u64)
    requires
        model::sorted(s),
        forall|i: int| 0 <= i < s.len() ==> key::bytes_le(uk, (#[trigger] s[i]).key.key),
        s.len() > 0 ==> s[0].key.key != uk,
    ensures
        model::lookup(model::entry_map(s), uk, ts) is None,
{
    broadcast use crate::key::lemma_bytes_order;

    let m = model::entry_map(s);
    assert forall|t: u64| t <= ts implies !#[trigger] m.contains_key(KeyTs { key: uk, ts: t }) by {
        if m.contains_key(KeyTs { key: uk, ts: t }) {
            let i = model::lemma_entry_map_key(s, KeyTs { key: uk, ts: t });
            lsm_iterator::lemma_user_keys(s, 0, i);
            assert(key::bytes_le(uk, s[0].key.key));
        }
    }
    model::lemma_lookup_none(m, uk, ts);
}

/// What a read of a user key gives: the value of the newest version that is not newer than the
/// reader, if there is one and it is no mark of deletion. The empty user key is never found.
pub proof fn lemma_read(i: LsmStorageInner, uk: Seq<u8>, ts: u64, v: Seq<u8>)
    ensures
        i.reads_at(uk, ts) == Some(v) <==> uk.len() > 0 && v.len() > 0 && exists|t: u64|
            {
                &&& t <= ts
                &&& #[trigger] i.state.versions().contains_key(KeyTs { key: uk, ts: t })
                &&& i.state.versions()[KeyTs { key: uk, ts: t }] == v
                &&& forall|u: u64|
                    t < u <= ts ==> !#[trigger] i.state.versions().contains_key(
                        KeyTs { key: uk, ts: u },
                    )
            },
        i.reads(uk) == i.reads_at(uk, i.mvcc.latest()),
{
    model::lemma_lookup_newest(i.state.versions(), uk, ts, v);
}

/// What feeds a scan and what does not: tables whose first key lies behind the range or whose last key
/// lies before it do not, nor tables without entries; a memtable without versions in the range does
/// not.
pub proof fn lemma_scan_sources(s: LsmStorageState, lower: Bound<Seq<u8>>, upper: Bound<Seq<u8>>, i: int)
    ensures
        s.scan_sources(lower, upper) == count(s.mem_flags(lower, upper)) + count(
            s.l0_flags(lower, upper),
        ) + count(s.level_flags(lower, upper)),
        s.mem_flags(lower, upper).len() == s.memtables().len(),
        s.l0_flags(lower, upper).len() == s.l0_sstables@.len(),
        s.level_flags(lower, upper).len() == s.levels@.len(),
        0 <= i < s.memtables().len() && (forall|k: KeyTs| #[trigger]
            s.memtables()[i].versions().contains_key(k) ==> !model::within(k.key, lower, upper))
            ==> !s.mem_flags(lower, upper)[i],
        0 <= i < s.l0_sstables@.len() ==> {
            let t = s.sstables@[s.l0_sstables@[i]];
            s.l0_flags(lower, upper)[i] <==> t.entries().len() > 0 && model::within(
                t.first().key,
                Bound::Unbounded,
                upper,
            ) && model::within(t.last().key, lower, Bound::Unbounded)
        },
        0 <= i < s.levels@.len() ==> (s.level_flags(lower, upper)[i] <==> exists|j: int|
            {
                let t = s.sstables@[#[trigger] s.levels@[i].1@[j]];
                &&& 0 <= j < s.levels@[i].1@.len()
                &&& t.entries().len() > 0
                &&& model::within(t.first().key, Bound::Unbounded, upper)
                &&& model::within(t.last().key, lower, Bound::Unbounded)
            }),
{
    if 0 <= i < s.memtables().len() && s.mem_flags(lower, upper)[i] {
        let m = s.memtables()[i].versions();
        let k = choose|k: KeyTs| #[trigger] lsm_storage::mem_view(m, lower, upper).contains_key(k);
        model::lemma_within(m, lower, upper, k);
        assert(m.contains_key(k));
    }
}

/// A scan shows user keys in its range alone.
pub proof fn lemma_scan_within(
    s: LsmStorageState,
    lower: Bound<Seq<u8>>,
    upper: Bound<Seq<u8>>,
    ts: u64,
    k: KeyTs,
)
    requires
        model::visible(s.view_in(lower, upper), ts).contains_key(k),
    ensures
        model::within(k.key, lower, upper),
        k.ts == key::TS_DEFAULT,
        model::visible(s.view_in(lower, upper), ts)[k].len() > 0,
{
    let view = s.view_in(lower, upper);
    let v = model::lookup(view, k.key, ts)->0;
    model::lemma_lookup_newest(view, k.key, ts, v);
    let t = choose|t: u64|
        {
            &&& t <= ts
            &&& #[trigger] view.contains_key(KeyTs { key: k.key, ts: t })
            &&& view[KeyTs { key: k.key, ts: t }] == v
            &&& forall|u: u64|
                t < u <= ts ==> !#[trigger] view.contains_key(KeyTs { key: k.key, ts: u })
        };
    let q = KeyTs { key: k.key, ts: t };
    let ms = s.memtables().map_values(
        |m: MemTable| lsm_storage::mem_view(m.versions(), lower, upper),
    );
    if model::merged(ms).contains_key(q) {
        let i = model::lemma_merged_first(ms, q);
        model::lemma_within(s.memtables()[i].versions(), lower, upper, q);
    } else {
        model::lemma_within(s.l0_versions(), lower, upper, q);
        model::lemma_within(s.level_versions(), lower, upper, q);
    }
}

/// What a scan hands out, entry by entry, lies within its range.
proof fn lemma_run_within(
    s: LsmStorageState,
    lower: Bound<Seq<u8>>,
    upper: Bound<Seq<u8>>,
    ts: u64,
)
    requires
        model::visible(s.view_in(lower, upper), ts).dom().finite(),
    ensures
        ({
            let r = model::sorted_entries(model::visible(s.view_in(lower, upper), ts));
            forall|i: int|
                0 <= i < r.len() ==> model::within((#[trigger] r[i]).key.key, lower, upper)
                    && r[i].value.len() > 0
        }),
{
    let m = model::visible(s.view_in(lower, upper), ts);
    let r = model::sorted_entries(m);
    model::lemma_sorted_entries(m);
    assert forall|i: int| 0 <= i < r.len() implies model::within(
        (#[trigger] r[i]).key.key,
        lower,
        upper,
    ) && r[i].value.len() > 0 by {
        model::lemma_entry_map_index(r, i);
        lemma_scan_within(s, lower, upper, ts, r[i].key);
    }
}

/// A scan shows of each user key in its range what a read of the user key gives, if no user key is
/// empty.
pub proof fn lemma_scan_reads(
    s: LsmStorageState,
    lower: Bound<Seq<u8>>,
    upper: Bound<Seq<u8>>,
    uk: Seq<u8>,
    ts: u64,
)
    requires
        s.keys_nonempty(),
        model::after_lower(uk, lower),
        model::before_upper(uk, upper),
    ensures
        ({
            let k = KeyTs { key: uk, ts: key::TS_DEFAULT };
            let view = model::visible(s.view_in(lower, upper), ts);
            &&& view.contains_key(k) <==> model::lookup(s.versions(), uk, ts) is Some
            &&& view.contains_key(k) ==> model::lookup(s.versions(), uk, ts) == Some(view[k])
        }),
{
    s.lemma_view(lower, upper);
    model::lemma_visible_in_range(s.versions(), ts, lower, upper);
}

} // verus!
