//! The mathematical model of stored data: versioned entries, sorted runs of them, and what a
//! reader at some timestamp sees.
use vstd::prelude::*;
use crate::deps::Bound;
use crate::key;
use crate::key::KeyTs;

verus! {

/// One version of one user key. An empty value marks a deletion.
#[verifier::ext_equal]
pub struct Entry {
    pub key: KeyTs,
    pub value: Seq<u8>,
}

/// A collection of versions, addressed by key.
pub type Versions = Map<KeyTs, Seq<u8>>;

/// The keys of `s` strictly ascend.
pub open spec fn sorted(s: Seq<Entry>) -> bool {
    forall|i: int, j: int|
        #![trigger s[i], s[j]]
        0 <= i < j < s.len() ==> key::key_lt(s[i].key, s[j].key)
}

pub open spec fn has_key(s: Seq<Entry>, k: KeyTs) -> bool {
    exists|i: int| 0 <= i < s.len() && (#[trigger] s[i]).key == k
}

/// The value that stands at `k` in `s`.
pub open spec fn value_at(s: Seq<Entry>, k: KeyTs) -> Seq<u8> {
    s[choose|i: int| 0 <= i < s.len() && (#[trigger] s[i]).key == k].value
}

/// A run of entries as a map.
pub open spec fn entry_map(s: Seq<Entry>) -> Versions {
    Map::new(|k: KeyTs| has_key(s, k), |k: KeyTs| value_at(s, k))
}

/// The run, in the order of keys, of the entries of a map.
pub open spec fn sorted_entries(m: Versions) -> Seq<Entry> {
    choose|s: Seq<Entry>| sorted(s) && #[trigger] entry_map(s) == m
}

/// Both collections together; where both hold a key, `a` decides.
pub open spec fn prefer(a: Versions, b: Versions) -> Versions {
    b.union_prefer_right(a)
}

/// All collections together; where several hold a key, the first of them decides.
pub open spec fn merged(ms: Seq<Versions>) -> Versions
    decreases ms.len(),
{
    if ms.len() == 0 {
        Map::empty()
    } else {
        prefer(ms[0], merged(ms.skip(1)))
    }
}

pub proof fn lemma_entry_map_index(s: Seq<Entry>, i: int)
    requires
        sorted(s),
        0 <= i < s.len(),
    ensures
        entry_map(s).contains_key(s[i].key),
        entry_map(s)[s[i].key] == s[i].value,
{
    broadcast use crate::key::group_key_order;

    let k = s[i].key;
    assert(has_key(s, k));
    let j = choose|j: int| 0 <= j < s.len() && (#[trigger] s[j]).key == k;
    if i < j {
        assert(key::key_lt(s[i].key, s[j].key));
    } else if j < i {
        assert(key::key_lt(s[j].key, s[i].key));
    }
}

pub proof fn lemma_entry_map_key(s: Seq<Entry>, k: KeyTs) -> (i: int)
    requires
        entry_map(s).contains_key(k),
    ensures
        0 <= i < s.len(),
        s[i].key == k,
        entry_map(s)[k] == s[i].value,
{
    choose|i: int| 0 <= i < s.len() && (#[trigger] s[i]).key == k
}

/// A sorted run as a map leads each key to the value of the entry with that key.
pub proof fn lemma_entry_map_contains(s: Seq<Entry>, k: KeyTs, v: Seq<u8>)
    requires
        sorted(s),
    ensures
        s.contains(Entry { key: k, value: v }) <==> entry_map(s).contains_key(k) && entry_map(s)[k]
            == v,
{
    if s.contains(Entry { key: k, value: v }) {
        let i = s.index_of(Entry { key: k, value: v });
        lemma_entry_map_index(s, i);
    }
    if entry_map(s).contains_key(k) && entry_map(s)[k] == v {
        let i = lemma_entry_map_key(s, k);
        assert(s[i] == (Entry { key: k, value: v }));
    }
}

pub proof fn lemma_entry_map_skip(s: Seq<Entry>)
    requires
        sorted(s),
        s.len() > 0,
    ensures
        sorted(s.skip(1)),
        entry_map(s.skip(1)) == entry_map(s).remove(s[0].key),
{
    broadcast use crate::key::group_key_order;

    let t = s.skip(1);
    assert forall|i: int, j: int| #![trigger t[i], t[j]] 0 <= i < j < t.len() implies key::key_lt(
        t[i].key,
        t[j].key,
    ) by {
        assert(key::key_lt(s[i + 1].key, s[j + 1].key));
    }
    let m = entry_map(s).remove(s[0].key);
    assert forall|k: KeyTs| #[trigger] entry_map(t).contains_key(k) implies m.contains_key(k)
        && m[k] == entry_map(t)[k] by {
        let i = lemma_entry_map_key(t, k);
        assert(s[i + 1].key == k);
        lemma_entry_map_index(s, i + 1);
        assert(key::key_lt(s[0].key, s[i + 1].key));
    }
    assert forall|k: KeyTs| #[trigger] m.contains_key(k) implies entry_map(t).contains_key(k) by {
        let i = lemma_entry_map_key(s, k);
        assert(t[i - 1].key == k);
    }
    assert(entry_map(t) =~= m);
}

pub proof fn lemma_sorted_unique(s: Seq<Entry>, t: Seq<Entry>)
    requires
        sorted(s),
        sorted(t),
        entry_map(s) == entry_map(t),
    ensures
        s == t,
    decreases s.len(),
{
    broadcast use crate::key::group_key_order;

    if s.len() == 0 {
        if t.len() > 0 {
            lemma_entry_map_index(t, 0);
            let i = lemma_entry_map_key(s, t[0].key);
        }
        assert(s =~= t);
    } else {
        lemma_entry_map_index(s, 0);
        let j = lemma_entry_map_key(t, s[0].key);
        lemma_entry_map_index(t, 0);
        let i = lemma_entry_map_key(s, t[0].key);
        assert(s[0].key == t[0].key) by {
            if i > 0 && j > 0 {
                assert(key::key_lt(s[0].key, s[i].key));
                assert(key::key_lt(t[0].key, t[j].key));
            }
        }
        lemma_entry_map_skip(s);
        lemma_entry_map_skip(t);
        lemma_sorted_unique(s.skip(1), t.skip(1));
        assert(s[0] == t[0]);
        assert(s =~= seq![s[0]] + s.skip(1));
        assert(t =~= seq![t[0]] + t.skip(1));
    }
}

/// A sorted run is the run of its own map.
pub proof fn lemma_sorted_entries_of(s: Seq<Entry>)
    requires
        sorted(s),
    ensures
        sorted_entries(entry_map(s)) == s,
{
    let t = sorted_entries(entry_map(s));
    assert(sorted(s) && entry_map(s) == entry_map(s));
    assert(sorted(t) && entry_map(t) == entry_map(s));
    lemma_sorted_unique(s, t);
}

spec fn inserted(s: Seq<Entry>, e: Entry) -> Seq<Entry>
    decreases s.len(),
{
    if s.len() == 0 {
        seq![e]
    } else if key::key_lt(e.key, s[0].key) {
        seq![e] + s
    } else {
        seq![s[0]] + inserted(s.skip(1), e)
    }
}

proof fn lemma_inserted(s: Seq<Entry>, e: Entry)
    requires
        sorted(s),
        !has_key(s, e.key),
    ensures
        sorted(inserted(s, e)),
        forall|k: KeyTs| #[trigger]
            has_key(inserted(s, e), k) <==> has_key(s, k) || k == e.key,
        forall|i: int|
            0 <= i < inserted(s, e).len() ==> (#[trigger] inserted(s, e)[i] == e || has_key(
                s,
                inserted(s, e)[i].key,
            ) && entry_map(s)[inserted(s, e)[i].key] == inserted(s, e)[i].value),
    decreases s.len(),
{
    broadcast use crate::key::group_key_order;

    let r = inserted(s, e);
    if s.len() == 0 {
        assert(r[0] == e);
        assert forall|k: KeyTs| #[trigger] has_key(r, k) <==> has_key(s, k) || k == e.key by {
            if k == e.key {
                assert(r[0].key == k);
            }
        }
    } else if key::key_lt(e.key, s[0].key) {
        assert forall|i: int, j: int| #![trigger r[i], r[j]] 0 <= i < j < r.len() implies key::key_lt(
            r[i].key,
            r[j].key,
        ) by {
            if i == 0 {
                assert(r[j] == s[j - 1]);
                if j > 1 {
                    assert(key::key_lt(s[0].key, s[j - 1].key));
                }
            } else {
                assert(key::key_lt(s[i - 1].key, s[j - 1].key));
            }
        }
        assert forall|k: KeyTs| #[trigger] has_key(r, k) <==> has_key(s, k) || k == e.key by {
            if has_key(s, k) {
                let i = choose|i: int| 0 <= i < s.len() && (#[trigger] s[i]).key == k;
                assert(r[i + 1].key == k);
            }
            if k == e.key {
                assert(r[0].key == k);
            }
            if has_key(r, k) {
                let i = choose|i: int| 0 <= i < r.len() && (#[trigger] r[i]).key == k;
                if i > 0 {
                    assert(s[i - 1].key == k);
                }
            }
        }
        assert forall|i: int| 0 <= i < r.len() implies (#[trigger] r[i] == e || has_key(s, r[i].key)
            && entry_map(s)[r[i].key] == r[i].value) by {
            if i > 0 {
                assert(r[i] == s[i - 1]);
                lemma_entry_map_index(s, i - 1);
            }
        }
    } else {
        let t = s.skip(1);
        lemma_entry_map_skip(s);
        assert(!has_key(t, e.key)) by {
            if has_key(t, e.key) {
                let i = choose|i: int| 0 <= i < t.len() && (#[trigger] t[i]).key == e.key;
                assert(s[i + 1].key == e.key);
            }
        }
        lemma_inserted(t, e);
        let q = inserted(t, e);
        assert(s[0].key != e.key) by {
            if s[0].key == e.key {
                assert(has_key(s, e.key));
            }
        }
        assert(key::key_lt(s[0].key, e.key));
        assert forall|i: int| 0 <= i < q.len() implies key::key_lt(s[0].key, #[trigger] q[i].key) by {
            if q[i] != e {
                let j = choose|j: int| 0 <= j < t.len() && (#[trigger] t[j]).key == q[i].key;
                assert(s[j + 1].key == q[i].key);
                assert(key::key_lt(s[0].key, s[j + 1].key));
            }
        }
        assert forall|i: int, j: int| #![trigger r[i], r[j]] 0 <= i < j < r.len() implies key::key_lt(
            r[i].key,
            r[j].key,
        ) by {
            assert(r[j] == q[j - 1]);
            if i > 0 {
                assert(r[i] == q[i - 1]);
            }
        }
        assert forall|k: KeyTs| #[trigger] has_key(r, k) <==> has_key(s, k) || k == e.key by {
            if has_key(r, k) {
                let i = choose|i: int| 0 <= i < r.len() && (#[trigger] r[i]).key == k;
                if i == 0 {
                    assert(s[0].key == k);
                } else {
                    assert(q[i - 1].key == k);
                    assert(has_key(q, k));
                    if k != e.key {
                        let j = choose|j: int| 0 <= j < t.len() && (#[trigger] t[j]).key == k;
                        assert(s[j + 1].key == k);
                    }
                }
            }
            if has_key(s, k) || k == e.key {
                if k == s[0].key {
                    assert(r[0].key == k);
                } else {
                    if has_key(s, k) {
                        let i = choose|i: int| 0 <= i < s.len() && (#[trigger] s[i]).key == k;
                        assert(t[i - 1].key == k);
                    }
                    assert(has_key(q, k));
                    let j = choose|j: int| 0 <= j < q.len() && (#[trigger] q[j]).key == k;
                    assert(r[j + 1].key == k);
                }
            }
        }
        assert forall|i: int| 0 <= i < r.len() implies (#[trigger] r[i] == e || has_key(s, r[i].key)
            && entry_map(s)[r[i].key] == r[i].value) by {
            if i == 0 {
                lemma_entry_map_index(s, 0);
            } else {
                assert(r[i] == q[i - 1]);
                if q[i - 1] != e {
                    assert(has_key(t, q[i - 1].key));
                    let j = choose|j: int| 0 <= j < t.len() && (#[trigger] t[j]).key == q[i - 1].key;
                    assert(s[j + 1].key == r[i].key);
                    assert(entry_map(t)[r[i].key] == entry_map(s)[r[i].key]);
                }
            }
        }
    }
}

/// Every finite map has a sorted run.
pub proof fn lemma_sorted_entries(m: Versions)
    requires
        m.dom().finite(),
    ensures
        sorted(sorted_entries(m)),
        entry_map(sorted_entries(m)) == m,
    decreases m.dom().len(),
{
    assert(exists|s: Seq<Entry>| sorted(s) && #[trigger] entry_map(s) == m) by {
        if m.dom().len() == 0 {
            let s = Seq::<Entry>::empty();
            assert(m.dom() =~= Set::empty());
            assert(sorted(s) && entry_map(s) =~= m);
        } else {
            let k = m.dom().choose();
            let n = m.remove(k);
            assert(n.dom() =~= m.dom().remove(k));
            lemma_sorted_entries(n);
            let s = sorted_entries(n);
            let e = Entry { key: k, value: m[k] };
            assert(!has_key(s, k)) by {
                if has_key(s, k) {
                    assert(entry_map(s).contains_key(k));
                }
            }
            lemma_inserted(s, e);
            let r = inserted(s, e);
            assert forall|q: KeyTs| #[trigger] m.contains_key(q) <==> entry_map(r).contains_key(
                q,
            ) by {
                assert(has_key(r, q) <==> has_key(s, q) || q == k);
                assert(entry_map(s).contains_key(q) <==> n.contains_key(q));
            }
            assert forall|q: KeyTs| #[trigger] entry_map(r).contains_key(q) implies entry_map(r)[q]
                == m[q] by {
                let i = lemma_entry_map_key(r, q);
                if r[i] != e {
                    assert(entry_map(s)[q] == n[q]);
                    assert(has_key(s, q));
                    assert(q != k);
                }
            }
            assert(entry_map(r) =~= m);
        }
    }
}

pub proof fn lemma_entry_map_finite(s: Seq<Entry>)
    ensures
        entry_map(s).dom().finite(),
{
    let keys = s.map_values(|e: Entry| e.key);
    assert(entry_map(s).dom() =~= keys.to_set()) by {
        assert forall|k: KeyTs| #[trigger] entry_map(s).dom().contains(k) <==> keys.to_set().contains(
            k,
        ) by {
            if has_key(s, k) {
                let i = choose|i: int| 0 <= i < s.len() && (#[trigger] s[i]).key == k;
                assert(keys[i] == k);
            }
            if keys.contains(k) {
                let i = choose|i: int| 0 <= i < keys.len() && keys[i] == k;
                assert(s[i].key == k);
            }
        }
    }
}

/// The run of a map begins with the map's least key, and goes on with the run of the rest.
pub proof fn lemma_sorted_entries_head(m: Versions, k: KeyTs)
    requires
        m.dom().finite(),
        m.contains_key(k),
        forall|q: KeyTs| #[trigger] m.contains_key(q) ==> key::key_le(k, q),
    ensures
        sorted_entries(m).len() > 0,
        sorted_entries(m)[0] == (Entry { key: k, value: m[k] }),
        sorted_entries(m).skip(1) == sorted_entries(m.remove(k)),
{
    broadcast use crate::key::group_key_order;

    lemma_sorted_entries(m);
    let s = sorted_entries(m);
    let i = lemma_entry_map_key(s, k);
    lemma_entry_map_index(s, 0);
    assert(m.contains_key(s[0].key));
    if i > 0 {
        assert(key::key_lt(s[0].key, s[i].key));
    }
    lemma_entry_map_skip(s);
    lemma_sorted_entries_of(s.skip(1));
}

pub proof fn lemma_sorted_entries_empty(m: Versions)
    requires
        m == Map::<KeyTs, Seq<u8>>::empty(),
    ensures
        sorted_entries(m) == Seq::<Entry>::empty(),
{
    let s = Seq::<Entry>::empty();
    assert(entry_map(s) =~= m);
    lemma_sorted_entries_of(s);
}

pub proof fn lemma_merged_none(ms: Seq<Versions>, k: KeyTs)
    requires
        forall|j: int| 0 <= j < ms.len() ==> !(#[trigger] ms[j]).contains_key(k),
    ensures
        !merged(ms).contains_key(k),
    decreases ms.len(),
{
    if ms.len() > 0 {
        assert forall|j: int| 0 <= j < ms.skip(1).len() implies !(#[trigger] ms.skip(
            1,
        )[j]).contains_key(k) by {
            assert(ms.skip(1)[j] == ms[j + 1]);
        }
        lemma_merged_none(ms.skip(1), k);
        assert(!ms[0].contains_key(k));
    }
}

/// The first collection that holds a key decides.
pub proof fn lemma_merged_at(ms: Seq<Versions>, k: KeyTs, i: int)
    requires
        0 <= i < ms.len(),
        ms[i].contains_key(k),
        forall|j: int| 0 <= j < i ==> !(#[trigger] ms[j]).contains_key(k),
    ensures
        merged(ms).contains_key(k),
        merged(ms)[k] == ms[i][k],
    decreases ms.len(),
{
    if i > 0 {
        assert(!ms[0].contains_key(k));
        assert forall|j: int| 0 <= j < i - 1 implies !(#[trigger] ms.skip(1)[j]).contains_key(k) by {
            assert(ms.skip(1)[j] == ms[j + 1]);
        }
        assert(ms.skip(1)[i - 1] == ms[i]);
        lemma_merged_at(ms.skip(1), k, i - 1);
    }
}

pub proof fn lemma_merged_first(ms: Seq<Versions>, k: KeyTs) -> (i: int)
    requires
        merged(ms).contains_key(k),
    ensures
        0 <= i < ms.len(),
        ms[i].contains_key(k),
        forall|j: int| 0 <= j < i ==> !(#[trigger] ms[j]).contains_key(k),
        merged(ms)[k] == ms[i][k],
    decreases ms.len(),
{
    if ms[0].contains_key(k) {
        0
    } else {
        let i = lemma_merged_first(ms.skip(1), k);
        assert(ms.skip(1)[i] == ms[i + 1]);
        assert forall|j: int| 0 <= j < i + 1 implies !(#[trigger] ms[j]).contains_key(k) by {
            if j > 0 {
                assert(ms.skip(1)[j - 1] == ms[j]);
            }
        }
        i + 1
    }
}

pub proof fn lemma_merged_finite(ms: Seq<Versions>)
    requires
        forall|i: int| 0 <= i < ms.len() ==> (#[trigger] ms[i]).dom().finite(),
    ensures
        merged(ms).dom().finite(),
    decreases ms.len(),
{
    if ms.len() > 0 {
        assert forall|i: int| 0 <= i < ms.skip(1).len() implies (#[trigger] ms.skip(
            1,
        )[i]).dom().finite() by {
            assert(ms.skip(1)[i] == ms[i + 1]);
        }
        lemma_merged_finite(ms.skip(1));
        assert(ms[0].dom().finite());
        assert(merged(ms).dom() =~= merged(ms.skip(1)).dom().union(ms[0].dom()));
    } else {
        assert(merged(ms).dom() =~= Set::empty());
    }
}

/// The part of a run that begins with the first key at or above `k`.
pub open spec fn from_key(s: Seq<Entry>, k: KeyTs) -> Seq<Entry>
    decreases s.len(),
{
    if s.len() == 0 || key::key_le(k, s[0].key) {
        s
    } else {
        from_key(s.skip(1), k)
    }
}

pub proof fn lemma_from_key(s: Seq<Entry>, k: KeyTs, pos: int)
    requires
        0 <= pos <= s.len(),
        forall|i: int| 0 <= i < pos ==> key::key_lt((#[trigger] s[i]).key, k),
        pos < s.len() ==> key::key_le(k, s[pos].key),
    ensures
        from_key(s, k) == s.skip(pos),
    decreases s.len(),
{
    broadcast use crate::key::group_key_order;

    if pos == 0 {
        assert(s.skip(0) =~= s);
    } else {
        assert(key::key_lt(s[0].key, k));
        let t = s.skip(1);
        assert forall|i: int| 0 <= i < pos - 1 implies key::key_lt((#[trigger] t[i]).key, k) by {
            assert(t[i] == s[i + 1]);
        }
        lemma_from_key(t, k, pos - 1);
        assert(t.skip(pos - 1) =~= s.skip(pos));
    }
}

/// The part of a sorted run from `k` on is an end of the run: what comes before is below `k`, and
/// what it holds is not.
pub proof fn lemma_seek(s: Seq<Entry>, k: KeyTs) -> (n: int)
    requires
        sorted(s),
    ensures
        0 <= n <= s.len(),
        from_key(s, k) == s.skip(n),
        forall|i: int| 0 <= i < n ==> key::key_lt((#[trigger] s[i]).key, k),
        forall|i: int| n <= i < s.len() ==> key::key_le(k, (#[trigger] s[i]).key),
    decreases s.len(),
{
    broadcast use crate::key::group_key_order;

    if s.len() == 0 || key::key_le(k, s[0].key) {
        assert(s.skip(0) =~= s);
        assert forall|i: int| 0 <= i < s.len() implies key::key_le(k, (#[trigger] s[i]).key) by {
            if i > 0 {
                assert(key::key_lt(s[0].key, s[i].key));
            }
        }
        0
    } else {
        let t = s.skip(1);
        let m = lemma_seek(t, k);
        assert(t.skip(m) =~= s.skip(m + 1));
        assert forall|i: int| 0 <= i < m + 1 implies key::key_lt((#[trigger] s[i]).key, k) by {
            if i > 0 {
                assert(t[i - 1] == s[i]);
            }
        }
        assert forall|i: int| m + 1 <= i < s.len() implies key::key_le(
            k,
            (#[trigger] s[i]).key,
        ) by {
            assert(t[i - 1] == s[i]);
        }
        m + 1
    }
}

/// A run that ends below `k` does not matter.
pub proof fn lemma_from_key_after(a: Seq<Entry>, b: Seq<Entry>, k: KeyTs)
    requires
        forall|i: int| 0 <= i < a.len() ==> key::key_lt((#[trigger] a[i]).key, k),
    ensures
        from_key(a + b, k) == from_key(b, k),
    decreases a.len(),
{
    broadcast use crate::key::group_key_order;

    if a.len() == 0 {
        assert(a + b =~= b);
    } else {
        assert(key::key_lt(a[0].key, k));
        assert((a + b)[0] == a[0]);
        let t = a.skip(1);
        assert forall|i: int| 0 <= i < t.len() implies key::key_lt((#[trigger] t[i]).key, k) by {
            assert(t[i] == a[i + 1]);
        }
        assert((a + b).skip(1) =~= t + b);
        lemma_from_key_after(t, b, k);
    }
}

/// What follows a run that reaches `k` stays.
pub proof fn lemma_from_key_within(a: Seq<Entry>, b: Seq<Entry>, k: KeyTs)
    requires
        from_key(a, k).len() > 0,
    ensures
        from_key(a + b, k) == from_key(a, k) + b,
    decreases a.len(),
{
    if a.len() > 0 {
        assert((a + b)[0] == a[0]);
        if !key::key_le(k, a[0].key) {
            assert((a + b).skip(1) =~= a.skip(1) + b);
            lemma_from_key_within(a.skip(1), b, k);
        }
    }
}

/// The part of a sorted run from `k` on holds the entries whose keys are at or above `k`.
pub proof fn lemma_from_key_map(s: Seq<Entry>, k: KeyTs)
    requires
        sorted(s),
    ensures
        sorted(from_key(s, k)),
        from_key(s, k).len() <= s.len(),
        forall|q: KeyTs| #[trigger]
            entry_map(from_key(s, k)).contains_key(q) <==> entry_map(s).contains_key(q)
                && key::key_le(k, q),
        forall|q: KeyTs|
            entry_map(from_key(s, k)).contains_key(q) ==> #[trigger] entry_map(from_key(s, k))[q]
                == entry_map(s)[q],
    decreases s.len(),
{
    broadcast use crate::key::group_key_order;

    if s.len() == 0 {
        assert(entry_map(s) =~= Map::empty());
    } else if key::key_le(k, s[0].key) {
        assert forall|q: KeyTs| #[trigger] entry_map(s).contains_key(q) implies key::key_le(k, q) by {
            let i = lemma_entry_map_key(s, q);
            if i > 0 {
                assert(key::key_lt(s[0].key, s[i].key));
            }
        }
    } else {
        lemma_entry_map_skip(s);
        lemma_from_key_map(s.skip(1), k);
    }
}

pub proof fn lemma_sorted_append(a: Seq<Entry>, b: Seq<Entry>)
    requires
        sorted(a),
        sorted(b),
        a.len() > 0 && b.len() > 0 ==> key::key_lt(a.last().key, b[0].key),
    ensures
        sorted(a + b),
{
    broadcast use crate::key::group_key_order;

    let s = a + b;
    assert forall|i: int, j: int| #![trigger s[i], s[j]] 0 <= i < j < s.len() implies key::key_lt(
        s[i].key,
        s[j].key,
    ) by {
        if j < a.len() {
            assert(key::key_lt(a[i].key, a[j].key));
        } else if i >= a.len() {
            assert(key::key_lt(b[i - a.len()].key, b[j - a.len()].key));
        } else {
            let x = a.len() - 1;
            let y = j - a.len();
            assert(key::key_le(a[i].key, a[x].key)) by {
                if i < x {
                    assert(key::key_lt(a[i].key, a[x].key));
                }
            }
            assert(key::key_le(b[0].key, b[y].key)) by {
                if 0 < y {
                    assert(key::key_lt(b[0].key, b[y].key));
                }
            }
        }
    }
}

pub proof fn lemma_sorted_parts(a: Seq<Entry>, b: Seq<Entry>)
    requires
        sorted(a + b),
    ensures
        sorted(a),
        sorted(b),
        forall|i: int, j: int|
            #![trigger a[i], b[j]]
            0 <= i < a.len() && 0 <= j < b.len() ==> key::key_lt(a[i].key, b[j].key),
{
    let s = a + b;
    assert forall|i: int, j: int| #![trigger a[i], a[j]] 0 <= i < j < a.len() implies key::key_lt(
        a[i].key,
        a[j].key,
    ) by {
        assert(s[i] == a[i] && s[j] == a[j]);
    }
    assert forall|i: int, j: int| #![trigger b[i], b[j]] 0 <= i < j < b.len() implies key::key_lt(
        b[i].key,
        b[j].key,
    ) by {
        assert(s[a.len() + i] == b[i] && s[a.len() + j] == b[j]);
    }
    assert forall|i: int, j: int| #![trigger a[i], b[j]] 0 <= i < a.len() && 0 <= j < b.len() implies
        key::key_lt(a[i].key, b[j].key) by {
        assert(s[i] == a[i] && s[a.len() + j] == b[j]);
    }
}

/// Runs, one after the other.
pub open spec fn concat(ss: Seq<Seq<Entry>>) -> Seq<Entry>
    decreases ss.len(),
{
    if ss.len() == 0 {
        Seq::empty()
    } else {
        ss[0] + concat(ss.skip(1))
    }
}

pub proof fn lemma_concat_split(ss: Seq<Seq<Entry>>, i: int)
    requires
        0 <= i <= ss.len(),
    ensures
        concat(ss) == concat(ss.take(i)) + concat(ss.skip(i)),
    decreases i,
{
    if i == 0 {
        assert(ss.skip(0) =~= ss);
        assert(concat(ss.take(0)) =~= Seq::empty());
        assert(concat(ss.take(0)) + concat(ss) =~= concat(ss));
    } else {
        lemma_concat_split(ss.skip(1), i - 1);
        assert(ss.skip(1).take(i - 1) =~= ss.take(i).skip(1));
        assert(ss.skip(1).skip(i - 1) =~= ss.skip(i));
        assert(concat(ss) =~= concat(ss.take(i)) + concat(ss.skip(i)));
    }
}

pub proof fn lemma_concat_push(ss: Seq<Seq<Entry>>, s: Seq<Entry>)
    ensures
        concat(ss.push(s)) == concat(ss) + s,
{
    let n = ss.len() as int;
    lemma_concat_split(ss.push(s), n);
    assert(ss.push(s).take(n) =~= ss);
    let t = ss.push(s).skip(n);
    assert(t =~= seq![s]);
    assert(concat(t.skip(1)) =~= Seq::empty());
    assert(concat(t) =~= s);
}

/// The runs before `i`, run `i`, and the runs behind it.
pub proof fn lemma_concat_at(ss: Seq<Seq<Entry>>, i: int)
    requires
        0 <= i < ss.len(),
    ensures
        concat(ss) == concat(ss.take(i)) + (ss[i] + concat(ss.skip(i + 1))),
        concat(ss.skip(i)) == ss[i] + concat(ss.skip(i + 1)),
        concat(ss.take(i + 1)) == concat(ss.take(i)) + ss[i],
{
    lemma_concat_split(ss, i);
    assert(ss.skip(i)[0] == ss[i]);
    assert(ss.skip(i).skip(1) =~= ss.skip(i + 1));
    lemma_concat_push(ss.take(i), ss[i]);
    assert(ss.take(i).push(ss[i]) =~= ss.take(i + 1));
}

/// An entry of one of the runs is an entry of all of them together.
pub proof fn lemma_concat_has(ss: Seq<Seq<Entry>>, i: int, j: int) -> (k: int)
    requires
        0 <= i < ss.len(),
        0 <= j < ss[i].len(),
    ensures
        0 <= k < concat(ss).len(),
        concat(ss)[k] == ss[i][j],
{
    lemma_concat_at(ss, i);
    concat(ss.take(i)).len() + j
}

/// An entry of all runs together is an entry of one of them.
pub proof fn lemma_concat_from(ss: Seq<Seq<Entry>>, k: int) -> (r: (int, int))
    requires
        0 <= k < concat(ss).len(),
    ensures
        0 <= r.0 < ss.len(),
        0 <= r.1 < ss[r.0].len(),
        ss[r.0][r.1] == concat(ss)[k],
    decreases ss.len(),
{
    if k < ss[0].len() {
        (0, k)
    } else {
        let r = lemma_concat_from(ss.skip(1), k - ss[0].len());
        assert(ss.skip(1)[r.0] == ss[r.0 + 1]);
        (r.0 + 1, r.1)
    }
}

/// If runs are sorted one after the other, so is each, and earlier ones are below later ones.
pub proof fn lemma_concat_sorted(ss: Seq<Seq<Entry>>, i: int, j: int)
    requires
        sorted(concat(ss)),
        0 <= i < j < ss.len(),
    ensures
        sorted(ss[i]),
        sorted(ss[j]),
        forall|a: int, b: int|
            #![trigger ss[i][a], ss[j][b]]
            0 <= a < ss[i].len() && 0 <= b < ss[j].len() ==> key::key_lt(ss[i][a].key, ss[j][b].key),
{
    lemma_concat_at(ss, i);
    let before = concat(ss.take(i));
    let rest = ss.skip(i + 1);
    lemma_sorted_parts(before, ss[i] + concat(rest));
    lemma_sorted_parts(ss[i], concat(rest));
    lemma_concat_at(rest, j - i - 1);
    assert(rest[j - i - 1] == ss[j]);
    let mid = concat(rest.take(j - i - 1));
    let tail = concat(rest.skip(j - i));
    lemma_sorted_parts(mid, ss[j] + tail);
    lemma_sorted_parts(ss[j], tail);
    assert forall|a: int, b: int|
        #![trigger ss[i][a], ss[j][b]]
        0 <= a < ss[i].len() && 0 <= b < ss[j].len() implies key::key_lt(
        ss[i][a].key,
        ss[j][b].key,
    ) by {
        assert(concat(rest)[mid.len() + b] == ss[j][b]);
    }
}

pub open spec fn larger(a: u64, b: u64) -> u64 {
    if a < b {
        b
    } else {
        a
    }
}

/// The newest timestamp in a run; 0 if it is empty.
pub open spec fn max_ts(s: Seq<Entry>) -> u64
    decreases s.len(),
{
    if s.len() == 0 {
        0
    } else {
        larger(max_ts(s.drop_last()), s.last().key.ts)
    }
}

pub proof fn lemma_max_ts_append(a: Seq<Entry>, b: Seq<Entry>)
    ensures
        max_ts(a + b) == larger(max_ts(a), max_ts(b)),
    decreases b.len(),
{
    if b.len() == 0 {
        assert(a + b =~= a);
    } else {
        assert((a + b).drop_last() =~= a + b.drop_last());
        lemma_max_ts_append(a, b.drop_last());
    }
}

/// The newest timestamp in a run bounds all of them.
pub proof fn lemma_max_ts_bound(s: Seq<Entry>, i: int)
    requires
        0 <= i < s.len(),
    ensures
        s[i].key.ts <= max_ts(s),
    decreases s.len(),
{
    if i < s.len() - 1 {
        lemma_max_ts_bound(s.drop_last(), i);
    }
}

/// The newest timestamp in a run is that of one of its entries.
pub proof fn lemma_max_ts_found(s: Seq<Entry>) -> (i: int)
    ensures
        s.len() == 0 ==> max_ts(s) == 0,
        s.len() > 0 ==> 0 <= i < s.len() && s[i].key.ts == max_ts(s),
    decreases s.len(),
{
    if s.len() <= 1 {
        if s.len() == 1 {
            assert(max_ts(s.drop_last()) == 0);
        }
        0
    } else {
        let i = lemma_max_ts_found(s.drop_last());
        if max_ts(s.drop_last()) < s.last().key.ts {
            s.len() - 1
        } else {
            i
        }
    }
}

/// An end of a range, with its bytes as a mathematical value.
pub open spec fn bound(b: Bound<&[u8]>) -> Bound<Seq<u8>> {
    match b {
        Bound::Included(x) => Bound::Included(x@),
        Bound::Excluded(x) => Bound::Excluded(x@),
        Bound::Unbounded => Bound::Unbounded,
    }
}

/// A user key is not before the lower end of a range.
pub open spec fn after_lower(uk: Seq<u8>, lower: Bound<Seq<u8>>) -> bool {
    match lower {
        Bound::Included(x) => key::bytes_le(x, uk),
        Bound::Excluded(x) => key::bytes_lt(x, uk),
        Bound::Unbounded => true,
    }
}

/// A user key is not behind the upper end of a range.
pub open spec fn before_upper(uk: Seq<u8>, upper: Bound<Seq<u8>>) -> bool {
    match upper {
        Bound::Included(x) => key::bytes_le(uk, x),
        Bound::Excluded(x) => key::bytes_lt(uk, x),
        Bound::Unbounded => true,
    }
}

/// The versions of the user keys within a range.
pub open spec fn in_range(m: Versions, lower: Bound<Seq<u8>>, upper: Bound<Seq<u8>>) -> Versions {
    Map::new(
        |k: KeyTs|
            m.contains_key(k) && after_lower(k.key, lower) && before_upper(k.key, upper),
        |k: KeyTs| m[k],
    )
}

/// The version of a user key that a reader at `ts` sees: the newest that is not newer than `ts`.
pub open spec fn is_newest(m: Versions, uk: Seq<u8>, ts: u64, t: u64) -> bool {
    &&& m.contains_key(KeyTs { key: uk, ts: t })
    &&& t <= ts
    &&& forall|u: u64|
        u <= ts && #[trigger] m.contains_key(KeyTs { key: uk, ts: u }) ==> u <= t
}

/// What a reader at `ts` gets for a user key: nothing if there is no version, or if the version
/// marks a deletion.
pub open spec fn lookup(m: Versions, uk: Seq<u8>, ts: u64) -> Option<Seq<u8>> {
    if exists|t: u64| is_newest(m, uk, ts, t) {
        let t = choose|t: u64| is_newest(m, uk, ts, t);
        let v = m[KeyTs { key: uk, ts: t }];
        if v.len() > 0 {
            Some(v)
        } else {
            None
        }
    } else {
        None
    }
}

/// All that a reader at `ts` sees: a value for each user key that is there.
pub open spec fn visible(m: Versions, ts: u64) -> Versions {
    Map::new(
        |k: KeyTs| k.ts == key::TS_DEFAULT && lookup(m, k.key, ts) is Some,
        |k: KeyTs| lookup(m, k.key, ts)->0,
    )
}

pub proof fn lemma_lookup(m: Versions, uk: Seq<u8>, ts: u64, t: u64)
    requires
        is_newest(m, uk, ts, t),
    ensures
        m[KeyTs { key: uk, ts: t }].len() > 0 ==> lookup(m, uk, ts) == Some(
            m[KeyTs { key: uk, ts: t }],
        ),
        m[KeyTs { key: uk, ts: t }].len() == 0 ==> lookup(m, uk, ts) is None,
{
    let u = choose|u: u64| is_newest(m, uk, ts, u);
    assert(is_newest(m, uk, ts, u));
    assert(u == t);
}

/// What a reader at `ts` gets is the value of a version at or before `ts` that is no mark of deletion
/// and behind which, up to `ts`, there is no other version of the user key; and nothing without one.
pub proof fn lemma_lookup_newest(m: Versions, uk: Seq<u8>, ts: u64, v: Seq<u8>)
    ensures
        lookup(m, uk, ts) == Some(v) <==> v.len() > 0 && exists|t: u64|
            {
                &&& t <= ts
                &&& #[trigger] m.contains_key(KeyTs { key: uk, ts: t })
                &&& m[KeyTs { key: uk, ts: t }] == v
                &&& forall|u: u64|
                    t < u <= ts ==> !#[trigger] m.contains_key(KeyTs { key: uk, ts: u })
            },
{
    if lookup(m, uk, ts) == Some(v) {
        let t = choose|t: u64| is_newest(m, uk, ts, t);
        lemma_lookup(m, uk, ts, t);
        assert(m.contains_key(KeyTs { key: uk, ts: t }));
    }
    if v.len() > 0 && exists|t: u64|
        {
            &&& t <= ts
            &&& #[trigger] m.contains_key(KeyTs { key: uk, ts: t })
            &&& m[KeyTs { key: uk, ts: t }] == v
            &&& forall|u: u64|
                t < u <= ts ==> !#[trigger] m.contains_key(KeyTs { key: uk, ts: u })
        } {
        let t = choose|t: u64|
            {
                &&& t <= ts
                &&& #[trigger] m.contains_key(KeyTs { key: uk, ts: t })
                &&& m[KeyTs { key: uk, ts: t }] == v
                &&& forall|u: u64|
                    t < u <= ts ==> !#[trigger] m.contains_key(KeyTs { key: uk, ts: u })
            };
        assert(is_newest(m, uk, ts, t));
        lemma_lookup(m, uk, ts, t);
    }
}

/// A user key is in a range if it is not before the lower end nor behind the upper end, and is
/// neither of them where they are excluded.
pub open spec fn within(uk: Seq<u8>, lower: Bound<Seq<u8>>, upper: Bound<Seq<u8>>) -> bool {
    &&& match lower {
        Bound::Included(x) => !key::bytes_lt(uk, x),
        Bound::Excluded(x) => !key::bytes_lt(uk, x) && uk != x,
        Bound::Unbounded => true,
    }
    &&& match upper {
        Bound::Included(x) => !key::bytes_lt(x, uk),
        Bound::Excluded(x) => !key::bytes_lt(x, uk) && uk != x,
        Bound::Unbounded => true,
    }
}

/// The versions within a range are those whose user keys are in it.
pub proof fn lemma_within(m: Versions, lower: Bound<Seq<u8>>, upper: Bound<Seq<u8>>, k: KeyTs)
    ensures
        within(k.key, lower, upper) <==> after_lower(k.key, lower) && before_upper(k.key, upper),
        in_range(m, lower, upper).contains_key(k) <==> m.contains_key(k) && within(
            k.key,
            lower,
            upper,
        ),
        m.contains_key(k) && within(k.key, lower, upper) ==> in_range(m, lower, upper)[k] == m[k],
{
    match lower {
        Bound::Included(x) => {
            key::lemma_bytes_order(x, k.key);
            key::lemma_bytes_order(k.key, x);
        },
        Bound::Excluded(x) => {
            key::lemma_bytes_order(x, k.key);
            key::lemma_bytes_order(k.key, x);
        },
        Bound::Unbounded => {},
    }
    match upper {
        Bound::Included(x) => {
            key::lemma_bytes_order(x, k.key);
            key::lemma_bytes_order(k.key, x);
        },
        Bound::Excluded(x) => {
            key::lemma_bytes_order(x, k.key);
            key::lemma_bytes_order(k.key, x);
        },
        Bound::Unbounded => {},
    }
}

/// A user key that has a version at or before `ts` has a newest one.
pub proof fn lemma_newest_exists(m: Versions, uk: Seq<u8>, ts: u64, t: u64) -> (r: u64)
    requires
        m.contains_key(KeyTs { key: uk, ts: t }),
        t <= ts,
    ensures
        is_newest(m, uk, ts, r),
    decreases ts,
{
    if m.contains_key(KeyTs { key: uk, ts }) {
        ts
    } else {
        let r = lemma_newest_exists(m, uk, (ts - 1) as u64, t);
        assert forall|u: u64|
            u <= ts && #[trigger] m.contains_key(KeyTs { key: uk, ts: u }) implies u <= r by {
            if u == ts {
            }
        }
        r
    }
}

/// What a reader gets for a user key depends on the versions of that user key alone.
pub proof fn lemma_lookup_same(m: Versions, n: Versions, uk: Seq<u8>, ts: u64)
    requires
        forall|t: u64|
            t <= ts ==> (#[trigger] m.contains_key(KeyTs { key: uk, ts: t }) <==> n.contains_key(
                KeyTs { key: uk, ts: t },
            )),
        forall|t: u64|
            t <= ts && #[trigger] m.contains_key(KeyTs { key: uk, ts: t }) ==> m[KeyTs {
                key: uk,
                ts: t,
            }] == n[KeyTs { key: uk, ts: t }],
    ensures
        lookup(m, uk, ts) == lookup(n, uk, ts),
{
    assert forall|t: u64| is_newest(m, uk, ts, t) <==> is_newest(n, uk, ts, t) by {
        if is_newest(m, uk, ts, t) {
            assert forall|u: u64|
                u <= ts && #[trigger] n.contains_key(KeyTs { key: uk, ts: u }) implies u <= t by {
                assert(m.contains_key(KeyTs { key: uk, ts: u }));
            }
        }
        if is_newest(n, uk, ts, t) {
            assert(m.contains_key(KeyTs { key: uk, ts: t }));
        }
    }
    if exists|t: u64| is_newest(m, uk, ts, t) {
        let t = choose|t: u64| is_newest(m, uk, ts, t);
        lemma_lookup(m, uk, ts, t);
        lemma_lookup(n, uk, ts, t);
    }
}

pub proof fn lemma_lookup_none(m: Versions, uk: Seq<u8>, ts: u64)
    requires
        forall|t: u64| t <= ts ==> !#[trigger] m.contains_key(KeyTs { key: uk, ts: t }),
    ensures
        lookup(m, uk, ts) is None,
{
    if exists|t: u64| is_newest(m, uk, ts, t) {
        let t = choose|t: u64| is_newest(m, uk, ts, t);
        assert(m.contains_key(KeyTs { key: uk, ts: t }));
    }
}

pub proof fn lemma_entry_map_append(a: Seq<Entry>, b: Seq<Entry>)
    requires
        sorted(a + b),
    ensures
        entry_map(a + b) == prefer(entry_map(a), entry_map(b)),
{
    let s = a + b;
    let m = prefer(entry_map(a), entry_map(b));
    lemma_sorted_parts(a, b);
    assert forall|k: KeyTs| #[trigger] entry_map(s).contains_key(k) implies m.contains_key(k)
        && m[k] == entry_map(s)[k] by {
        let i = lemma_entry_map_key(s, k);
        if i < a.len() {
            assert(s[i] == a[i]);
            lemma_entry_map_index(a, i);
        } else {
            let j = i - a.len();
            assert(s[i] == b[j]);
            lemma_entry_map_index(b, j);
            if entry_map(a).contains_key(k) {
                let x = lemma_entry_map_key(a, k);
                assert(key::key_lt(a[x].key, b[j].key));
                key::lemma_key_order(a[x].key, b[j].key);
            }
        }
    }
    assert forall|k: KeyTs| #[trigger] m.contains_key(k) implies entry_map(s).contains_key(k) by {
        if entry_map(a).contains_key(k) {
            let i = lemma_entry_map_key(a, k);
            assert(s[i].key == k);
        } else {
            let i = lemma_entry_map_key(b, k);
            assert(s[a.len() + i].key == k);
        }
    }
    assert(entry_map(s) =~= m);
}

/// A collection that is added last decides last.
pub proof fn lemma_merged_push(ms: Seq<Versions>, m: Versions)
    ensures
        merged(ms.push(m)) == prefer(merged(ms), m),
    decreases ms.len(),
{
    if ms.len() == 0 {
        assert(merged(ms.push(m).skip(1)) =~= Map::empty());
        assert(merged(ms.push(m)) =~= prefer(merged(ms), m));
    } else {
        lemma_merged_push(ms.skip(1), m);
        assert(ms.push(m).skip(1) =~= ms.skip(1).push(m));
        assert(merged(ms.push(m)) =~= prefer(merged(ms), m));
    }
}

pub proof fn lemma_in_range_prefer(
    a: Versions,
    b: Versions,
    lower: Bound<Seq<u8>>,
    upper: Bound<Seq<u8>>,
)
    ensures
        in_range(prefer(a, b), lower, upper) == prefer(
            in_range(a, lower, upper),
            in_range(b, lower, upper),
        ),
{
    assert(in_range(prefer(a, b), lower, upper) =~= prefer(
        in_range(a, lower, upper),
        in_range(b, lower, upper),
    ));
}

/// What a reader sees within a range depends on the versions within that range alone.
pub proof fn lemma_visible_in_range(
    m: Versions,
    ts: u64,
    lower: Bound<Seq<u8>>,
    upper: Bound<Seq<u8>>,
)
    ensures
        visible(in_range(m, lower, upper), ts) == in_range(visible(m, ts), lower, upper),
{
    let n = in_range(m, lower, upper);
    assert forall|uk: Seq<u8>| after_lower(uk, lower) && before_upper(uk, upper) implies
        #[trigger] lookup(n, uk, ts) == lookup(m, uk, ts) by {
        lemma_lookup_same(n, m, uk, ts);
    }
    assert forall|uk: Seq<u8>| !(after_lower(uk, lower) && before_upper(uk, upper)) implies (
    #[trigger] lookup(n, uk, ts)) is None by {
        lemma_lookup_none(n, uk, ts);
    }
    assert(visible(n, ts) =~= in_range(visible(m, ts), lower, upper));
}

pub proof fn lemma_in_range_twice(
    m: Versions,
    lower: Bound<Seq<u8>>,
    upper: Bound<Seq<u8>>,
)
    ensures
        in_range(in_range(m, lower, Bound::Unbounded), Bound::Unbounded, upper) == in_range(
            m,
            lower,
            upper,
        ),
        in_range(in_range(m, lower, upper), Bound::Unbounded, upper) == in_range(m, lower, upper),
{
    assert(in_range(in_range(m, lower, Bound::Unbounded), Bound::Unbounded, upper) =~= in_range(
        m,
        lower,
        upper,
    ));
    assert(in_range(in_range(m, lower, upper), Bound::Unbounded, upper) =~= in_range(
        m,
        lower,
        upper,
    ));
}

/// The entries of a sorted run from the lower end of a range on.
pub proof fn lemma_from_bound(s: Seq<Entry>, x: Seq<u8>)
    requires
        sorted(s),
    ensures
        entry_map(from_key(s, KeyTs { key: x, ts: key::TS_RANGE_BEGIN })) == in_range(
            entry_map(s),
            Bound::Included(x),
            Bound::Unbounded,
        ),
{
    let k = KeyTs { key: x, ts: key::TS_RANGE_BEGIN };
    lemma_from_key_map(s, k);
    let a = entry_map(from_key(s, k));
    let b = in_range(entry_map(s), Bound::Included(x), Bound::Unbounded);
    assert forall|q: KeyTs| #[trigger] a.contains_key(q) <==> b.contains_key(q) by {
        reveal(key::key_lt);
        if q.key == x && q.ts == k.ts {
            assert(q =~= k);
        }
    }
    assert(a =~= b);
}

pub proof fn lemma_merged_split(ms: Seq<Versions>, i: int)
    requires
        0 <= i <= ms.len(),
    ensures
        merged(ms) == prefer(merged(ms.take(i)), merged(ms.skip(i))),
    decreases i,
{
    if i == 0 {
        assert(ms.skip(0) =~= ms);
        assert(merged(ms.take(0)) =~= Map::empty());
        assert(prefer(merged(ms.take(0)), merged(ms)) =~= merged(ms));
    } else {
        lemma_merged_split(ms.skip(1), i - 1);
        assert(ms.skip(1).take(i - 1) =~= ms.take(i).skip(1));
        assert(ms.skip(1).skip(i - 1) =~= ms.skip(i));
        assert(ms.take(i)[0] == ms[0]);
        assert(merged(ms) =~= prefer(merged(ms.take(i)), merged(ms.skip(i))));
    }
}

/// Of each user key that both collections have, the versions in the first are not older than those
/// in the second.
pub open spec fn newer(a: Versions, b: Versions) -> bool {
    forall|k: KeyTs, q: KeyTs|
        #![trigger a.contains_key(k), b.contains_key(q)]
        a.contains_key(k) && b.contains_key(q) && k.key == q.key ==> k.ts >= q.ts
}

/// Earlier collections have newer versions than later ones.
pub open spec fn layered(ms: Seq<Versions>) -> bool
    decreases ms.len(),
{
    ms.len() == 0 || (newer(ms[0], merged(ms.skip(1))) && layered(ms.skip(1)))
}

pub proof fn lemma_merged_append(a: Seq<Versions>, b: Seq<Versions>)
    ensures
        merged(a + b) == prefer(merged(a), merged(b)),
{
    let n = a.len() as int;
    lemma_merged_split(a + b, n);
    assert((a + b).take(n) =~= a);
    assert((a + b).skip(n) =~= b);
}

/// Collections are layered one after the other if each part is, and the first is newer.
pub proof fn lemma_layered_append(a: Seq<Versions>, b: Seq<Versions>)
    ensures
        layered(a + b) <==> layered(a) && layered(b) && newer(merged(a), merged(b)),
    decreases a.len(),
{
    if a.len() == 0 {
        assert(a + b =~= b);
    } else {
        let t = a.skip(1);
        let m = a[0];
        lemma_layered_append(t, b);
        lemma_merged_append(t, b);
        assert((a + b)[0] == m);
        assert((a + b).skip(1) =~= t + b);
        let mt = merged(t);
        let mb = merged(b);
        assert(merged(a) == prefer(m, mt));
        assert(newer(m, prefer(mt, mb)) <==> newer(m, mt) && newer(m, mb)) by {
            if newer(m, prefer(mt, mb)) {
                assert forall|k: KeyTs, q: KeyTs|
                    #![trigger m.contains_key(k), mt.contains_key(q)]
                    m.contains_key(k) && mt.contains_key(q) && k.key == q.key implies k.ts >= q.ts by {
                    assert(prefer(mt, mb).contains_key(q));
                }
                assert forall|k: KeyTs, q: KeyTs|
                    #![trigger m.contains_key(k), mb.contains_key(q)]
                    m.contains_key(k) && mb.contains_key(q) && k.key == q.key implies k.ts >= q.ts by {
                    assert(prefer(mt, mb).contains_key(q));
                }
            }
        }
        assert(newer(prefer(m, mt), mb) <==> newer(m, mb) && newer(mt, mb)) by {
            if newer(prefer(m, mt), mb) {
                assert forall|k: KeyTs, q: KeyTs|
                    #![trigger m.contains_key(k), mb.contains_key(q)]
                    m.contains_key(k) && mb.contains_key(q) && k.key == q.key implies k.ts >= q.ts by {
                    assert(prefer(m, mt).contains_key(k));
                }
                assert forall|k: KeyTs, q: KeyTs|
                    #![trigger mt.contains_key(k), mb.contains_key(q)]
                    mt.contains_key(k) && mb.contains_key(q) && k.key == q.key implies k.ts >= q.ts by {
                    assert(prefer(m, mt).contains_key(k));
                }
            }
        }
    }
}

/// Layers stay layered where some that follow each other are replaced by a part of them.
pub proof fn lemma_layers_replaced(
    above: Seq<Versions>,
    mid: Seq<Versions>,
    new: Seq<Versions>,
    below: Seq<Versions>,
)
    requires
        layered(above + (mid + below)),
        layered(new),
        forall|k: KeyTs| #[trigger] merged(new).contains_key(k) ==> merged(mid).contains_key(k),
    ensures
        layered(above + (new + below)),
        newer(merged(above), merged(mid)),
{
    lemma_layered_append(above, mid + below);
    lemma_layered_append(mid, below);
    lemma_layered_append(above, new + below);
    lemma_layered_append(new, below);
    lemma_merged_append(mid, below);
    lemma_merged_append(new, below);
    let a = merged(above);
    let n = merged(new);
    let m = merged(mid);
    let b = merged(below);
    assert forall|k: KeyTs, q: KeyTs|
        #![trigger a.contains_key(k), m.contains_key(q)]
        a.contains_key(k) && m.contains_key(q) && k.key == q.key implies k.ts >= q.ts by {
        assert(prefer(m, b).contains_key(q));
    }
    assert forall|k: KeyTs, q: KeyTs|
        #![trigger a.contains_key(k), prefer(n, b).contains_key(q)]
        a.contains_key(k) && prefer(n, b).contains_key(q) && k.key == q.key implies k.ts >= q.ts by {
        assert(prefer(m, b).contains_key(q));
    }
}

} // verus!
