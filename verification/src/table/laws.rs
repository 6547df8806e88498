//! What holds of tables however they are built.
use vstd::prelude::*;
use crate::block;
use crate::block::builder as block_builder;
use crate::block::builder::BlockDraft;
use crate::codec;
use crate::deps;
use crate::key;
use crate::key::KeyTs;
use crate::lsm_storage::flush;
use crate::mem_table;
use crate::model;
use crate::model::Entry;
use crate::table::SsTable;
use crate::table::block_meta::Meta;
use crate::table::builder;
use crate::table::builder::TableDraft;
use crate::table::layout;
use crate::table::layout::Layout;

verus! {

/// A block ends only where the first entry of the next one finds no room in it, and a block with
/// several entries exceeds the block size by ten bytes at most. Of the bytes of a block in the file,
/// eight are checksums and do not count.
pub open spec fn is_packed(l: Layout, block_size: usize) -> bool {
    &&& forall|i: int|
        #![trigger l.meta[i]]
        0 <= i < l.meta.len() - 1 ==> l.meta[i + 1].offset - l.meta[i].offset - 8 + l.block(
            i + 1,
        )[0].key.key.len() + l.block(i + 1)[0].value.len() + 6 > block_size
    &&& forall|i: int|
        #![trigger l.block(i)]
        0 <= i < l.meta.len() && l.block(i).len() > 1 ==> l.stop(i) - l.meta[i].offset - 8
            <= block_size + 10
}

/// As `is_packed`, for a table in the making.
pub(crate) open spec fn packs(d: TableDraft) -> bool {
    let n = d.meta.len() as int;
    &&& is_packed(d.layout(), d.block_size)
    &&& n > 0 ==> d.data.len() - d.meta[n - 1].offset - 8 + d.block.entries()[0].key.key.len()
        + d.block.entries()[0].value.len() + 6 > d.block_size
    &&& d.block.offsets.len() > 1 ==> d.block.estimated_size() <= d.block_size + 10
}

/// The blocks of a table in the making begin one behind the other.
pub(crate) open spec fn in_file_order(d: TableDraft) -> bool {
    d.meta.len() > 0 ==> d.meta[d.meta.len() - 1].offset <= d.data.len()
}

pub(crate) proof fn lemma_file_order(d: TableDraft, k: KeyTs, value: Seq<u8>)
    requires
        in_file_order(d),
    ensures
        in_file_order(d.added(k, value)),
{
    reveal(TableDraft::added);
}

/// One more block behind blocks that are filled.
proof fn lemma_packed_with_block(l: Layout, t: Layout, entries: Seq<Entry>, m: Meta, block_size: usize)
    requires
        is_packed(l, block_size),
        l.end == m.offset,
        t.meta == l.meta.push(m),
        t.blocks() == l.blocks().push(entries),
        l.meta.len() > 0 ==> m.offset - l.meta[l.meta.len() - 1].offset - 8
            + entries[0].key.key.len() + entries[0].value.len() + 6 > block_size,
        entries.len() > 1 ==> t.end - m.offset - 8 <= block_size + 10,
    ensures
        is_packed(t, block_size),
{
    let n = l.meta.len() as int;
    assert forall|i: int| 0 <= i < t.meta.len() implies #[trigger] t.block(i) == if i < n {
        l.block(i)
    } else {
        entries
    } by {
        assert(t.blocks()[i] == t.block(i));
        if i < n {
            assert(l.blocks()[i] == l.block(i));
        }
    }
    assert forall|i: int|
        #![trigger t.meta[i]]
        0 <= i < t.meta.len() - 1 implies t.meta[i + 1].offset - t.meta[i].offset - 8 + t.block(
        i + 1,
    )[0].key.key.len() + t.block(i + 1)[0].value.len() + 6 > block_size by {
        assert(t.meta[i] == l.meta[i]);
        if i < n - 1 {
            assert(t.meta[i + 1] == l.meta[i + 1]);
        } else {
            assert(t.meta[i + 1] == m);
        }
    }
    assert forall|i: int|
        #![trigger t.block(i)]
        0 <= i < t.meta.len() && t.block(i).len() > 1 implies t.stop(i) - t.meta[i].offset - 8
        <= block_size + 10 by {
        if i < n {
            assert(t.meta[i] == l.meta[i]);
            if i + 1 < n {
                assert(t.meta[i + 1] == l.meta[i + 1]);
            } else {
                assert(t.meta[i + 1] == m);
            }
            assert(t.stop(i) == l.stop(i));
            assert(l.block(i).len() > 1);
        } else {
            assert(t.meta[i] == m);
        }
    }
}

proof fn lemma_sealed_layout(d: TableDraft)
    requires
        d.sound(),
        d.block.offsets.len() > 0,
    ensures
        d.sealed().layout().blocks() == d.layout().blocks().push(d.block.entries()),
        d.block.entries().len() == d.block.offsets.len(),
        d.sealed().data.len() - d.data.len() - 8 == d.block.estimated_size(),
        d.sealed().meta == d.meta.push(
            Meta { offset: d.data.len() as int, first: d.block.first_key, last: d.last_key },
        ),
{
    broadcast use crate::codec::lemma_be_bytes_len;

    reveal(TableDraft::sound);
    let b = d.block;
    let m = Meta { offset: d.data.len() as int, first: b.first_key, last: d.last_key };
    assert(d.entries().last() == b.entries().last());
    layout::lemma_layout_with_block(d.layout(), b.data, b.offsets, m);
    assert(d.sealed().layout() == d.layout().with_block(
        block::block_bytes(b.data, b.offsets),
        m,
    ));
    block::lemma_block_bytes(b.data, b.offsets);
}

proof fn lemma_packs_sealed(d: TableDraft)
    requires
        d.sound(),
        packs(d),
        d.block.offsets.len() > 0,
    ensures
        is_packed(d.sealed().layout(), d.block_size),
        d.sealed().data.len() - d.data.len() - 8 == d.block.estimated_size(),
        d.sealed().meta.len() == d.meta.len() + 1,
        d.sealed().meta[d.meta.len() as int].offset == d.data.len(),
{
    let m = Meta { offset: d.data.len() as int, first: d.block.first_key, last: d.last_key };
    lemma_sealed_layout(d);
    lemma_packed_with_block(
        d.layout(),
        d.sealed().layout(),
        d.block.entries(),
        m,
        d.block_size,
    );
}

pub(crate) proof fn lemma_packs_added(d: TableDraft, k: KeyTs, value: Seq<u8>)
    requires
        d.sound(),
        packs(d),
        block::storable(k, value),
    ensures
        packs(d.added(k, value)),
        d.added(k, value).block_size == d.block_size,
{
    reveal(TableDraft::sound);
    reveal(TableDraft::added);
    let t = d.added(k, value);
    block_builder::lemma_room_is_used(d.block, k, value);
    if d.block.accepts(k, value) {
        block_builder::lemma_added_readable(d.block, k, value);
        block_builder::lemma_added_size(d.block, k, value);
        assert(t.layout() == d.layout());
        if d.meta.len() > 0 {
            assert(t.block.entries()[0] == d.block.entries()[0]);
        }
    } else {
        lemma_packs_sealed(d);
        let e = BlockDraft::empty(d.block_size);
        block_builder::lemma_added_readable(e, k, value);
        assert(e.entries() =~= Seq::empty());
        assert(t.block == e.added(k, value));
        assert(t.block.entries() =~= seq![Entry { key: k, value }]);
        assert(t.layout() == d.sealed().layout());
    }
}

proof fn lemma_packs_all(block_size: usize, s: Seq<Entry>)
    requires
        block_size <= 0x1_0000,
        model::sorted(s),
        mem_table::all_storable(s),
    ensures
        ({
            let d = mem_table::added_all(TableDraft::empty(block_size), s);
            d.sound() && packs(d) && d.entries() == s && d.block_size == block_size
        }),
    decreases s.len(),
{
    let e = TableDraft::empty(block_size);
    if s.len() == 0 {
        builder::lemma_empty_sound(block_size);
        assert(s =~= Seq::empty());
    } else {
        let t = s.drop_last();
        let x = s.last();
        assert(x == s[s.len() - 1]);
        assert(s =~= t + seq![x]);
        model::lemma_sorted_parts(t, seq![x]);
        assert forall|i: int| 0 <= i < t.len() implies block::storable(
            (#[trigger] t[i]).key,
            t[i].value,
        ) by {
            assert(t[i] == s[i]);
        }
        lemma_packs_all(block_size, t);
        let d = mem_table::added_all(e, t);
        assert(block::storable(s[s.len() - 1].key, s[s.len() - 1].value));
        if t.len() > 0 {
            assert(key::key_lt(s[s.len() - 2].key, s[s.len() - 1].key));
        }
        builder::lemma_added_sound(d, x.key, x.value);
        lemma_packs_added(d, x.key, x.value);
        assert(t.push(Entry { key: x.key, value: x.value }) =~= s);
    }
}

/// More bytes at the end leave the blocks as they are filled.
proof fn lemma_packed_extended(a: Layout, b: Layout, block_size: usize)
    requires
        is_packed(a, block_size),
        b.blocks() == a.blocks(),
        b.meta == a.meta,
        b.end == a.end,
    ensures
        is_packed(b, block_size),
{
    assert forall|i: int| 0 <= i < b.meta.len() implies #[trigger] b.block(i) == a.block(i) by {
        assert(b.blocks()[i] == b.block(i));
        assert(a.blocks()[i] == a.block(i));
    }
    assert forall|i: int|
        #![trigger b.meta[i]]
        0 <= i < b.meta.len() - 1 implies b.meta[i + 1].offset - b.meta[i].offset - 8 + b.block(
        i + 1,
    )[0].key.key.len() + b.block(i + 1)[0].value.len() + 6 > block_size by {
        assert(a.meta[i] == b.meta[i]);
    }
}

proof fn lemma_built_layout(t: SsTable, d: TableDraft, id: usize)
    requires
        d.sound(),
        flush::is_built(t, d, id),
    ensures
        t.layout().blocks() == d.finished().layout().blocks(),
        t.layout().meta == d.finished().meta,
        t.layout().end == d.finished().data.len(),
{
    let f = d.finished();
    let a = f.layout();
    builder::lemma_finished(d);
    let more = t.content().skip(f.data.len() as int);
    assert(t.content() =~= f.data + more);
    layout::lemma_layout_extended(a, more);
    assert(t.layout() == Layout { data: a.data + more, ..a });
}

/// A table to which a sorted run was added holds that run, in blocks that are filled as far as the
/// block size allows.
pub proof fn lemma_blocks_are_filled(block_size: usize, s: Seq<Entry>, t: SsTable, id: usize)
    requires
        block_size <= 0x1_0000,
        model::sorted(s),
        mem_table::all_storable(s),
        flush::is_built(t, mem_table::added_all(TableDraft::empty(block_size), s), id),
    ensures
        t.entries() == s,
        is_packed(t.layout(), block_size),
{
    let d = mem_table::added_all(TableDraft::empty(block_size), s);
    lemma_packs_all(block_size, s);
    lemma_built_packed(t, d, id);
}

pub(crate) proof fn lemma_built_packed(t: SsTable, d: TableDraft, id: usize)
    requires
        d.sound(),
        packs(d),
        flush::is_built(t, d, id),
    ensures
        is_packed(t.layout(), d.block_size),
{
    lemma_built_layout(t, d, id);
    if d.block.offsets.len() > 0 {
        lemma_packs_sealed(d);
    }
    lemma_packed_extended(d.finished().layout(), t.layout(), d.block_size);
}

/// What is read of a file carries checksums: that of each block, that of the notes on the blocks and
/// that of the filter.
pub proof fn lemma_valid_file_is_checked(f: Seq<u8>)
    requires
        layout::valid_file(f),
    ensures
        ({
            let p = layout::file_parts(f)->0;
            let b = codec::be_at(f, f.len() - 4, 4) as int;
            let m = codec::be_at(f, b - 4, 4) as int;
            let notes = f.subrange(m, b - 4);
            let filter = f.subrange(b + 4, f.len() - 4);
            &&& 0 <= m && m + 4 <= b && b + 8 <= f.len()
            &&& notes.len() >= 8
            &&& codec::be_at(notes, notes.len() - 4, 4) == deps::crc32_of(
                notes.take(notes.len() - 4),
            )
            &&& filter.len() >= 5
            &&& codec::be_at(filter, filter.len() - 4, 4) == deps::crc32_of(
                filter.take(filter.len() - 4),
            )
            &&& p.filter == filter.take(filter.len() - 5) && p.k == filter[filter.len() - 5]
            &&& forall|i: int|
                #![trigger p.layout.meta[i]]
                0 <= i < p.layout.meta.len() ==> {
                    let from = p.layout.meta[i].offset;
                    let to = if i + 1 < p.layout.meta.len() {
                        p.layout.meta[i + 1].offset
                    } else {
                        m
                    };
                    &&& 0 <= from && from + 4 <= to <= f.len()
                    &&& codec::be_at(f, to - 4, 4) == deps::crc32_of(f.subrange(from, to - 4))
                }
        }),
{
    let p = layout::file_parts(f)->0;
    let b = layout::bloom_offset(f);
    crate::table::bloom::lemma_decoded_is_checked(f.subrange(b + 4, f.len() - 4));
    assert forall|i: int| #![trigger p.layout.meta[i]] 0 <= i < p.layout.meta.len() implies ({
        let from = p.layout.meta[i].offset;
        let to = if i + 1 < p.layout.meta.len() {
            p.layout.meta[i + 1].offset
        } else {
            layout::meta_offset(f)
        };
        &&& 0 <= from && from + 4 <= to <= f.len()
        &&& codec::be_at(f, to - 4, 4) == deps::crc32_of(f.subrange(from, to - 4))
    }) by {
        assert(p.layout.block_ok(i));
    }
}

/// A hash is that of the user key of one of some entries.
pub open spec fn is_hash_in(s: Seq<Entry>, h: u32) -> bool {
    exists|i: int|
        0 <= i < s.len() && deps::hashable((#[trigger] s[i]).key.key) && h
            == deps::fingerprint32_of(s[i].key.key)
}

/// The filter of a table is that of the keys that were added to it and of no others.
pub proof fn lemma_filter_is_of_added(block_size: usize, s: Seq<Entry>, t: SsTable, id: usize) -> (r:
    Seq<u32>)
    requires
        flush::is_built(t, mem_table::added_all(TableDraft::empty(block_size), s), id),
    ensures
        t.filter() matches Some(b) && builder::is_table_filter(b, r),
        r.len() <= s.len(),
        forall|j: int| 0 <= j < r.len() ==> is_hash_in(s, #[trigger] r[j]),
{
    let d = mem_table::added_all(TableDraft::empty(block_size), s);
    lemma_hashes_of_added(TableDraft::empty(block_size), s);
    assert(d.finished().key_hashes == d.key_hashes);
    d.key_hashes
}

proof fn lemma_hashes_of_added(d: TableDraft, s: Seq<Entry>)
    requires
        d.key_hashes.len() == 0,
    ensures
        ({
            let r = mem_table::added_all(d, s).key_hashes;
            &&& r.len() <= s.len()
            &&& forall|j: int| 0 <= j < r.len() ==> is_hash_in(s, #[trigger] r[j])
        }),
    decreases s.len(),
{
    if s.len() > 0 {
        let t = s.drop_last();
        let q = mem_table::added_all(d, t).key_hashes;
        let r = mem_table::added_all(d, s).key_hashes;
        lemma_hashes_of_added(d, t);
        reveal(TableDraft::added);
        assert forall|j: int| 0 <= j < r.len() implies is_hash_in(s, #[trigger] r[j]) by {
            if j < q.len() {
                assert(q[j] == r[j]);
                let i = choose|i: int|
                    0 <= i < t.len() && deps::hashable((#[trigger] t[i]).key.key) && q[j]
                        == deps::fingerprint32_of(t[i].key.key);
                assert(s[i] == t[i]);
            } else {
                assert(s[s.len() - 1] == s.last());
            }
        }
    }
}

} // verus!
