//! How the blocks of a table lie in its file.
//!
//! | block | checksum | ... | block | checksum | notes on the blocks | offset of the notes (u32) | length of the filter (u32) | filter | offset of that length (u32) |
use vstd::prelude::*;
use crate::block;
use crate::codec;
use crate::deps;
use crate::model;
use crate::model::Entry;
use crate::table::block_meta;
use crate::table::block_meta::Meta;
use crate::table::bloom;

verus! {

/// Blocks in a byte string: where each begins, and where the last ends.
#[verifier::ext_equal]
pub struct Layout {
    pub data: Seq<u8>,
    pub meta: Seq<Meta>,
    pub end: int,
}

impl Layout {
    pub open spec fn start(self, i: int) -> int {
        self.meta[i].offset
    }

    /// Where the checksum of block `i` ends.
    pub open spec fn stop(self, i: int) -> int {
        if i + 1 < self.meta.len() {
            self.meta[i + 1].offset
        } else {
            self.end
        }
    }

    /// The bytes of block `i`.
    pub open spec fn raw(self, i: int) -> Seq<u8> {
        self.data.subrange(self.start(i), self.stop(i) - 4)
    }

    /// The entries of block `i`.
    pub open spec fn block(self, i: int) -> Seq<Entry> {
        block::block_entries(block::decoded_data(self.raw(i)), block::decoded_offsets(self.raw(i)))
    }

    /// Block `i` lies within the byte string, matches its checksum, can be read, and has entries;
    /// the note on it gives their first and last key.
    pub open spec fn block_ok(self, i: int) -> bool {
        &&& 0 <= self.start(i)
        &&& self.start(i) + 4 <= self.stop(i)
        &&& self.stop(i) <= self.data.len()
        &&& deps::crc32_of(self.raw(i)) == codec::be_at(self.data, self.stop(i) - 4, 4)
        &&& block::decodable(self.raw(i))
        &&& block::block_readable(
            block::decoded_data(self.raw(i)),
            block::decoded_offsets(self.raw(i)),
        )
        &&& self.block(i).len() > 0
        &&& self.meta[i].first == self.block(i)[0].key
        &&& self.meta[i].last == self.block(i).last().key
    }

    pub open spec fn blocks_ok(self) -> bool {
        forall|i: int| 0 <= i < self.meta.len() ==> #[trigger] self.block_ok(i)
    }

    pub open spec fn blocks(self) -> Seq<Seq<Entry>> {
        Seq::new(self.meta.len(), |i: int| self.block(i))
    }

    pub open spec fn entries(self) -> Seq<Entry> {
        model::concat(self.blocks())
    }

    /// All blocks are in order, and their entries are sorted.
    pub open spec fn ok(self) -> bool {
        self.blocks_ok() && model::sorted(self.entries())
    }

    /// The layout with one more block behind the others.
    pub open spec fn with_block(self, raw: Seq<u8>, m: Meta) -> Layout {
        let data = self.data + raw + codec::be_bytes(deps::crc32_of(raw) as nat, 4);
        Layout { data, meta: self.meta.push(m), end: data.len() as int }
    }
}

/// More bytes at the end do not change the blocks.
pub proof fn lemma_layout_extended(l: Layout, more: Seq<u8>)
    requires
        l.blocks_ok(),
    ensures
        (Layout { data: l.data + more, ..l }).blocks_ok(),
        (Layout { data: l.data + more, ..l }).blocks() == l.blocks(),
{
    let m = Layout { data: l.data + more, ..l };
    assert forall|i: int| 0 <= i < m.meta.len() implies #[trigger] m.block_ok(i) && m.block(i)
        == l.block(i) by {
        assert(l.block_ok(i));
        assert(m.raw(i) =~= l.raw(i));
        let j = l.stop(i) - 4;
        assert(m.data.subrange(j, j + 4) =~= l.data.subrange(j, j + 4));
    }
    assert forall|i: int| 0 <= i < m.meta.len() implies m.blocks()[i] == l.blocks()[i] by {
        assert(m.block_ok(i));
    }
    assert(m.blocks() =~= l.blocks());
}

/// A block that is put behind the others is read back.
proof fn lemma_last_block(l: Layout, data: Seq<u8>, offsets: Seq<u16>, m: Meta)
    requires
        0 < offsets.len() < 0x1_0000,
        block::block_readable(data, offsets),
        m.offset == l.data.len(),
        m.first == block::block_entries(data, offsets)[0].key,
        m.last == block::block_entries(data, offsets).last().key,
    ensures
        ({
            let n = l.with_block(block::block_bytes(data, offsets), m);
            let k = l.meta.len() as int;
            n.block_ok(k) && n.block(k) == block::block_entries(data, offsets)
        }),
{
    broadcast use crate::codec::lemma_be_bytes_len;

    let raw = block::block_bytes(data, offsets);
    let crc = deps::crc32_of(raw) as nat;
    let n = l.with_block(raw, m);
    let k = l.meta.len() as int;
    assert(n.meta[k] == m);
    assert(n.raw(k) =~= raw);
    codec::lemma_pow256();
    assert(n.data =~= (l.data + raw) + codec::be_bytes(crc, 4) + Seq::empty());
    codec::lemma_be_at_appended(l.data + raw, crc, 4, Seq::empty());
    block::lemma_block_round_trip(data, offsets);
}

/// A block that is put behind the others is read back, and the others stay.
#[verifier::rlimit(40)]
pub proof fn lemma_layout_with_block(l: Layout, data: Seq<u8>, offsets: Seq<u16>, m: Meta)
    requires
        l.blocks_ok(),
        l.end == l.data.len(),
        0 < offsets.len() < 0x1_0000,
        block::block_readable(data, offsets),
        m.offset == l.data.len(),
        m.first == block::block_entries(data, offsets)[0].key,
        m.last == block::block_entries(data, offsets).last().key,
    ensures
        l.with_block(block::block_bytes(data, offsets), m).blocks_ok(),
        l.with_block(block::block_bytes(data, offsets), m).blocks() == l.blocks().push(
            block::block_entries(data, offsets),
        ),
{
    broadcast use crate::codec::lemma_be_bytes_len;

    let raw = block::block_bytes(data, offsets);
    let crc = deps::crc32_of(raw) as nat;
    let tail = raw + codec::be_bytes(crc, 4);
    let n = l.with_block(raw, m);
    let k = l.meta.len() as int;
    lemma_layout_extended(l, tail);
    let x = Layout { data: l.data + tail, ..l };
    assert(n.data =~= l.data + tail);
    assert forall|i: int| 0 <= i < k implies #[trigger] n.block_ok(i) && n.block(i) == l.block(
        i,
    ) by {
        assert(x.block_ok(i));
        assert(n.meta[i] == x.meta[i]);
        assert(n.stop(i) == x.stop(i));
        assert(n.raw(i) == x.raw(i));
        assert(x.blocks()[i] == l.blocks()[i]);
    }
    lemma_last_block(l, data, offsets, m);
    assert forall|i: int| 0 <= i < n.meta.len() implies #[trigger] n.block_ok(i) by {
        if i < k {
            assert(n.block_ok(i));
        }
    }
    assert forall|i: int| 0 <= i < n.meta.len() implies n.blocks()[i] == l.blocks().push(
        block::block_entries(data, offsets),
    )[i] by {
        if i < k {
            assert(n.block_ok(i) && n.block(i) == l.block(i));
        }
    }
    assert(n.blocks() =~= l.blocks().push(block::block_entries(data, offsets)));
}

/// The filter lets every key of the entries pass that has a hash.
pub open spec fn covers(filter: Seq<u8>, k: u8, entries: Seq<Entry>) -> bool {
    forall|i: int|
        0 <= i < entries.len() && deps::hashable((#[trigger] entries[i]).key.key) ==> (k > 30
            || bloom::filter_holds(
            filter,
            k as int,
            deps::fingerprint32_of(entries[i].key.key),
        ))
}

/// The parts of a table's file.
#[verifier::ext_equal]
pub struct FileParts {
    pub layout: Layout,
    pub filter: Seq<u8>,
    pub k: u8,
}

/// The file of a table: the blocks, and what is noted of them.
pub open spec fn file_bytes(data: Seq<u8>, meta: Seq<Meta>, filter: Seq<u8>, k: u8) -> Seq<u8> {
    let f = data + block_meta::metas_bytes(meta) + codec::be_bytes(data.len(), 4);
    let b = bloom::bloom_bytes(filter, k);
    f + codec::be_bytes(b.len(), 4) + b + codec::be_bytes(f.len(), 4)
}

/// How the file of a table is stored: the blocks, the notes on them, where the notes begin, the length
/// of the filter, the filter with the number of probes and a checksum, and where that length stands.
pub proof fn lemma_file_bytes(data: Seq<u8>, meta: Seq<Meta>, filter: Seq<u8>, k: u8)
    requires
        file_bytes(data, meta, filter, k).len() < 0x1_0000_0000,
    ensures
        ({
            let f = file_bytes(data, meta, filter, k);
            let n = data.len() as int;
            let notes = block_meta::metas_bytes(meta);
            let m = n + notes.len();
            &&& f.len() == m + 4 + 4 + filter.len() + 5 + 4
            &&& f.take(n) == data
            &&& f.subrange(n, m) == notes
            &&& codec::be_at(f, m, 4) == n
            &&& codec::be_at(f, m + 4, 4) == filter.len() + 5
            &&& f.subrange(m + 8, m + 8 + filter.len()) == filter
            &&& f[m + 8 + filter.len()] == k
            &&& codec::be_at(f, m + 9 + filter.len(), 4) == deps::crc32_of(filter.push(k))
            &&& codec::be_at(f, f.len() - 4, 4) == m + 4
        }),
{
    broadcast use crate::codec::lemma_be_bytes_len;

    let f = file_bytes(data, meta, filter, k);
    let n = data.len() as int;
    let notes = block_meta::metas_bytes(meta);
    let m = n + notes.len();
    let b = bloom::bloom_bytes(filter, k);
    let crc = deps::crc32_of(filter.push(k)) as nat;
    codec::lemma_pow256();
    assert(f.take(n) =~= data);
    assert(f.subrange(n, m) =~= notes);
    assert(f.subrange(m, m + 4) =~= codec::be_bytes(data.len(), 4));
    assert(f.subrange(m + 4, m + 4 + 4) =~= codec::be_bytes(b.len(), 4));
    assert(f.subrange(m + 8, m + 8 + filter.len()) =~= filter);
    assert(f.subrange(m + 9 + filter.len(), m + 9 + filter.len() + 4) =~= codec::be_bytes(crc, 4));
    assert(f.subrange(f.len() - 4, f.len() - 4 + 4) =~= codec::be_bytes((m + 4) as nat, 4));
    codec::lemma_be_round_trip(data.len(), 4);
    codec::lemma_be_round_trip(b.len(), 4);
    codec::lemma_be_round_trip(crc, 4);
    codec::lemma_be_round_trip((m + 4) as nat, 4);
}

/// Where the length of the filter stands.
pub open spec fn bloom_offset(f: Seq<u8>) -> int {
    codec::be_at(f, f.len() - 4, 4) as int
}

/// Where the notes on the blocks begin.
pub open spec fn meta_offset(f: Seq<u8>) -> int {
    codec::be_at(f, bloom_offset(f) - 4, 4) as int
}

/// The offsets and lengths in a table's file lead to notes on blocks and to a filter.
pub open spec fn file_parts(f: Seq<u8>) -> Option<FileParts> {
    let b = bloom_offset(f);
    let m = meta_offset(f);
    if f.len() < 4 || b < 4 || b + 8 > f.len() || b + 8 + codec::be_at(f, b, 4) != f.len() || m + 4
        > b {
        None
    } else {
        match (
            bloom::bloom_decoded(f.subrange(b + 4, f.len() - 4)),
            block_meta::metas_decoded(f.subrange(m, b - 4)),
        ) {
            (Ok((filter, k)), Some(meta)) => Some(
                FileParts { layout: Layout { data: f, meta, end: m }, filter, k },
            ),
            _ => None,
        }
    }
}

/// A byte string that has the parts of a table's file is the stored form of these parts.
pub proof fn lemma_parts_are_stored(f: Seq<u8>)
    requires
        file_parts(f) is Some,
    ensures
        ({
            let p = file_parts(f)->0;
            &&& 0 <= p.layout.end <= f.len()
            &&& p.layout.data == f
            &&& f == file_bytes(f.take(p.layout.end), p.layout.meta, p.filter, p.k)
        }),
{
    broadcast use crate::codec::lemma_be_bytes_len;

    let p = file_parts(f)->0;
    let n = f.len() as int;
    let b = bloom_offset(f);
    let m = meta_offset(f);
    let data = f.take(m);
    let notes = f.subrange(m, b - 4);
    let filter = f.subrange(b + 4, n - 4);
    block_meta::lemma_decoded_is_stored(notes);
    bloom::lemma_decoded_is_checked(filter);
    let c = filter.skip(filter.len() - 4);
    assert(c =~= filter.subrange(filter.len() - 4, filter.len() - 4 + 4));
    codec::lemma_be_bytes_value(c);
    assert(filter.take(filter.len() - 4) =~= p.filter.push(p.k));
    assert(filter =~= bloom::bloom_bytes(p.filter, p.k));
    let x = f.subrange(b - 4, b - 4 + 4);
    let y = f.subrange(b, b + 4);
    let z = f.subrange(n - 4, n - 4 + 4);
    codec::lemma_be_bytes_value(x);
    codec::lemma_be_bytes_value(y);
    codec::lemma_be_bytes_value(z);
    let head = data + notes + x;
    assert(head.len() == b);
    assert(f =~= head + y + filter + z);
}

/// A byte string is the file of a table.
pub open spec fn valid_file(f: Seq<u8>) -> bool {
    file_parts(f) matches Some(p) && p.layout.ok() && (p.filter.len() > 0 || p.k == 0 || p.k > 30)
        && covers(p.filter, p.k, p.layout.entries())
}

/// The parts of a file are found again, if the stored offsets can hold the sizes.
pub proof fn lemma_file_parts(data: Seq<u8>, meta: Seq<Meta>, filter: Seq<u8>, k: u8)
    requires
        file_bytes(data, meta, filter, k).len() < 0x1_0000_0000,
        meta.len() < 0x1_0000_0000,
        forall|i: int| 0 <= i < meta.len() ==> block_meta::meta_fits(#[trigger] meta[i]),
    ensures
        file_parts(file_bytes(data, meta, filter, k)) == Some(
            FileParts {
                layout: Layout {
                    data: file_bytes(data, meta, filter, k),
                    meta,
                    end: data.len() as int,
                },
                filter,
                k,
            },
        ),
{
    broadcast use crate::codec::lemma_be_bytes_len;

    codec::lemma_pow256();
    let none = Seq::<u8>::empty();
    let ms = block_meta::metas_bytes(meta);
    let head = data + ms + codec::be_bytes(data.len(), 4);
    let bl = bloom::bloom_bytes(filter, k);
    let f = file_bytes(data, meta, filter, k);
    let len = codec::be_bytes(bl.len(), 4);
    let off = codec::be_bytes(head.len(), 4);
    assert(f =~= (head + len + bl) + off + none);
    codec::lemma_be_at_appended(head + len + bl, head.len(), 4, none);
    let b = bloom_offset(f);
    assert(b == head.len());
    assert(f =~= head + len + (bl + off));
    codec::lemma_be_at_appended(head, bl.len(), 4, bl + off);
    assert(f =~= (data + ms) + codec::be_bytes(data.len(), 4) + (len + bl + off));
    codec::lemma_be_at_appended(data + ms, data.len(), 4, len + bl + off);
    let m = meta_offset(f);
    assert(m == data.len());
    assert(f.subrange(b + 4, f.len() - 4) =~= bl);
    bloom::lemma_bloom_round_trip(filter, k);
    assert(f.subrange(m, b - 4) =~= ms);
    block_meta::lemma_metas_round_trip(meta);
}

} // verus!
