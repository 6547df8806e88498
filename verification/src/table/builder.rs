//! Builds SSTables from key-value pairs.
use vstd::prelude::*;
use crate::block;
use crate::block::builder;
use crate::block::builder::{BlockBuilder, BlockDraft};
use crate::codec;
use crate::deps;
use crate::error::LsmError;
use crate::key;
use crate::key::{KeySlice, KeyTs, KeyVec, TS_DEFAULT};
use crate::model;
use crate::model::Entry;
use crate::table::block_meta;
use crate::table::block_meta::{BlockMeta, Meta};
use crate::table::bloom;
use crate::table::bloom::Bloom;
use crate::table::layout;
use crate::table::layout::Layout;
use crate::table::{FileObject, SsTable};

verus! {

/// Builds an SSTable from key-value pairs.
pub struct SsTableBuilder {
    builder: BlockBuilder,
    first_key: KeyVec,
    last_key: KeyVec,
    data: Vec<u8>,
    meta: Vec<BlockMeta>,
    block_size: usize,
    key_hashes: Vec<u32>,
}

/// A table in the making, as a mathematical value.
#[verifier::ext_equal]
pub struct TableDraft {
    /// The block that takes the next entry.
    pub block: BlockDraft,
    pub first_key: KeyTs,
    pub last_key: KeyTs,
    /// The finished blocks.
    pub data: Seq<u8>,
    pub meta: Seq<Meta>,
    pub block_size: usize,
    pub key_hashes: Seq<u32>,
}

impl TableDraft {
    /// A draft without entries.
    pub open spec fn empty(block_size: usize) -> TableDraft {
        TableDraft {
            block: BlockDraft::empty(block_size),
            first_key: KeyTs { key: Seq::empty(), ts: TS_DEFAULT },
            last_key: KeyTs { key: Seq::empty(), ts: TS_DEFAULT },
            data: Seq::empty(),
            meta: Seq::empty(),
            block_size,
            key_hashes: Seq::empty(),
        }
    }

    /// The finished blocks.
    pub open spec fn layout(self) -> Layout {
        Layout { data: self.data, meta: self.meta, end: self.data.len() as int }
    }

    /// The draft with its current block finished, and an empty one in its place.
    pub open spec fn sealed(self) -> TableDraft {
        let l = self.layout().with_block(
            block::block_bytes(self.block.data, self.block.offsets),
            Meta {
                offset: self.data.len() as int,
                first: self.block.first_key,
                last: self.last_key,
            },
        );
        TableDraft {
            block: BlockDraft::empty(self.block_size),
            data: l.data,
            meta: l.meta,
            ..self
        }
    }

    /// The draft with one more entry, in a new block if the current one is full. A user key that
    /// has no hash is not hashed.
    #[verifier::opaque]
    pub open spec fn added(self, k: KeyTs, value: Seq<u8>) -> TableDraft {
        let d = if self.block.accepts(k, value) {
            self
        } else {
            self.sealed()
        };
        TableDraft {
            block: d.block.added(k, value),
            first_key: if self.first_key.key.len() == 0 {
                k
            } else {
                self.first_key
            },
            last_key: k,
            key_hashes: if deps::hashable(k.key) {
                self.key_hashes.push(deps::fingerprint32_of(k.key))
            } else {
                self.key_hashes
            },
            ..d
        }
    }

    /// The draft with its last block finished.
    pub open spec fn finished(self) -> TableDraft {
        if self.block.offsets.len() == 0 {
            self
        } else {
            self.sealed()
        }
    }

    pub open spec fn wf(self) -> bool {
        &&& self.block.wf()
        &&& self.block.block_size == self.block_size
        &&& self.block.offsets.len() == 0 ==> self.meta.len() == 0 && self.data.len() == 0
        &&& self.first_key.key.len() == 0 <==> self.block.offsets.len() == 0
    }

    /// The entries of the draft.
    pub open spec fn entries(self) -> Seq<Entry> {
        self.layout().entries() + self.block.entries()
    }

    /// Every entry of the draft can be read back, and the entries are sorted.
    #[verifier::opaque]
    pub open spec fn sound(self) -> bool {
        &&& self.wf()
        &&& self.block_size <= 0x1_0000
        &&& self.block.readable()
        &&& self.block.offsets.len() <= 1 || 2 * self.block.offsets.len() <= self.block_size
        &&& self.layout().blocks_ok()
        &&& model::sorted(self.entries())
        &&& self.entries().len() == 0 ==> self.first_key.key.len() == 0 && self.last_key.key.len()
            == 0
        &&& self.entries().len() > 0 ==> self.first_key == self.entries()[0].key && self.last_key
            == self.entries().last().key
        &&& hashes_cover(self.key_hashes, self.entries())
        &&& forall|i: int|
            0 <= i < self.entries().len() ==> (#[trigger] self.entries()[i]).key.key.len()
                < 0x1_0000
        &&& self.block.offsets.len() == 0 ==> self.entries().len() == 0
    }
}

/// The hashes hold that of every key that has one.
pub open spec fn hashes_cover(hashes: Seq<u32>, entries: Seq<Entry>) -> bool {
    forall|i: int|
        0 <= i < entries.len() && deps::hashable((#[trigger] entries[i]).key.key)
            ==> hashes.contains(deps::fingerprint32_of(entries[i].key.key))
}

pub proof fn lemma_empty_sound(block_size: usize)
    requires
        block_size <= 0x1_0000,
    ensures
        TableDraft::empty(block_size).sound(),
        TableDraft::empty(block_size).entries() == Seq::<Entry>::empty(),
{
    reveal(TableDraft::sound);
    let d = TableDraft::empty(block_size);
    assert(d.layout().blocks() =~= Seq::empty());
    assert(d.entries() =~= Seq::empty());
}

/// Finishing a block keeps the entries.
pub proof fn lemma_sealed(d: TableDraft)
    requires
        d.sound(),
        d.block.offsets.len() > 0,
    ensures
        d.sealed().layout().blocks_ok(),
        d.sealed().layout().entries() == d.entries(),
        d.sealed().entries() == d.entries(),
{
    reveal(TableDraft::sound);
    let b = d.block;
    let m = Meta { offset: d.data.len() as int, first: b.first_key, last: d.last_key };
    assert(d.entries().last() == b.entries().last());
    layout::lemma_layout_with_block(d.layout(), b.data, b.offsets, m);
    let l = d.layout().with_block(block::block_bytes(b.data, b.offsets), m);
    assert(d.sealed().layout() == l);
    model::lemma_concat_push(d.layout().blocks(), b.entries());
    assert(d.sealed().block.entries() =~= Seq::empty());
    assert(d.sealed().entries() =~= d.entries());
}

/// What is added to a table is read back from it, behind what was there, if its key is above all
/// keys in the table and stored lengths can hold its sizes.
pub proof fn lemma_added_sound(d: TableDraft, k: KeyTs, value: Seq<u8>)
    requires
        d.sound(),
        block::storable(k, value),
        d.entries().len() > 0 ==> key::key_lt(d.entries().last().key, k),
    ensures
        d.added(k, value).sound(),
        d.added(k, value).entries() == d.entries().push(Entry { key: k, value }),
{
    reveal(TableDraft::sound);
    reveal(TableDraft::added);
    let e = Entry { key: k, value };
    let t = d.added(k, value);
    let base = if d.block.accepts(k, value) {
        d
    } else {
        d.sealed()
    };
    if !d.block.accepts(k, value) {
        lemma_sealed(d);
        assert(base.block.readable());
    }
    builder::lemma_added_readable(base.block, k, value);
    assert(t.layout() == base.layout());
    assert(t.entries() =~= base.layout().entries() + base.block.entries().push(e));
    assert(t.entries() =~= d.entries().push(e));
    let one = seq![e];
    assert(model::sorted(one));
    model::lemma_sorted_append(d.entries(), one);
    assert(d.entries() + one =~= d.entries().push(e));
    assert(hashes_cover(t.key_hashes, t.entries())) by {
        assert forall|i: int|
            0 <= i < t.entries().len() && deps::hashable(
                (#[trigger] t.entries()[i]).key.key,
            ) implies t.key_hashes.contains(deps::fingerprint32_of(t.entries()[i].key.key)) by {
            if i < d.entries().len() {
                assert(t.entries()[i] == d.entries()[i]);
                let h = deps::fingerprint32_of(d.entries()[i].key.key);
                let j = choose|j: int| 0 <= j < d.key_hashes.len() && d.key_hashes[j] == h;
                assert(t.key_hashes[j] == h);
            } else {
                assert(t.key_hashes.last() == deps::fingerprint32_of(k.key));
                assert(t.key_hashes[d.key_hashes.len() as int] == deps::fingerprint32_of(k.key));
            }
        }
    }
    assert forall|i: int| 0 <= i < t.entries().len() implies (#[trigger] t.entries()[i]).key.key.len()
        < 0x1_0000 by {
        if i < d.entries().len() {
            assert(t.entries()[i] == d.entries()[i]);
        }
    }
    if d.entries().len() > 0 {
        assert(t.entries()[0] == d.entries()[0]);
    }
}

/// A filter is the one that is built for the hashes.
pub open spec fn is_table_filter(b: Bloom, hashes: Seq<u32>) -> bool {
    let bits = if hashes.len() == 0 {
        0int
    } else {
        10
    };
    &&& b.k == bloom::probes(bits)
    &&& deps::bytes_seq(b.filter).len() == bloom::filter_len(hashes.len() as int, bits)
    &&& bloom::is_filter_of(deps::bytes_seq(b.filter), b.k as int, hashes)
    &&& b.wf()
}

/// The filter of a table has ten bits for each key, sixty-four at least, and six probes.
pub proof fn lemma_table_filter(b: Bloom, hashes: Seq<u32>)
    requires
        is_table_filter(b, hashes),
    ensures
        ({
            let bits = 8 * deps::bytes_seq(b.filter).len();
            &&& hashes.len() > 0 ==> b.k == 6
            &&& bits >= 64 && bits >= 10 * hashes.len()
            &&& bits < 72 || bits < 10 * hashes.len() + 8
            &&& bloom::is_filter_of(deps::bytes_seq(b.filter), b.k as int, hashes)
        }),
{
}

/// A filter for the hashes of the keys lets these keys pass.
proof fn lemma_filter_covers(b: Bloom, hashes: Seq<u32>, entries: Seq<Entry>)
    requires
        is_table_filter(b, hashes),
        hashes_cover(hashes, entries),
    ensures
        layout::covers(deps::bytes_seq(b.filter), b.k, entries),
{
    let f = deps::bytes_seq(b.filter);
    assert forall|i: int|
        0 <= i < entries.len() && deps::hashable((#[trigger] entries[i]).key.key) implies (b.k > 30
        || bloom::filter_holds(f, b.k as int, deps::fingerprint32_of(entries[i].key.key))) by {
        bloom::lemma_no_false_negatives(
            f,
            b.k as int,
            hashes,
            deps::fingerprint32_of(entries[i].key.key),
        );
    }
}

/// A table that was built and stored is opened again with the same entries, if the stored offsets
/// can hold the sizes.
pub proof fn lemma_built_file_valid(d: TableDraft, b: Bloom)
    requires
        d.sound(),
        is_table_filter(b, d.key_hashes),
        layout::file_bytes(
            d.finished().data,
            d.finished().meta,
            deps::bytes_seq(b.filter),
            b.k,
        ).len() < 0x1_0000_0000,
    ensures
        ({
            let f = layout::file_bytes(
                d.finished().data,
                d.finished().meta,
                deps::bytes_seq(b.filter),
                b.k,
            );
            &&& layout::valid_file(f)
            &&& layout::file_parts(f)->0.layout.entries() == d.entries()
        }),
{
    reveal(TableDraft::sound);
    let t = d.finished();
    let filter = deps::bytes_seq(b.filter);
    let f = layout::file_bytes(t.data, t.meta, filter, b.k);
    lemma_finished(d);
    let more = f.skip(t.data.len() as int);
    assert(f =~= t.data + more);
    layout::lemma_layout_extended(t.layout(), more);
    let l = Layout { data: f, meta: t.meta, end: t.data.len() as int };
    assert forall|i: int| 0 <= i < t.meta.len() implies block_meta::meta_fits(
        #[trigger] t.meta[i],
    ) by {
        assert(l.block_ok(i));
        assert(l.blocks()[i] == l.block(i));
        let x = model::lemma_concat_has(l.blocks(), i, 0);
        let y = model::lemma_concat_has(l.blocks(), i, l.block(i).len() - 1);
        assert(d.entries()[x].key == t.meta[i].first);
        assert(d.entries()[y].key == t.meta[i].last);
    }
    lemma_meta_count(l, t.meta.len() as int);
    layout::lemma_file_parts(t.data, t.meta, filter, b.k);
    lemma_filter_covers(b, d.key_hashes, d.entries());
}

/// Each block takes up some bytes.
proof fn lemma_meta_count(l: Layout, n: int)
    requires
        l.blocks_ok(),
        0 <= n <= l.meta.len(),
    ensures
        n <= l.data.len(),
        n > 0 ==> n <= l.stop(n - 1),
    decreases n,
{
    if n > 0 {
        lemma_meta_count(l, n - 1);
        assert(l.block_ok(n - 1));
        if n > 1 {
            assert(l.stop(n - 2) == l.start(n - 1));
        }
    }
}

/// Finishing the last block keeps the entries.
pub proof fn lemma_finished(d: TableDraft)
    requires
        d.sound(),
    ensures
        d.finished().layout().blocks_ok(),
        d.finished().layout().entries() == d.entries(),
{
    reveal(TableDraft::sound);
    if d.block.offsets.len() > 0 {
        lemma_sealed(d);
    } else {
        assert(d.block.entries() =~= Seq::empty());
        assert(d.layout().entries() =~= d.entries());
    }
}

impl View for SsTableBuilder {
    type V = TableDraft;

    closed spec fn view(&self) -> TableDraft {
        TableDraft {
            block: self.builder@,
            first_key: self.first_key@,
            last_key: self.last_key@,
            data: self.data@,
            meta: block_meta::metas(self.meta@),
            block_size: self.block_size,
            key_hashes: self.key_hashes@,
        }
    }
}

impl SsTableBuilder {
    /// Create a builder based on target block size.
    pub fn new(block_size: usize) -> (r: SsTableBuilder)
        ensures
            r@ == TableDraft::empty(block_size),
            r@.block_size == block_size && r@.block.block_size == block_size,
            r@.wf(),
            block_size <= 0x1_0000 ==> r@.sound() && r@.entries() == Seq::<Entry>::empty(),
    {
        let r = SsTableBuilder {
            builder: BlockBuilder::new(block_size),
            first_key: KeyVec::new(),
            last_key: KeyVec::new(),
            data: Vec::new(),
            meta: Vec::new(),
            block_size,
            key_hashes: Vec::new(),
        };
        assert(r@ =~= TableDraft::empty(block_size));
        proof {
            if block_size <= 0x1_0000 {
                lemma_empty_sound(block_size);
            }
        }
        r
    }

    /// Finishes the current block.
    fn seal(&mut self)
        requires
            old(self)@.wf(),
        ensures
            final(self)@ == old(self)@.sealed(),
    {
        let mut builder = BlockBuilder::new(self.block_size);
        core::mem::swap(&mut self.builder, &mut builder);
        let block_meta = BlockMeta {
            offset: self.data.len(),
            first_key: builder.first_key().to_key_vec(),
            last_key: self.last_key.as_key_slice().to_key_vec(),
        };
        self.meta.push(block_meta);
        let block = builder.build();
        let encoded_block = block.encode();
        let encoded: &[u8] = deps::bytes_slice(&encoded_block);
        let checksum = deps::crc32(encoded);
        codec::put_slice(&mut self.data, encoded);
        codec::put_u32(&mut self.data, checksum);
        assert(self@ =~= old(self)@.sealed());
    }

    /// Adds a key-value pair to SSTable.
    pub fn add(&mut self, key: KeySlice<'_>, value: &[u8])
        requires
            old(self)@.wf(),
            key@.key.len() > 0,
        ensures
            final(self)@.wf(),
            final(self)@ == old(self)@.added(key@, value@),
            old(self)@.sound() && block::storable(key@, value@) && (old(self)@.entries().len() > 0
                ==> key::key_lt(old(self)@.entries().last().key, key@)) ==> final(self)@.sound()
                && final(self)@.entries() == old(self)@.entries().push(
                Entry { key: key@, value: value@ },
            ),
    {
        proof {
            reveal(TableDraft::added);
        }
        if deps::is_hashable(key.key_ref()) {
            let key_hash = deps::fingerprint32(key.key_ref());
            self.key_hashes.push(key_hash);
        }
        if self.first_key.is_empty() {
            self.first_key = key.to_key_vec();
        }
        let ghost start = self@;
        let is_added = self.builder.add(key, value);
        if is_added {
            self.last_key = key.to_key_vec();
        } else {
            assert(self@ =~= start);
            self.seal();
            let _ = self.builder.add(key, value);
            self.last_key = key.to_key_vec();
        }
        proof {
            assert(self@ =~= old(self)@.added(key@, value@));
            if old(self)@.sound() && block::storable(key@, value@) && (old(self)@.entries().len()
                > 0 ==> key::key_lt(old(self)@.entries().last().key, key@)) {
                lemma_added_sound(old(self)@, key@, value@);
            }
        }
    }

    /// Get the estimated size of the SSTable.
    pub fn estimated_size(&self) -> (r: usize)
        ensures
            r == self@.data.len(),
    {
        self.data.len()
    }

    /// Builds the SSTable.
    pub fn build(self, id: usize) -> (r: Result<SsTable, LsmError>)
        requires
            self@.wf(),
        ensures
            r is Err <==> self@.key_hashes.len() * 10 + 7 > usize::MAX,
            r matches Err(e) ==> e == LsmError::TooManyKeys,
            r matches Ok(t) ==> {
                let d = self@.finished();
                &&& t.id() == id
                &&& t.filter() matches Some(b) && is_table_filter(b, d.key_hashes) && t.content()
                    == layout::file_bytes(d.data, d.meta, deps::bytes_seq(b.filter), b.k)
                &&& t.layout() == (Layout {
                    data: t.content(),
                    meta: d.meta,
                    end: d.data.len() as int,
                })
                &&& t.first() == d.first_key
                &&& t.last() == d.last_key
                &&& t.newest() == 0
                &&& self@.sound() ==> t.wf() && t.entries() == self@.entries()
            },
    {
        let mut this = self;
        if this.key_hashes.len() > (usize::MAX - 7) / 10 {
            return Err(LsmError::TooManyKeys);
        }
        if !this.builder.is_empty() {
            this.seal();
        }
        let ghost d = self@.finished();
        assert(this@ == d);
        let mut data = this.data;
        let block_meta_offset: usize = data.len();
        BlockMeta::encode_block_meta(this.meta.as_slice(), &mut data);
        codec::put_len32(&mut data, block_meta_offset);
        let bits_per_key: usize = Bloom::bits_per_key(this.key_hashes.len());
        let bloom = Bloom::build_from_key_hashes(this.key_hashes.as_slice(), bits_per_key);
        let mut encoded_bloom: Vec<u8> = Vec::new();
        bloom.encode(&mut encoded_bloom);
        let bloom_offset: usize = data.len();
        codec::put_len32(&mut data, encoded_bloom.len());
        codec::put_slice(&mut data, encoded_bloom.as_slice());
        codec::put_len32(&mut data, bloom_offset);
        proof {
            let filter = deps::bytes_seq(bloom.filter);
            assert(encoded_bloom@ =~= bloom::bloom_bytes(filter, bloom.k));
            let f = layout::file_bytes(d.data, d.meta, filter, bloom.k);
            assert(data@ =~= f);
            if self@.sound() {
                reveal(TableDraft::sound);
                lemma_finished(self@);
                let more = f.skip(d.data.len() as int);
                assert(f =~= d.data + more);
                layout::lemma_layout_extended(d.layout(), more);
                lemma_filter_covers(bloom, d.key_hashes, self@.entries());
            }
        }
        Ok(
            SsTable::assemble(
                id,
                FileObject { data },
                this.meta,
                block_meta_offset,
                this.first_key,
                this.last_key,
                Some(bloom),
                0,
            ),
        )
    }
}

} // verus!
