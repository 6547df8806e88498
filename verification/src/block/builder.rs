//! Builds blocks.
use vstd::prelude::*;
use crate::block;
use crate::block::{Block, SIZEOF_U16};
use crate::codec;
use crate::key::{KeySlice, KeyTs, KeyVec, TS_DEFAULT};
use crate::model::Entry;

verus! {

/// Builds a block.
pub struct BlockBuilder {
    /// Offsets of each key-value entries.
    offsets: Vec<u16>,
    /// All serialized key-value pairs in the block.
    data: Vec<u8>,
    /// The expected block size.
    block_size: usize,
    /// The first key in the block
    first_key: KeyVec,
}

/// A block in the making, as a mathematical value.
#[verifier::ext_equal]
pub struct BlockDraft {
    pub offsets: Seq<u16>,
    pub data: Seq<u8>,
    pub block_size: usize,
    pub first_key: KeyTs,
}

impl BlockDraft {
    /// A draft without entries.
    pub open spec fn empty(block_size: usize) -> BlockDraft {
        BlockDraft {
            offsets: Seq::empty(),
            data: Seq::empty(),
            block_size,
            first_key: KeyTs { key: Seq::empty(), ts: TS_DEFAULT },
        }
    }

    pub open spec fn estimated_size(self) -> nat {
        2 + 2 * self.offsets.len() + self.data.len()
    }

    /// The entry is taken: the block is empty, or not yet full.
    pub open spec fn accepts(self, k: KeyTs, value: Seq<u8>) -> bool {
        self.offsets.len() == 0 || self.estimated_size() + k.key.len() + value.len() + 6
            <= self.block_size
    }

    /// The draft with one more entry.
    pub open spec fn added(self, k: KeyTs, value: Seq<u8>) -> BlockDraft {
        BlockDraft {
            offsets: self.offsets.push((self.data.len() % 0x1_0000) as u16),
            data: self.data + block::entry_bytes(
                block::common_prefix(self.first_key.key, k.key),
                k,
                value,
            ),
            first_key: if self.first_key.key.len() == 0 {
                k
            } else {
                self.first_key
            },
            ..self
        }
    }

    /// There are entries if and only if there is a first key.
    pub open spec fn wf(self) -> bool {
        &&& self.offsets.len() == 0 <==> self.first_key.key.len() == 0
        &&& self.offsets.len() == 0 ==> self.data.len() == 0
    }

    /// The block of this draft can be read.
    pub open spec fn decodes(self) -> bool {
        self.offsets.len() > 0 ==> {
            &&& block::block_readable(self.data, self.offsets)
            &&& block::first_key_of(self.data) == self.first_key
        }
    }

    /// The block of this draft can be read, and begins with the first key.
    pub open spec fn readable(self) -> bool {
        self.decodes() && (self.offsets.len() > 0 ==> self.entries()[0].key == self.first_key)
    }

    pub open spec fn entries(self) -> Seq<Entry> {
        block::block_entries(self.data, self.offsets)
    }
}

proof fn lemma_added_decodes(d: BlockDraft, k: KeyTs, value: Seq<u8>)
    requires
        d.wf(),
        d.decodes(),
        block::storable(k, value),
        d.data.len() < 0x1_0000,
    ensures
        d.added(k, value).decodes(),
        d.added(k, value).entries() == d.entries().push(Entry { key: k, value }),
{
    let e = d.added(k, value);
    let overlap = block::common_prefix(d.first_key.key, k.key);
    let more = block::entry_bytes(overlap, k, value);
    block::lemma_common_prefix(d.first_key.key, k.key);
    if d.offsets.len() == 0 {
        assert(overlap == 0);
        assert(d.data =~= Seq::empty());
        assert(e.data =~= more);
        block::lemma_first_key_stored(k, value);
        assert(k.key.take(0) =~= e.first_key.key.take(0));
    } else {
        block::lemma_first_key_stable(d.data, more);
        assert(k.key.take(overlap as int) == d.first_key.key.take(overlap as int));
    }
    let first = block::first_key_of(e.data).key;
    block::lemma_entry_appended(d.data, first, overlap, k, value);
    assert forall|i: int| 0 <= i < e.offsets.len() implies block::entry_readable(
        e.data,
        first,
        #[trigger] e.offsets[i] as int,
    ) && block::entry_at(e.data, first, e.offsets[i] as int).key.key.len() > 0 by {
        if i < d.offsets.len() {
            assert(e.offsets[i] == d.offsets[i]);
            block::lemma_entry_stable(d.data, more, first, d.offsets[i] as int);
        }
    }
    assert forall|i: int| 0 <= i < e.offsets.len() implies #[trigger] e.entries()[i]
        == d.entries().push(Entry { key: k, value })[i] by {
        if i < d.offsets.len() {
            assert(e.offsets[i] == d.offsets[i]);
            assert(block::entry_readable(d.data, first, d.offsets[i] as int));
            block::lemma_entry_stable(d.data, more, first, d.offsets[i] as int);
        }
    }
    assert(e.entries() =~= d.entries().push(Entry { key: k, value }));
}

/// What is added to a block is read back from it, if stored lengths can hold the sizes.
pub proof fn lemma_added_readable(d: BlockDraft, k: KeyTs, value: Seq<u8>)
    requires
        d.wf(),
        d.readable(),
        block::storable(k, value),
        d.data.len() < 0x1_0000,
    ensures
        d.added(k, value).wf(),
        d.added(k, value).readable(),
        d.added(k, value).entries() == d.entries().push(Entry { key: k, value }),
{
    lemma_added_decodes(d, k, value);
    let t = d.added(k, value);
    if d.offsets.len() == 0 {
        assert(t.entries()[0].key == k);
    } else {
        assert(t.entries()[0] == d.entries()[0]);
    }
}

/// An entry is refused only where there is no room: the block has entries already, and the number of
/// entries, the data, the key and the value come to more than the size of the block.
pub proof fn lemma_room_is_used(d: BlockDraft, k: KeyTs, value: Seq<u8>)
    ensures
        d.offsets.len() == 0 ==> d.accepts(k, value),
        2 + 2 * d.offsets.len() + d.data.len() + k.key.len() + value.len() + 6 <= d.block_size
            ==> d.accepts(k, value),
        d.offsets.len() > 0 && 2 + 2 * d.offsets.len() + d.data.len() + k.key.len() + value.len()
            + 6 > d.block_size ==> !d.accepts(k, value),
{
}

/// A block that takes an entry takes every smaller one, and so does a block with the same entries
/// that may grow larger.
pub proof fn lemma_room_is_monotone(
    d: BlockDraft,
    e: BlockDraft,
    k: KeyTs,
    value: Seq<u8>,
    q: KeyTs,
    other: Seq<u8>,
)
    requires
        d.accepts(k, value),
        e.offsets == d.offsets,
        e.data == d.data,
        e.block_size >= d.block_size,
        q.key.len() + other.len() <= k.key.len() + value.len(),
    ensures
        e.accepts(q, other),
{
}

/// What an entry adds to a block: the offset at which it begins, and its stored form, in which the
/// bytes that its user key shares with the first one are left out.
pub proof fn lemma_added_bytes(d: BlockDraft, k: KeyTs, value: Seq<u8>, n: nat)
    requires
        n <= d.first_key.key.len() && n <= k.key.len(),
        d.first_key.key.take(n as int) == k.key.take(n as int),
        n < d.first_key.key.len() && n < k.key.len() ==> d.first_key.key[n as int]
            != k.key[n as int],
        d.data.len() < 0x1_0000,
    ensures
        d.added(k, value).offsets == d.offsets.push(d.data.len() as u16),
        d.added(k, value).data == d.data + block::entry_bytes(n, k, value),
        d.added(k, value).block_size == d.block_size,
        d.added(k, value).first_key == if d.first_key.key.len() == 0 {
            k
        } else {
            d.first_key
        },
{
    let a = d.first_key.key;
    let b = k.key;
    let m = block::common_prefix(a, b);
    block::lemma_common_prefix(a, b);
    if m < n {
        assert(a.take(n as int)[m as int] == a[m as int]);
        assert(b.take(n as int)[m as int] == b[m as int]);
    }
    if n < m {
        assert(a.take(m as int)[n as int] == a[n as int]);
        assert(b.take(m as int)[n as int] == b[n as int]);
    }
    assert(m == n);
}

/// An entry takes two bytes for its offset, and the bytes of its lengths, its timestamp, its value
/// and what its user key does not share with the first one. So a block with several entries exceeds
/// its size by ten bytes at most.
pub proof fn lemma_added_size(d: BlockDraft, k: KeyTs, value: Seq<u8>)
    ensures
        d.added(k, value).offsets.len() == d.offsets.len() + 1,
        d.added(k, value).data.len() == d.data.len() + 14 + k.key.len() - block::common_prefix(
            d.first_key.key,
            k.key,
        ) + value.len(),
        d.offsets.len() > 0 && d.accepts(k, value) ==> 2 + 2 * d.added(k, value).offsets.len()
            + d.added(k, value).data.len() <= d.block_size + 10,
{
    broadcast use crate::codec::lemma_be_bytes_len;

    block::lemma_common_prefix(d.first_key.key, k.key);
}

/// How many leading bytes two user keys share.
pub fn compute_overlap(first_key: KeySlice<'_>, key: KeySlice<'_>) -> (r: usize)
    ensures
        r == block::common_prefix(first_key@.key, key@.key),
{
    let a: &[u8] = first_key.key_ref();
    let b: &[u8] = key.key_ref();
    let mut i: usize = 0;
    assert(a@.skip(0) =~= a@ && b@.skip(0) =~= b@);
    while i < a.len() && i < b.len() && a[i] == b[i]
        invariant
            i <= a.len(),
            i <= b.len(),
            block::common_prefix(a@, b@) == i + block::common_prefix(
                a@.skip(i as int),
                b@.skip(i as int),
            ),
        decreases a.len() - i,
    {
        assert(a@.skip(i as int).skip(1) =~= a@.skip(i + 1));
        assert(b@.skip(i as int).skip(1) =~= b@.skip(i + 1));
        i = i + 1;
    }
    i
}

impl View for BlockBuilder {
    type V = BlockDraft;

    closed spec fn view(&self) -> BlockDraft {
        BlockDraft {
            offsets: self.offsets@,
            data: self.data@,
            block_size: self.block_size,
            first_key: self.first_key@,
        }
    }
}

impl BlockBuilder {
    /// Creates a new block builder.
    pub fn new(block_size: usize) -> (r: BlockBuilder)
        ensures
            r@ == BlockDraft::empty(block_size),
            r@.offsets.len() == 0 && r@.data.len() == 0 && r@.block_size == block_size,
            r@.wf(),
    {
        BlockBuilder { offsets: Vec::new(), data: Vec::new(), block_size, first_key: KeyVec::new() }
    }

    /// The size of the block, but for the checksum.
    fn estimated_size(&self) -> (r: u128)
        ensures
            r == self@.estimated_size(),
            r < 0x10_0000_0000_0000_0000,
    {
        SIZEOF_U16 as u128 + self.offsets.len() as u128 * SIZEOF_U16 as u128
            + self.data.len() as u128
    }

    /// Adds a key-value pair to the block. Returns false when the block is full.
    #[must_use]
    pub fn add(&mut self, key: KeySlice<'_>, value: &[u8]) -> (r: bool)
        requires
            old(self)@.wf(),
            key@.key.len() > 0,
        ensures
            final(self)@.wf(),
            r == old(self)@.accepts(key@, value@),
            !r <==> old(self)@.offsets.len() > 0 && 2 + 2 * old(self)@.offsets.len() + old(self)@.data.len() + key@.key.len() + value@.len() + 6 > old(self)@.block_size,
            r ==> final(self)@ == old(self)@.added(key@, value@),
            !r ==> final(self)@ == old(self)@,
    {
        if self.estimated_size() + key.len() as u128 + value.len() as u128 + SIZEOF_U16 as u128 * 3
            > self.block_size as u128 && !self.is_empty() {
            return false;
        }
        let offset = codec::low16(self.data.len());
        self.offsets.push(offset);
        let overlap: usize = compute_overlap(self.first_key.as_key_slice(), key);
        proof {
            block::lemma_common_prefix(self.first_key@.key, key@.key);
        }
        codec::put_len16(&mut self.data, overlap);
        codec::put_len16(&mut self.data, key.len() - overlap);
        codec::put_slice(
            &mut self.data,
            vstd::slice::slice_subrange(key.key_ref(), overlap, key.len()),
        );
        codec::put_u64(&mut self.data, key.ts());
        codec::put_len16(&mut self.data, value.len());
        codec::put_slice(&mut self.data, value);
        if self.first_key.is_empty() {
            self.first_key = key.to_key_vec();
        }
        proof {
            broadcast use crate::codec::lemma_be_bytes_len;

            assert(self@.data =~= old(self)@.added(key@, value@).data);
            assert(self@ =~= old(self)@.added(key@, value@));
        }
        true
    }

    /// Check if there is no key-value pair in the block.
    pub fn is_empty(&self) -> (r: bool)
        ensures
            r == (self@.offsets.len() == 0),
    {
        self.offsets.len() == 0
    }

    /// The first key in the block; empty if there is none.
    pub fn first_key(&self) -> (r: KeySlice<'_>)
        ensures
            r@ == self@.first_key,
    {
        self.first_key.as_key_slice()
    }

    /// Finalize the block.
    pub fn build(self) -> (r: Block)
        ensures
            r.data@ == self@.data,
            r.offsets@ == self@.offsets,
    {
        Block { data: self.data, offsets: self.offsets }
    }
}

} // verus!
