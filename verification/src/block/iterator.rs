//! Iterates on blocks.
use vstd::prelude::*;
use std::sync::Arc;
use crate::block;
use crate::block::Block;
use crate::codec;
use crate::key;
use crate::key::{KeySlice, KeyTs, KeyVec, Order};
use crate::model;
use crate::model::Entry;

verus! {

/// Iterates on a block.
pub struct BlockIterator {
    /// The internal `Block`, wrapped by an `Arc`
    block: Arc<Block>,
    /// The current key, empty represents the iterator is invalid
    key: KeyVec,
    /// the current value range in the block.data, corresponds to the current key
    value_range: (usize, usize),
    /// Current index of the key-value pair
    idx: usize,
    /// The first key in the block
    first_key: KeyVec,
}

impl BlockIterator {
    /// The block.
    pub closed spec fn block(&self) -> Block {
        *self.block
    }

    /// The index of the current entry; the number of entries if the iterator is invalid.
    pub closed spec fn position(&self) -> int {
        if self.key@.key.len() > 0 {
            self.idx as int
        } else {
            self.block().offsets@.len() as int
        }
    }

    pub closed spec fn wf(&self) -> bool {
        &&& self.settled()
        &&& self.key@.key.len() == 0 ==> self.idx + 1 >= self.block().offsets@.len()
    }

    /// As `wf`, for an iterator that may be on its way to another entry.
    spec fn settled(&self) -> bool {
        &&& self.block().readable()
        &&& self.first_key@ == block::first_key_of(self.block().data@)
        &&& self.value_range.0 <= self.value_range.1 <= self.block().data@.len()
        &&& self.key@.key.len() > 0 ==> {
            &&& self.idx < self.block().offsets@.len()
            &&& self.key@ == self.block().entries()[self.idx as int].key
            &&& self.block().data@.subrange(self.value_range.0 as int, self.value_range.1 as int)
                == self.block().entries()[self.idx as int].value
        }
    }

    /// The entries from the current one to the end of the block.
    pub open spec fn remaining(&self) -> Seq<Entry> {
        self.block().entries().skip(self.position())
    }

    pub proof fn lemma_position(&self)
        requires
            self.wf(),
        ensures
            0 <= self.position() <= self.block().entries().len(),
            self.block().readable(),
    {
    }

    fn new(block: Arc<Block>) -> (r: BlockIterator)
        requires
            block.readable(),
        ensures
            r.settled(),
            r.block() == *block,
            r.idx == 0,
    {
        let first_key = block.get_first_key();
        BlockIterator { first_key, block, key: KeyVec::new(), value_range: (0, 0), idx: 0 }
    }

    /// Creates a block iterator and seek to the first entry.
    pub fn create_and_seek_to_first(block: Arc<Block>) -> (r: BlockIterator)
        requires
            block.readable(),
        ensures
            r.wf(),
            r.block() == *block,
            r.position() == 0,
    {
        let mut iter = BlockIterator::new(block);
        iter.seek_to(0);
        iter
    }

    /// Creates a block iterator and seek to the first key that >= `key`.
    pub fn create_and_seek_to_key(block: Arc<Block>, key: KeySlice<'_>) -> (r: BlockIterator)
        requires
            block.readable(),
            model::sorted(block.entries()),
        ensures
            r.wf(),
            r.block() == *block,
            is_lower_bound(block.entries(), key@, r.position()),
            0 <= r.position() <= block.entries().len(),
            forall|i: int|
                0 <= i < r.position() ==> key::key_lt((#[trigger] block.entries()[i]).key, key@),
            r.position() < block.entries().len() ==> key::key_le(
                key@,
                block.entries()[r.position()].key,
            ),
    {
        let mut iter = BlockIterator::new(block);
        iter.seek(key);
        iter
    }

    /// Returns the key of the current entry.
    pub fn key(&self) -> (r: KeySlice<'_>)
        requires
            self.wf(),
        ensures
            self.remaining().len() > 0 ==> r@ == self.remaining()[0].key,
            self.remaining().len() == 0 ==> r@.key.len() == 0,
    {
        self.key.as_key_slice()
    }

    /// Returns the value of the current entry.
    pub fn value(&self) -> (r: &[u8])
        requires
            self.wf(),
        ensures
            self.remaining().len() > 0 ==> r@ == self.remaining()[0].value,
    {
        vstd::slice::slice_subrange(
            self.block.data.as_slice(),
            self.value_range.0,
            self.value_range.1,
        )
    }

    /// Returns true if the iterator is valid.
    pub fn is_valid(&self) -> (r: bool)
        requires
            self.wf(),
        ensures
            r == (self.remaining().len() > 0),
    {
        !self.key.is_empty()
    }

    /// Seeks to the first key in the block.
    pub fn seek_to_first(&mut self)
        requires
            old(self).wf(),
        ensures
            final(self).wf(),
            final(self).block() == old(self).block(),
            final(self).position() == 0,
    {
        self.seek_to(0);
    }

    /// Move to the next key in the block.
    pub fn next(&mut self)
        requires
            old(self).wf(),
        ensures
            final(self).wf(),
            final(self).block() == old(self).block(),
            old(self).remaining().len() > 0 ==> final(self).position() == old(self).position() + 1
                && final(self).remaining() == old(self).remaining().skip(1),
            old(self).remaining().len() == 0 ==> final(self).position() == old(self).position(),
    {
        assert(self.block.offsets@.len() == self.block.offsets.len());
        if self.idx < usize::MAX {
            self.idx = self.idx + 1;
        }
        let idx: usize = self.idx;
        self.seek_to(idx);
        proof {
            if old(self).remaining().len() > 0 {
                assert(self.remaining() =~= old(self).remaining().skip(1));
            }
        }
    }

    /// Moves to the entry with the given index, or past the end if there is none.
    fn seek_to(&mut self, idx: usize)
        requires
            old(self).block().readable(),
            old(self).first_key@ == block::first_key_of(old(self).block().data@),
        ensures
            final(self).settled(),
            final(self).block() == old(self).block(),
            idx < final(self).block().offsets@.len() ==> final(self).idx == idx && final(self).key@.key.len() > 0,
            idx >= final(self).block().offsets@.len() ==> final(self).idx == old(self).idx
                && final(self).key@.key.len() == 0,
    {
        if idx >= self.block.offsets.len() {
            self.key = KeyVec::new();
            self.value_range = (0, 0);
            return;
        }
        let offset: usize = self.block.offsets[idx] as usize;
        self.seek_to_offset(offset);
        self.idx = idx;
    }

    /// Moves to the entry that begins at the given offset.
    fn seek_to_offset(&mut self, offset: usize)
        requires
            block::entry_readable(
                old(self).block().data@,
                old(self).first_key@.key,
                offset as int,
            ),
        ensures
            final(self).block == old(self).block,
            final(self).first_key == old(self).first_key,
            final(self).idx == old(self).idx,
            final(self).key@ == block::entry_at(
                old(self).block().data@,
                old(self).first_key@.key,
                offset as int,
            ).key,
            final(self).value_range.0 <= final(self).value_range.1 <= old(self).block().data@.len(),
            old(self).block().data@.subrange(
                final(self).value_range.0 as int,
                final(self).value_range.1 as int,
            ) == block::entry_at(
                old(self).block().data@,
                old(self).first_key@.key,
                offset as int,
            ).value,
    {
        let data: &[u8] = self.block.data.as_slice();
        assert(data@.len() == data.len());
        let overlap_len: usize = codec::get_u16(data, offset) as usize;
        let key_suffix_len: usize = codec::get_u16(data, offset + 2) as usize;
        let first_key = self.first_key.as_key_slice();
        let mut key: Vec<u8> = vstd::slice::slice_to_vec(
            vstd::slice::slice_subrange(first_key.key_ref(), 0, overlap_len),
        );
        codec::put_slice(
            &mut key,
            vstd::slice::slice_subrange(data, offset + 4, offset + 4 + key_suffix_len),
        );
        let ts = codec::get_u64(data, offset + 4 + key_suffix_len);
        let value_len: usize = codec::get_u16(data, offset + 12 + key_suffix_len) as usize;
        let value_offset_begin: usize = offset + 14 + key_suffix_len;
        let value_offset_end: usize = value_offset_begin + value_len;
        assert(key@ =~= block::entry_at(
            data@,
            self.first_key@.key,
            offset as int,
        ).key.key);
        self.key = KeyVec::from_vec_with_ts(key, ts);
        self.value_range = (value_offset_begin, value_offset_end);
    }

    /// Seeks to the first key that is >= `key`.
    pub fn seek_to_key(&mut self, key: KeySlice<'_>)
        requires
            old(self).wf(),
            model::sorted(old(self).block().entries()),
        ensures
            final(self).wf(),
            final(self).block() == old(self).block(),
            is_lower_bound(final(self).block().entries(), key@, final(self).position()),
            0 <= final(self).position() <= final(self).block().entries().len(),
            forall|i: int|
                0 <= i < final(self).position() ==> key::key_lt((#[trigger] final(self).block().entries()[i]).key, key@),
            final(self).position() < final(self).block().entries().len() ==> key::key_le(
                key@,
                final(self).block().entries()[final(self).position()].key,
            ),
    {
        self.seek(key);
    }

    fn seek(&mut self, key: KeySlice<'_>)
        requires
            old(self).settled(),
            model::sorted(old(self).block().entries()),
        ensures
            final(self).wf(),
            final(self).block() == old(self).block(),
            is_lower_bound(final(self).block().entries(), key@, final(self).position()),
    {
        let ghost s = self.block().entries();
        let mut start: usize = 0;
        let mut end: usize = self.block.offsets.len();
        while start < end
            invariant
                self.settled(),
                self.block() == old(self).block(),
                s == self.block().entries(),
                model::sorted(s),
                start <= end <= s.len(),
                forall|i: int| 0 <= i < start ==> key::key_lt((#[trigger] s[i]).key, key@),
                forall|i: int| end <= i < s.len() ==> key::key_lt(key@, (#[trigger] s[i]).key),
                start == s.len() && start > 0 ==> self.idx == start - 1,
            decreases end - start,
        {
            broadcast use crate::key::group_key_order;

            let mid: usize = start + (end - start) / 2;
            self.seek_to(mid);
            assert(self.key@ == s[mid as int].key);
            match self.key.as_key_slice().compare(key) {
                Order::Less => {
                    assert forall|i: int| 0 <= i < mid + 1 implies key::key_lt(
                        (#[trigger] s[i]).key,
                        key@,
                    ) by {
                        if i < mid {
                            assert(key::key_lt(s[i].key, s[mid as int].key));
                        }
                    }
                    start = mid + 1;
                },
                Order::Greater => {
                    assert forall|i: int| mid <= i < s.len() implies key::key_lt(
                        key@,
                        (#[trigger] s[i]).key,
                    ) by {
                        if i > mid {
                            assert(key::key_lt(s[mid as int].key, s[i].key));
                        }
                    }
                    end = mid;
                },
                Order::Equal => {
                    assert forall|i: int| 0 <= i < mid implies key::key_lt(
                        (#[trigger] s[i]).key,
                        key@,
                    ) by {
                        assert(key::key_lt(s[i].key, s[mid as int].key));
                    }
                    assert forall|i: int| mid <= i < s.len() implies key::key_le(
                        key@,
                        (#[trigger] s[i]).key,
                    ) by {
                        if i > mid {
                            assert(key::key_lt(s[mid as int].key, s[i].key));
                        }
                    }
                    return;
                },
            }
        }
        self.seek_to(start);
    }
}

/// `pos` divides a run into the keys below `k` and those at or above it.
pub open spec fn is_lower_bound(s: Seq<Entry>, k: KeyTs, pos: int) -> bool {
    &&& 0 <= pos <= s.len()
    &&& forall|i: int| 0 <= i < pos ==> key::key_lt((#[trigger] s[i]).key, k)
    &&& forall|i: int| pos <= i < s.len() ==> key::key_le(k, (#[trigger] s[i]).key)
}

} // verus!
