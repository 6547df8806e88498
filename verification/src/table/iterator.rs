//! Iterates on the content of an SSTable.
use vstd::prelude::*;
use crate::block::BlockIterator;
use crate::error::LsmError;
use crate::iterators::StorageIterator;
use crate::key;
use crate::key::KeySlice;
use crate::model;
use crate::model::Entry;
use crate::table;
use crate::table::SsTable;

verus! {

/// An iterator over the contents of an SSTable.
pub struct SsTableIterator<'a> {
    table: &'a SsTable,
    /// The position in the current block; none if the table has no blocks.
    blk_iter: Option<BlockIterator>,
    blk_idx: usize,
}

impl<'a> SsTableIterator<'a> {
    pub closed spec fn table(&self) -> SsTable {
        *self.table
    }

    /// What remains of the current block, and the blocks behind it.
    closed spec fn rest(&self) -> Seq<Entry> {
        match self.blk_iter {
            None => Seq::empty(),
            Some(b) => b.remaining() + model::concat(
                self.table.layout().blocks().skip(self.blk_idx + 1),
            ),
        }
    }

    /// As `wf`, but the current block may be used up.
    spec fn placed(&self) -> bool {
        &&& self.table.wf()
        &&& match self.blk_iter {
            None => self.table.layout().meta.len() == 0,
            Some(b) => {
                &&& self.blk_idx < self.table.layout().meta.len()
                &&& b.wf()
                &&& b.block().entries() == self.table.layout().block(self.blk_idx as int)
            },
        }
    }

    /// The current block is used up only where it is the last.
    spec fn settled(&self) -> bool {
        self.placed() && (self.blk_iter matches Some(b) && b.remaining().len() == 0 ==> self.blk_idx
            + 1 == self.table.layout().meta.len())
    }

    proof fn lemma_rest(&self)
        requires
            self.settled(),
        ensures
            model::sorted(self.rest()),
            self.rest().len() == 0 <==> (self.blk_iter matches Some(b) ==> b.remaining().len() == 0),
    {
        let l = self.table.layout();
        if self.blk_iter is Some {
            let b = self.blk_iter->0;
            let i = self.blk_idx as int;
            b.lemma_position();
            model::lemma_concat_at(l.blocks(), i);
            assert(l.blocks()[i] == l.block(i));
            let before = model::concat(l.blocks().take(i));
            let after = model::concat(l.blocks().skip(i + 1));
            let used = l.block(i).take(b.position());
            assert(l.entries() =~= (before + used) + self.rest());
            model::lemma_sorted_parts(before + used, self.rest());
            if i + 1 == l.meta.len() {
                assert(after =~= Seq::empty());
            }
        }
    }

    /// Leaves a block that is used up for the next one.
    fn settle(&mut self)
        requires
            old(self).placed(),
        ensures
            final(self).settled(),
            final(self).table == old(self).table,
            final(self).rest() == old(self).rest(),
    {
        let ghost l = self.table.layout();
        let more: bool = match &self.blk_iter {
            None => false,
            Some(b) => !b.is_valid() && self.blk_idx < self.table.num_of_blocks() - 1,
        };
        if more {
            self.blk_idx = self.blk_idx + 1;
            proof {
                let i = self.blk_idx as int;
                assert(l.block_ok(i));
                assert(l.blocks()[i] == l.block(i));
                model::lemma_concat_at(l.blocks(), i);
            }
            let b = BlockIterator::create_and_seek_to_first(self.table.read_block(self.blk_idx));
            assert(b.block().entries().skip(0) =~= b.block().entries());
            self.blk_iter = Some(b);
            assert(self.rest() =~= old(self).rest());
        }
    }

    /// Create a new iterator and seek to the first key-value pair in the first data block.
    pub fn create_and_seek_to_first(table: &'a SsTable) -> (r: SsTableIterator<'a>)
        requires
            table.wf(),
        ensures
            r.wf(),
            r.table() == *table,
            r.remaining() == table.entries(),
    {
        let ghost l = table.layout();
        if table.num_of_blocks() == 0 {
            assert(table.entries() =~= Seq::empty());
            return SsTableIterator { table, blk_iter: None, blk_idx: 0 };
        }
        let b = BlockIterator::create_and_seek_to_first(table.read_block(0));
        let r = SsTableIterator { table, blk_iter: Some(b), blk_idx: 0 };
        proof {
            assert(l.block_ok(0));
            assert(l.blocks()[0] == l.block(0));
            assert(b.block().entries().skip(0) =~= b.block().entries());
            model::lemma_concat_at(l.blocks(), 0);
            assert(l.blocks().skip(0) =~= l.blocks());
            r.lemma_rest();
        }
        r
    }

    /// Seek to the first key-value pair in the first data block.
    pub fn seek_to_first(&mut self)
        requires
            old(self).wf(),
        ensures
            final(self).wf(),
            final(self).table() == old(self).table(),
            final(self).remaining() == old(self).table().entries(),
    {
        let table = self.table;
        *self = SsTableIterator::create_and_seek_to_first(table);
    }

    /// Create a new iterator and seek to the first key-value pair which >= `key`.
    pub fn create_and_seek_to_key(table: &'a SsTable, key: KeySlice<'_>) -> (r: SsTableIterator<'a>)
        requires
            table.wf(),
        ensures
            r.wf(),
            r.table() == *table,
            r.remaining() == model::from_key(table.entries(), key@),
    {
        let ghost l = table.layout();
        if table.num_of_blocks() == 0 {
            assert(table.entries() =~= Seq::empty());
            return SsTableIterator { table, blk_iter: None, blk_idx: 0 };
        }
        let idx: usize = table.find_block_idx(key);
        proof {
            table::lemma_block_sorted(l, idx as int);
        }
        let b = BlockIterator::create_and_seek_to_key(table.read_block(idx), key);
        let mut r = SsTableIterator { table, blk_iter: Some(b), blk_idx: idx };
        proof {
            broadcast use crate::key::group_key_order;

            let i = idx as int;
            let here = l.block(i);
            let before = model::concat(l.blocks().take(i));
            let after = model::concat(l.blocks().skip(i + 1));
            assert(l.block_ok(i));
            model::lemma_concat_at(l.blocks(), i);
            assert(l.blocks()[i] == here);
            model::lemma_sorted_parts(before, here + after);
            model::lemma_sorted_parts(here, after);
            assert forall|j: int| 0 <= j < before.len() implies key::key_lt(
                (#[trigger] before[j]).key,
                key@,
            ) by {
                assert((here + after)[0] == here[0]);
                assert(key::key_lt(before[j].key, (here + after)[0].key));
                if idx == 0 {
                    assert(before =~= Seq::empty());
                }
            }
            model::lemma_from_key_after(before, here + after, key@);
            let pos = b.position();
            model::lemma_from_key(here, key@, pos);
            if pos < here.len() {
                assert(key::key_le(key@, here[pos].key));
                model::lemma_from_key_within(here, after, key@);
            } else {
                model::lemma_from_key_after(here, after, key@);
                if i + 1 < l.meta.len() {
                    assert(l.block_ok(i + 1));
                    model::lemma_concat_at(l.blocks(), i + 1);
                    assert(l.blocks()[i + 1] == l.block(i + 1));
                    assert(after[0] == l.block(i + 1)[0]);
                    assert(key::key_lt(key@, l.meta[i + 1].first));
                    model::lemma_from_key(after, key@, 0);
                    assert(after.skip(0) =~= after);
                } else {
                    assert(after =~= Seq::empty());
                }
                assert(here.skip(pos) + after =~= after);
            }
            assert(r.rest() == model::from_key(table.entries(), key@));
        }
        r.settle();
        proof {
            r.lemma_rest();
        }
        r
    }

    /// Seek to the first key-value pair which >= `key`.
    pub fn seek_to_key(&mut self, key: KeySlice<'_>)
        requires
            old(self).wf(),
        ensures
            final(self).wf(),
            final(self).table() == old(self).table(),
            final(self).remaining() == model::from_key(old(self).table().entries(), key@),
    {
        let table = self.table;
        *self = SsTableIterator::create_and_seek_to_key(table, key);
    }
}

impl<'a> StorageIterator for SsTableIterator<'a> {
    closed spec fn wf(&self) -> bool {
        self.settled()
    }

    closed spec fn remaining(&self) -> Seq<Entry> {
        self.rest()
    }

    open spec fn can_fail(&self, e: LsmError) -> bool {
        false
    }

    open spec fn may_resume(&self) -> bool {
        false
    }

    open spec fn active(&self) -> usize {
        1
    }

    proof fn lemma_remaining_sorted(&self) {
        self.lemma_rest();
    }

    fn is_valid(&self) -> (r: bool) {
        proof {
            self.lemma_rest();
        }
        match &self.blk_iter {
            None => false,
            Some(b) => b.is_valid(),
        }
    }

    fn key(&self) -> (r: KeySlice<'_>) {
        proof {
            self.lemma_rest();
        }
        match &self.blk_iter {
            None => self.table.first_key().as_key_slice(),
            Some(b) => b.key(),
        }
    }

    fn value(&self) -> (r: &[u8]) {
        proof {
            self.lemma_rest();
        }
        match &self.blk_iter {
            None => vstd::slice::slice_subrange(self.table.file_content(), 0, 0),
            Some(b) => b.value(),
        }
    }

    fn next(&mut self) -> (r: Result<(), LsmError>) {
        proof {
            self.lemma_rest();
        }
        match self.blk_iter.take() {
            None => {},
            Some(mut b) => {
                b.next();
                self.blk_iter = Some(b);
                self.settle();
            },
        }
        proof {
            if old(self).rest().len() > 0 {
                assert(self.rest() =~= old(self).rest().skip(1));
            }
        }
        Ok(())
    }

    fn num_active_iterators(&self) -> (r: usize) {
        1
    }
}

} // verus!
