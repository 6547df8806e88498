//! Sorted string tables.
pub mod block_meta;
pub mod bloom;
pub mod builder;
pub mod iterator;
pub mod laws;
pub mod layout;

use vstd::prelude::*;
use std::sync::Arc;
use crate::block;
use crate::block::{Block, BlockIterator};
use crate::codec;
use crate::deps;
use crate::error::LsmError;
use crate::key;
use crate::key::{KeySlice, KeyTs, KeyVec, Order};
use crate::model;
use crate::model::Entry;
use crate::table::bloom::Bloom;
use crate::table::layout::{FileParts, Layout};
pub use crate::table::block_meta::BlockMeta;
pub use crate::table::builder::SsTableBuilder;
pub use crate::table::iterator::SsTableIterator;

verus! {

/// The content of a table's file.
pub struct FileObject {
    pub data: Vec<u8>,
}

/// An SSTable.
pub struct SsTable {
    /// The content of the table's file.
    file: FileObject,
    /// The meta blocks that hold info for data blocks.
    block_meta: Vec<BlockMeta>,
    /// The offset that indicates the start point of meta blocks in `file`.
    block_meta_offset: usize,
    id: usize,
    first_key: KeyVec,
    last_key: KeyVec,
    /// The filter on user keys.
    bloom: Option<Bloom>,
    /// The maximum timestamp stored in this SST, noted when it is opened; 0 in one that was just
    /// built.
    max_ts: u64,
}

impl SsTable {
    pub closed spec fn layout(&self) -> Layout {
        Layout {
            data: self.file.data@,
            meta: block_meta::metas(self.block_meta@),
            end: self.block_meta_offset as int,
        }
    }

    pub closed spec fn id(&self) -> usize {
        self.id
    }

    pub closed spec fn first(&self) -> KeyTs {
        self.first_key@
    }

    pub closed spec fn last(&self) -> KeyTs {
        self.last_key@
    }

    pub closed spec fn filter(&self) -> Option<Bloom> {
        self.bloom
    }

    pub closed spec fn newest(&self) -> u64 {
        self.max_ts
    }

    /// The entries of the table, in the order of keys.
    pub open spec fn entries(&self) -> Seq<Entry> {
        self.layout().entries()
    }

    /// The content of the table's file.
    pub open spec fn content(&self) -> Seq<u8> {
        self.layout().data
    }

    pub open spec fn wf(&self) -> bool {
        &&& self.layout().ok()
        &&& self.entries().len() == 0 ==> self.first().key.len() == 0 && self.last().key.len() == 0
        &&& self.entries().len() > 0 ==> self.first() == self.entries()[0].key && self.last()
            == self.entries().last().key
        &&& self.filter() matches Some(b) ==> b.wf() && layout::covers(
            deps::bytes_seq(b.filter),
            b.k,
            self.entries(),
        )
    }

    /// Puts a table together.
    pub(crate) fn assemble(
        id: usize,
        file: FileObject,
        block_meta: Vec<BlockMeta>,
        block_meta_offset: usize,
        first_key: KeyVec,
        last_key: KeyVec,
        bloom: Option<Bloom>,
        max_ts: u64,
    ) -> (r: SsTable)
        ensures
            r.layout() == (Layout {
                data: file.data@,
                meta: block_meta::metas(block_meta@),
                end: block_meta_offset as int,
            }),
            r.id() == id,
            r.first() == first_key@,
            r.last() == last_key@,
            r.filter() == bloom,
            r.newest() == max_ts,
    {
        SsTable { file, block_meta, block_meta_offset, id, first_key, last_key, bloom, max_ts }
    }

    /// Open SSTable from a file.
    pub fn open(id: usize, file: FileObject) -> (r: Result<SsTable, LsmError>)
        ensures
            r is Ok <==> layout::valid_file(file.data@),
            r matches Err(e) ==> e == LsmError::Corrupted,
            r matches Ok(t) ==> {
                &&& t.wf()
                &&& t.id() == id
                &&& layout::file_parts(file.data@) matches Some(p) && t.layout() == p.layout
                &&& t.filter() matches Some(b) && layout::file_parts(file.data@) matches Some(p)
                    && deps::bytes_seq(b.filter) == p.filter && b.k == p.k
                &&& t.newest() == model::max_ts(t.entries())
            },
    {
        let ghost f = file.data@;
        let data: &[u8] = file.data.as_slice();
        let (block_meta_offset, block_meta, bloom) = match read_parts(data) {
            None => {
                return Err(LsmError::Corrupted);
            },
            Some(x) => x,
        };
        let ghost p = layout::file_parts(f)->0;
        let ghost l = p.layout;
        if deps::bytes_slice(&bloom.filter).len() == 0 && bloom.k != 0 && bloom.k <= 30 {
            return Err(LsmError::Corrupted);
        }
        let mut max_ts: u64 = 0;
        let mut i: usize = 0;
        assert(model::concat(l.blocks().take(0)) =~= Seq::empty());
        while i < block_meta.len()
            invariant
                i <= block_meta.len(),
                data@ == f,
                f == file.data@,
                layout::file_parts(f) == Some(p),
                l == p.layout,
                l.data == f,
                l.meta == block_meta::metas(block_meta@),
                l.end == block_meta_offset,
                p.filter == deps::bytes_seq(bloom.filter),
                p.k == bloom.k,
                bloom.wf(),
                forall|j: int| 0 <= j < i ==> #[trigger] l.block_ok(j),
                model::sorted(model::concat(l.blocks().take(i as int))),
                layout::covers(p.filter, p.k, model::concat(l.blocks().take(i as int))),
                max_ts == model::max_ts(model::concat(l.blocks().take(i as int))),
            decreases block_meta.len() - i,
        {
            let start: usize = block_meta[i].offset;
            let stop: usize = if i + 1 < block_meta.len() {
                block_meta[i + 1].offset
            } else {
                block_meta_offset
            };
            assert(start == l.start(i as int));
            assert(stop == l.stop(i as int));
            let keys = match read_keys(
                data,
                start,
                stop,
                &block_meta[i],
                Ghost(l),
                Ghost(i as int),
            ) {
                None => {
                    assert(!l.block_ok(i as int));
                    return Err(LsmError::Corrupted);
                },
                Some(x) => x,
            };
            let ghost here = l.block(i as int);
            if i > 0 {
                proof {
                    if model::sorted(l.entries()) {
                        lemma_blocks_ordered(l, i as int);
                    }
                }
                match block_meta[i - 1].last_key.as_key_slice().compare(
                    block_meta[i].first_key.as_key_slice(),
                ) {
                    Order::Less => {},
                    _ => {
                        proof {
                            crate::key::lemma_key_order(l.meta[i - 1].last, l.meta[i as int].first);
                        }
                        return Err(LsmError::Corrupted);
                    },
                }
            }
            if !is_sorted(&keys, Ghost(here)) {
                proof {
                    if model::sorted(l.entries()) {
                        lemma_block_sorted(l, i as int);
                    }
                }
                return Err(LsmError::Corrupted);
            }
            if !all_pass(&keys, &bloom, Ghost(here)) {
                proof {
                    if layout::covers(p.filter, p.k, l.entries()) {
                        lemma_block_covered(l, i as int, p.filter, p.k);
                    }
                }
                return Err(LsmError::Corrupted);
            }
            max_ts = newest_of(&keys, max_ts, Ghost(here));
            proof {
                lemma_block_added(l, i as int, p.filter, p.k);
            }
            i = i + 1;
        }
        assert(l.blocks().take(i as int) =~= l.blocks());
        let n: usize = block_meta.len();
        let (first_key, last_key) = if n == 0 {
            (KeyVec::new(), KeyVec::new())
        } else {
            proof {
                assert(l.block_ok(0));
                assert(l.block_ok(n - 1));
                model::lemma_concat_at(l.blocks(), 0);
                model::lemma_concat_at(l.blocks(), n - 1);
                assert(l.blocks()[0] == l.block(0));
                assert(l.blocks()[n - 1] == l.block(n - 1));
                assert(model::concat(l.blocks().take(0)) =~= Seq::empty());
                assert(model::concat(l.blocks().skip(n as int)) =~= Seq::empty());
                assert(l.entries()[0] == l.block(0)[0]);
                assert(l.entries().last() == l.block(n - 1).last());
            }
            (
                block_meta[0].first_key.as_key_slice().to_key_vec(),
                block_meta[n - 1].last_key.as_key_slice().to_key_vec(),
            )
        };
        Ok(
            SsTable::assemble(
                id,
                file,
                block_meta,
                block_meta_offset,
                first_key,
                last_key,
                Some(bloom),
                max_ts,
            ),
        )
    }

    /// Read a block from the file.
    pub fn read_block(&self, block_idx: usize) -> (r: Arc<Block>)
        requires
            self.wf(),
            block_idx < self.layout().meta.len(),
        ensures
            r.readable(),
            r.entries() == self.layout().block(block_idx as int),
    {
        assert(self.layout().block_ok(block_idx as int));
        let start: usize = self.block_meta[block_idx].offset;
        let stop: usize = if block_idx < self.block_meta.len() - 1 {
            self.block_meta[block_idx + 1].offset
        } else {
            self.block_meta_offset
        };
        let raw: &[u8] = vstd::slice::slice_subrange(self.file.data.as_slice(), start, stop - 4);
        Arc::new(Block::decode(raw))
    }

    /// Find the block that may contain `key`.
    pub fn find_block_idx(&self, key: KeySlice<'_>) -> (r: usize)
        requires
            self.wf(),
        ensures
            self.layout().meta.len() > 0 ==> r < self.layout().meta.len(),
            self.layout().meta.len() == 0 ==> r == 0,
            r > 0 ==> key::key_le(self.layout().meta[r as int].first, key@),
            forall|i: int|
                r < i < self.layout().meta.len() ==> key::key_lt(
                    key@,
                    (#[trigger] self.layout().meta[i]).first,
                ),
    {
        let ghost l = self.layout();
        let mut lo: usize = 0;
        let mut hi: usize = self.block_meta.len();
        while lo < hi
            invariant
                self.wf(),
                l == self.layout(),
                lo <= hi <= l.meta.len(),
                lo > 0 ==> key::key_le(l.meta[lo - 1].first, key@),
                forall|i: int|
                    hi <= i < l.meta.len() ==> key::key_lt(key@, (#[trigger] l.meta[i]).first),
            decreases hi - lo,
        {
            let mid: usize = lo + (hi - lo) / 2;
            match self.block_meta[mid].first_key.as_key_slice().compare(key) {
                Order::Greater => {
                    proof {
                        broadcast use crate::key::group_key_order;

                        assert forall|i: int| mid <= i < l.meta.len() implies key::key_lt(
                            key@,
                            (#[trigger] l.meta[i]).first,
                        ) by {
                            if mid < i {
                                lemma_first_keys(l, mid as int, i);
                            }
                        }
                    }
                    hi = mid;
                },
                _ => {
                    assert(l.meta[mid as int].first == self.block_meta@[mid as int]@.first);
                    lo = mid + 1;
                },
            }
        }
        if lo == 0 {
            0
        } else {
            lo - 1
        }
    }

    /// Get number of data blocks.
    pub fn num_of_blocks(&self) -> (r: usize)
        ensures
            r == self.layout().meta.len(),
    {
        self.block_meta.len()
    }

    pub fn first_key(&self) -> (r: &KeyVec)
        ensures
            r@ == self.first(),
    {
        &self.first_key
    }

    pub fn last_key(&self) -> (r: &KeyVec)
        ensures
            r@ == self.last(),
    {
        &self.last_key
    }

    /// The filter on user keys.
    pub fn bloom(&self) -> (r: &Option<Bloom>)
        ensures
            *r == self.filter(),
    {
        &self.bloom
    }

    pub fn sst_id(&self) -> (r: usize)
        ensures
            r == self.id(),
    {
        self.id
    }

    pub fn max_ts(&self) -> (r: u64)
        ensures
            r == self.newest(),
    {
        self.max_ts
    }

    /// The content of the table's file.
    pub fn file_content(&self) -> (r: &[u8])
        ensures
            r@ == self.content(),
    {
        self.file.data.as_slice()
    }
}

/// In a sorted table each block begins behind the end of the block before.
proof fn lemma_blocks_ordered(l: Layout, i: int)
    requires
        model::sorted(l.entries()),
        0 < i < l.meta.len(),
        l.block_ok(i - 1),
        l.block_ok(i),
    ensures
        key::key_lt(l.meta[i - 1].last, l.meta[i].first),
{
    model::lemma_concat_sorted(l.blocks(), i - 1, i);
    let a = l.blocks()[i - 1];
    let b = l.blocks()[i];
    assert(a == l.block(i - 1) && b == l.block(i));
    assert(key::key_lt(a[a.len() - 1].key, b[0].key));
}

pub(crate) proof fn lemma_block_sorted(l: Layout, i: int)
    requires
        model::sorted(l.entries()),
        0 <= i < l.meta.len(),
    ensures
        model::sorted(l.block(i)),
{
    model::lemma_concat_at(l.blocks(), i);
    let before = model::concat(l.blocks().take(i));
    let rest = model::concat(l.blocks().skip(i + 1));
    assert(l.blocks()[i] == l.block(i));
    model::lemma_sorted_parts(before, l.block(i) + rest);
    model::lemma_sorted_parts(l.block(i), rest);
}

proof fn lemma_block_covered(l: Layout, i: int, filter: Seq<u8>, k: u8)
    requires
        layout::covers(filter, k, l.entries()),
        0 <= i < l.meta.len(),
    ensures
        layout::covers(filter, k, l.block(i)),
{
    let here = l.block(i);
    assert forall|j: int|
        0 <= j < here.len() && deps::hashable((#[trigger] here[j]).key.key) implies (k > 30
        || bloom::filter_holds(filter, k as int, deps::fingerprint32_of(here[j].key.key))) by {
        assert(l.blocks()[i] == here);
        let x = model::lemma_concat_has(l.blocks(), i, j);
        assert(l.entries()[x] == here[j]);
    }
}

/// What holds of the blocks before `i` and of block `i` holds of them together.
proof fn lemma_block_added(l: Layout, i: int, filter: Seq<u8>, k: u8)
    requires
        0 <= i < l.meta.len(),
        forall|j: int| 0 <= j <= i ==> #[trigger] l.block_ok(j),
        model::sorted(model::concat(l.blocks().take(i))),
        model::sorted(l.block(i)),
        i > 0 ==> key::key_lt(l.meta[i - 1].last, l.meta[i].first),
        layout::covers(filter, k, model::concat(l.blocks().take(i))),
        layout::covers(filter, k, l.block(i)),
    ensures
        model::sorted(model::concat(l.blocks().take(i + 1))),
        layout::covers(filter, k, model::concat(l.blocks().take(i + 1))),
        model::max_ts(model::concat(l.blocks().take(i + 1))) == model::larger(
            model::max_ts(model::concat(l.blocks().take(i))),
            model::max_ts(l.block(i)),
        ),
{
    let before = model::concat(l.blocks().take(i));
    let here = l.block(i);
    model::lemma_concat_at(l.blocks(), i);
    assert(l.blocks()[i] == here);
    assert(l.block_ok(i));
    if i == 0 {
        assert(before =~= Seq::empty());
    } else {
        assert(l.block_ok(i - 1));
        model::lemma_concat_at(l.blocks(), i - 1);
        assert(l.blocks()[i - 1] == l.block(i - 1));
        assert(before.last() == l.block(i - 1).last());
    }
    model::lemma_sorted_append(before, here);
    model::lemma_max_ts_append(before, here);
    let all = before + here;
    assert forall|j: int|
        0 <= j < all.len() && deps::hashable((#[trigger] all[j]).key.key) implies (k > 30
        || bloom::filter_holds(filter, k as int, deps::fingerprint32_of(all[j].key.key))) by {
        if j < before.len() {
            assert(all[j] == before[j]);
        } else {
            assert(all[j] == here[j - before.len()]);
        }
    }
}

/// The first keys of the blocks ascend.
proof fn lemma_first_keys(l: Layout, i: int, j: int)
    requires
        l.ok(),
        0 <= i < j < l.meta.len(),
    ensures
        key::key_lt(l.meta[i].first, l.meta[j].first),
{
    assert(l.block_ok(i) && l.block_ok(j));
    model::lemma_concat_sorted(l.blocks(), i, j);
    assert(l.blocks()[i] == l.block(i) && l.blocks()[j] == l.block(j));
    assert(key::key_lt(l.blocks()[i][0].key, l.blocks()[j][0].key));
}

/// Takes a file apart: where the notes on blocks begin, these notes, and the filter.
fn read_parts(data: &[u8]) -> (r: Option<(usize, Vec<BlockMeta>, Bloom)>)
    ensures
        r is None <==> layout::file_parts(data@) is None,
        r matches Some((m, ms, b)) ==> layout::file_parts(data@) == Some(
            FileParts {
                layout: Layout { data: data@, meta: block_meta::metas(ms@), end: m as int },
                filter: deps::bytes_seq(b.filter),
                k: b.k,
            },
        ),
{
    assert(data@.len() == data.len());
    let n: usize = data.len();
    if n < 4 {
        return None;
    }
    let bloom_offset: usize = codec::get_u32(data, n - 4) as usize;
    if n < 8 || bloom_offset < 4 || bloom_offset > n - 8 {
        return None;
    }
    let bloom_len: usize = codec::get_u32(data, bloom_offset) as usize;
    if bloom_len != n - 8 - bloom_offset {
        return None;
    }
    let block_meta_offset: usize = codec::get_u32(data, bloom_offset - 4) as usize;
    if block_meta_offset > bloom_offset - 4 {
        return None;
    }
    let bloom = match Bloom::decode(vstd::slice::slice_subrange(data, bloom_offset + 4, n - 4)) {
        Err(_) => {
            return None;
        },
        Ok(b) => b,
    };
    match BlockMeta::decode_block_meta(
        vstd::slice::slice_subrange(data, block_meta_offset, bloom_offset - 4),
    ) {
        Err(_) => None,
        Ok(ms) => Some((block_meta_offset, ms, bloom)),
    }
}

/// The keys of a block's entries, if the block is in order.
fn read_keys(
    data: &[u8],
    start: usize,
    stop: usize,
    meta: &BlockMeta,
    Ghost(l): Ghost<Layout>,
    Ghost(i): Ghost<int>,
) -> (r: Option<Vec<KeyVec>>)
    requires
        l.data == data@,
        0 <= i < l.meta.len(),
        l.start(i) == start,
        l.stop(i) == stop,
        l.meta[i] == meta@,
    ensures
        r is Some <==> l.block_ok(i),
        r matches Some(keys) ==> are_keys(keys@, l.block(i)),
{
    assert(data@.len() == data.len());
    if stop > data.len() || stop < 4 || start > stop - 4 {
        return None;
    }
    let raw: &[u8] = vstd::slice::slice_subrange(data, start, stop - 4);
    assert(raw@ == l.raw(i));
    if deps::crc32(raw) != codec::get_u32(data, stop - 4) {
        return None;
    }
    let n: usize = raw.len();
    if n < 2 || n < 6 + 2 * (codec::get_u16(raw, n - 2) as usize) {
        return None;
    }
    let block = Block::decode(raw);
    if !block.is_readable() || block.offsets.len() == 0 {
        return None;
    }
    let ghost s = l.block(i);
    assert(block.entries() == s);
    let keys = keys_of(Arc::new(block), Ghost(s));
    let last: usize = keys.len() - 1;
    match keys[0].as_key_slice().compare(meta.first_key.as_key_slice()) {
        Order::Equal => {},
        _ => {
            return None;
        },
    }
    match keys[last].as_key_slice().compare(meta.last_key.as_key_slice()) {
        Order::Equal => {},
        _ => {
            return None;
        },
    }
    Some(keys)
}

/// The keys belong to the entries, one for one.
spec fn are_keys(keys: Seq<KeyVec>, s: Seq<Entry>) -> bool {
    keys.len() == s.len() && forall|j: int| 0 <= j < s.len() ==> (#[trigger] keys[j])@ == s[j].key
}

/// The keys of a block's entries.
fn keys_of(block: Arc<Block>, Ghost(s): Ghost<Seq<Entry>>) -> (r: Vec<KeyVec>)
    requires
        block.readable(),
        block.entries() == s,
    ensures
        are_keys(r@, s),
{
    let n: usize = block.offsets.len();
    let mut iter = BlockIterator::create_and_seek_to_first(block);
    let mut keys: Vec<KeyVec> = Vec::new();
    while keys.len() < n
        invariant
            iter.wf(),
            iter.block().entries() == s,
            iter.position() == keys@.len(),
            keys@.len() <= n == s.len(),
            forall|j: int| 0 <= j < keys@.len() ==> (#[trigger] keys@[j])@ == s[j].key,
        decreases n - keys@.len(),
    {
        assert(iter.remaining().len() > 0);
        keys.push(iter.key().to_key_vec());
        iter.next();
    }
    keys
}

fn is_sorted(keys: &Vec<KeyVec>, Ghost(s): Ghost<Seq<Entry>>) -> (r: bool)
    requires
        are_keys(keys@, s),
    ensures
        r == model::sorted(s),
{
    let mut i: usize = 1;
    if keys.len() == 0 {
        return true;
    }
    while i < keys.len()
        invariant
            1 <= i <= keys.len(),
            are_keys(keys@, s),
            model::sorted(s.take(i as int)),
        decreases keys.len() - i,
    {
        match keys[i - 1].as_key_slice().compare(keys[i].as_key_slice()) {
            Order::Less => {},
            _ => {
                proof {
                    broadcast use crate::key::group_key_order;

                    if model::sorted(s) {
                        assert(key::key_lt(s[i - 1].key, s[i as int].key));
                    }
                }
                return false;
            },
        }
        proof {
            let one = seq![s[i as int]];
            model::lemma_sorted_append(s.take(i as int), one);
            assert(s.take(i as int) + one =~= s.take(i + 1));
        }
        i = i + 1;
    }
    assert(s.take(i as int) =~= s);
    true
}

/// Tells whether the filter lets all keys pass that have a hash.
fn all_pass(keys: &Vec<KeyVec>, bloom: &Bloom, Ghost(s): Ghost<Seq<Entry>>) -> (r: bool)
    requires
        are_keys(keys@, s),
        bloom.wf(),
    ensures
        r == layout::covers(deps::bytes_seq(bloom.filter), bloom.k, s),
{
    let mut i: usize = 0;
    while i < keys.len()
        invariant
            i <= keys.len(),
            are_keys(keys@, s),
            bloom.wf(),
            forall|j: int|
                0 <= j < i ==> bloom.lets_pass((#[trigger] s[j]).key.key),
        decreases keys.len() - i,
    {
        let key: &[u8] = keys[i].as_key_slice().key_ref();
        assert(key@ == s[i as int].key.key);
        if !bloom.may_contain_key(key) {
            return false;
        }
        i = i + 1;
    }
    true
}

/// The newest timestamp of the keys and of what came before.
fn newest_of(keys: &Vec<KeyVec>, before: u64, Ghost(s): Ghost<Seq<Entry>>) -> (r: u64)
    requires
        are_keys(keys@, s),
    ensures
        r == model::larger(before, model::max_ts(s)),
{
    let mut newest: u64 = before;
    let mut i: usize = 0;
    while i < keys.len()
        invariant
            i <= keys.len(),
            are_keys(keys@, s),
            newest == model::larger(before, model::max_ts(s.take(i as int))),
        decreases keys.len() - i,
    {
        let ts: u64 = keys[i].as_key_slice().ts();
        if newest < ts {
            newest = ts;
        }
        assert(s.take(i + 1).drop_last() =~= s.take(i as int));
        assert(s.take(i + 1).last() == s[i as int]);
        i = i + 1;
    }
    assert(s.take(i as int) =~= s);
    newest
}

} // verus!
