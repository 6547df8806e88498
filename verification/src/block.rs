//! Blocks: short sorted runs of entries as byte strings.
//!
//! An entry is stored as
//!
//! | overlap (u16) | rest length (u16) | rest of the user key | timestamp (u64) | value length (u16) | value |
//!
//! where the overlap is the number of leading bytes that the user key shares with the user key of
//! the block's first entry. All numbers are big-endian.
pub mod builder;
pub mod iterator;

use vstd::prelude::*;
use bytes::Bytes;
use crate::codec;
use crate::deps;
use crate::key::{KeyTs, KeyVec};
use crate::model::Entry;
pub use crate::block::builder::BlockBuilder;
pub use crate::block::iterator::BlockIterator;

verus! {

/// The size of a stored length.
pub const SIZEOF_U16: usize = 2;

/// A block is the smallest unit of read and caching in LSM tree. It is a collection of sorted
/// key-value pairs.
pub struct Block {
    pub data: Vec<u8>,
    pub offsets: Vec<u16>,
}

/// How many leading bytes two byte strings share.
pub open spec fn common_prefix(a: Seq<u8>, b: Seq<u8>) -> nat
    decreases a.len(),
{
    if a.len() == 0 || b.len() == 0 || a[0] != b[0] {
        0
    } else {
        1 + common_prefix(a.skip(1), b.skip(1))
    }
}

/// The leading bytes that two byte strings share are the same in both, and the next ones differ.
pub proof fn lemma_common_prefix(a: Seq<u8>, b: Seq<u8>)
    ensures
        common_prefix(a, b) <= a.len(),
        common_prefix(a, b) <= b.len(),
        a.take(common_prefix(a, b) as int) == b.take(common_prefix(a, b) as int),
        common_prefix(a, b) < a.len() && common_prefix(a, b) < b.len() ==> a[common_prefix(
            a,
            b,
        ) as int] != b[common_prefix(a, b) as int],
    decreases a.len(),
{
    let n = common_prefix(a, b) as int;
    if n > 0 {
        lemma_common_prefix(a.skip(1), b.skip(1));
        assert(a.take(n) =~= seq![a[0]] + a.skip(1).take(n - 1));
        assert(b.take(n) =~= seq![b[0]] + b.skip(1).take(n - 1));
    } else {
        assert(a.take(0) =~= b.take(0));
    }
}

/// An entry as it is stored.
pub open spec fn entry_bytes(overlap: nat, k: KeyTs, value: Seq<u8>) -> Seq<u8> {
    codec::be_bytes(overlap, 2) + codec::be_bytes((k.key.len() - overlap) as nat, 2) + k.key.skip(
        overlap as int,
    ) + codec::be_bytes(k.ts as nat, 8) + codec::be_bytes(value.len(), 2) + value
}

/// The block's data begin with an entry whose key can be read.
pub open spec fn first_key_readable(data: Seq<u8>) -> bool {
    data.len() >= 4 && 12 + codec::be_at(data, 2, 2) <= data.len()
}

/// The key of the first entry.
pub open spec fn first_key_of(data: Seq<u8>) -> KeyTs {
    let n = codec::be_at(data, 2, 2) as int;
    KeyTs { key: data.subrange(4, 4 + n), ts: codec::be_at(data, 4 + n, 8) as u64 }
}

/// An entry can be read at `off`, in a block whose first user key is `first`.
pub open spec fn entry_readable(data: Seq<u8>, first: Seq<u8>, off: int) -> bool {
    let n = codec::be_at(data, off + 2, 2) as int;
    &&& 0 <= off
    &&& off + 4 <= data.len()
    &&& codec::be_at(data, off, 2) <= first.len()
    &&& off + 14 + n <= data.len()
    &&& off + 14 + n + codec::be_at(data, off + 12 + n, 2) <= data.len()
}

/// The entry that stands at `off`.
pub open spec fn entry_at(data: Seq<u8>, first: Seq<u8>, off: int) -> Entry {
    let o = codec::be_at(data, off, 2) as int;
    let n = codec::be_at(data, off + 2, 2) as int;
    let v = codec::be_at(data, off + 12 + n, 2) as int;
    Entry {
        key: KeyTs {
            key: first.take(o) + data.subrange(off + 4, off + 4 + n),
            ts: codec::be_at(data, off + 4 + n, 8) as u64,
        },
        value: data.subrange(off + 14 + n, off + 14 + n + v),
    }
}

/// How an entry is stored: how many bytes of the user key are those of the first one, how many follow,
/// the bytes that follow, the timestamp, the length of the value, and the value.
pub proof fn lemma_entry_bytes(overlap: nat, k: KeyTs, value: Seq<u8>)
    requires
        overlap <= k.key.len() < 0x1_0000,
        value.len() < 0x1_0000,
    ensures
        ({
            let s = entry_bytes(overlap, k, value);
            let n = k.key.len() - overlap;
            &&& s.len() == 14 + n + value.len()
            &&& codec::be_at(s, 0, 2) == overlap
            &&& codec::be_at(s, 2, 2) == n
            &&& s.subrange(4, 4 + n) == k.key.skip(overlap as int)
            &&& codec::be_at(s, 4 + n, 8) == k.ts
            &&& codec::be_at(s, 12 + n, 2) == value.len()
            &&& s.skip(14 + n) == value
        }),
{
    broadcast use crate::codec::lemma_be_bytes_len;

    let s = entry_bytes(overlap, k, value);
    let n = k.key.len() - overlap;
    codec::lemma_pow256();
    assert(s.subrange(0, 2) =~= codec::be_bytes(overlap, 2));
    assert(s.subrange(2, 4) =~= codec::be_bytes(n as nat, 2));
    assert(s.subrange(4, 4 + n) =~= k.key.skip(overlap as int));
    assert(s.subrange(4 + n, 4 + n + 8) =~= codec::be_bytes(k.ts as nat, 8));
    assert(s.subrange(12 + n, 12 + n + 2) =~= codec::be_bytes(value.len(), 2));
    assert(s.skip(14 + n) =~= value);
    codec::lemma_be_round_trip(overlap, 2);
    codec::lemma_be_round_trip(n as nat, 2);
    codec::lemma_be_round_trip(k.ts as nat, 8);
    codec::lemma_be_round_trip(value.len(), 2);
}

/// A stored length can hold the length of the key and of the value.
pub open spec fn storable(k: KeyTs, value: Seq<u8>) -> bool {
    0 < k.key.len() < 0x1_0000 && value.len() < 0x1_0000
}

/// All entries can be read, and none has an empty user key.
pub open spec fn block_readable(data: Seq<u8>, offsets: Seq<u16>) -> bool {
    &&& first_key_readable(data)
    &&& forall|i: int|
        0 <= i < offsets.len() ==> entry_readable(
            data,
            first_key_of(data).key,
            #[trigger] offsets[i] as int,
        ) && entry_at(data, first_key_of(data).key, offsets[i] as int).key.key.len() > 0
}

/// The entries, in the order of their offsets.
pub open spec fn block_entries(data: Seq<u8>, offsets: Seq<u16>) -> Seq<Entry> {
    Seq::new(
        offsets.len(),
        |i: int| entry_at(data, first_key_of(data).key, offsets[i] as int),
    )
}

/// An entry that is appended to a block's data is read back.
pub proof fn lemma_entry_appended(data: Seq<u8>, first: Seq<u8>, overlap: nat, k: KeyTs, value: Seq<u8>)
    requires
        storable(k, value),
        overlap <= k.key.len(),
        overlap <= first.len(),
        k.key.take(overlap as int) == first.take(overlap as int),
    ensures
        entry_readable(data + entry_bytes(overlap, k, value), first, data.len() as int),
        entry_at(data + entry_bytes(overlap, k, value), first, data.len() as int) == (Entry {
            key: k,
            value,
        }),
{
    broadcast use crate::codec::lemma_be_bytes_len;

    codec::lemma_pow256();
    let d = data + entry_bytes(overlap, k, value);
    let off = data.len() as int;
    let n = (k.key.len() - overlap) as nat;
    let rest = k.key.skip(overlap as int);
    let b1 = codec::be_bytes(overlap, 2);
    let b2 = codec::be_bytes(n, 2);
    let b3 = codec::be_bytes(k.ts as nat, 8);
    let b4 = codec::be_bytes(value.len(), 2);
    assert(d =~= data + b1 + (b2 + rest + b3 + b4 + value));
    codec::lemma_be_at_appended(data, overlap, 2, b2 + rest + b3 + b4 + value);
    assert(d =~= (data + b1) + b2 + (rest + b3 + b4 + value));
    codec::lemma_be_at_appended(data + b1, n, 2, rest + b3 + b4 + value);
    assert(d =~= (data + b1 + b2 + rest) + b3 + (b4 + value));
    codec::lemma_be_at_appended(data + b1 + b2 + rest, k.ts as nat, 8, b4 + value);
    assert(d =~= (data + b1 + b2 + rest + b3) + b4 + value);
    codec::lemma_be_at_appended(data + b1 + b2 + rest + b3, value.len(), 2, value);
    assert(d.subrange(off + 4, off + 4 + n) =~= rest);
    assert(d.subrange(off + 14 + n, off + 14 + n + value.len()) =~= value);
    assert(first.take(overlap as int) + rest =~= k.key);
}

/// Appending to a block's data leaves the entries before as they are.
pub proof fn lemma_entry_stable(data: Seq<u8>, more: Seq<u8>, first: Seq<u8>, off: int)
    requires
        entry_readable(data, first, off),
    ensures
        entry_readable(data + more, first, off),
        entry_at(data + more, first, off) == entry_at(data, first, off),
{
    let d = data + more;
    let n = codec::be_at(data, off + 2, 2) as int;
    let v = codec::be_at(data, off + 12 + n, 2) as int;
    assert(d.subrange(off, off + 2) =~= data.subrange(off, off + 2));
    assert(d.subrange(off + 2, off + 4) =~= data.subrange(off + 2, off + 4));
    assert(d.subrange(off + 4, off + 4 + n) =~= data.subrange(off + 4, off + 4 + n));
    assert(d.subrange(off + 4 + n, off + 12 + n) =~= data.subrange(off + 4 + n, off + 12 + n));
    assert(d.subrange(off + 12 + n, off + 14 + n) =~= data.subrange(off + 12 + n, off + 14 + n));
    assert(d.subrange(off + 14 + n, off + 14 + n + v) =~= data.subrange(
        off + 14 + n,
        off + 14 + n + v,
    ));
}

pub proof fn lemma_first_key_stable(data: Seq<u8>, more: Seq<u8>)
    requires
        first_key_readable(data),
    ensures
        first_key_readable(data + more),
        first_key_of(data + more) == first_key_of(data),
{
    let d = data + more;
    let n = codec::be_at(data, 2, 2) as int;
    assert(d.subrange(2, 4) =~= data.subrange(2, 4));
    assert(d.subrange(4, 4 + n) =~= data.subrange(4, 4 + n));
    assert(d.subrange(4 + n, 12 + n) =~= data.subrange(4 + n, 12 + n));
}

/// The first entry of a block holds the block's first key.
pub proof fn lemma_first_key_stored(k: KeyTs, value: Seq<u8>)
    requires
        storable(k, value),
    ensures
        first_key_readable(entry_bytes(0, k, value)),
        first_key_of(entry_bytes(0, k, value)) == k,
{
    let none = Seq::<u8>::empty();
    assert(k.key.take(0) =~= none.take(0));
    lemma_entry_appended(none, none, 0, k, value);
    let d = entry_bytes(0, k, value);
    assert(none + d =~= d);
    let n = codec::be_at(d, 2, 2) as int;
    assert(none.take(0) + d.subrange(4, 4 + n) =~= d.subrange(4, 4 + n));
    assert(codec::be_at(d, 0, 2) == 0);
}

/// The stored form of the offsets.
pub open spec fn offsets_bytes(offsets: Seq<u16>) -> Seq<u8>
    decreases offsets.len(),
{
    if offsets.len() == 0 {
        Seq::empty()
    } else {
        offsets_bytes(offsets.drop_last()) + codec::be_bytes(offsets.last() as nat, 2)
    }
}

/// The encoded form of a block: the data, their checksum, the offsets, and the number of offsets.
pub open spec fn block_bytes(data: Seq<u8>, offsets: Seq<u16>) -> Seq<u8> {
    data + codec::be_bytes(deps::crc32_of(data) as nat, 4) + offsets_bytes(offsets)
        + codec::be_bytes(offsets.len(), 2)
}

/// The number of offsets of an encoded block.
pub open spec fn encoded_count(s: Seq<u8>) -> int {
    codec::be_at(s, s.len() - 2, 2) as int
}

/// A byte string is long enough for the offsets that it claims to hold, and for a checksum.
pub open spec fn decodable(s: Seq<u8>) -> bool {
    s.len() >= 2 && s.len() >= 6 + 2 * encoded_count(s)
}

pub open spec fn decoded_data(s: Seq<u8>) -> Seq<u8> {
    s.take(s.len() - 6 - 2 * encoded_count(s))
}

pub open spec fn decoded_offsets(s: Seq<u8>) -> Seq<u16> {
    let start = s.len() - 2 - 2 * encoded_count(s);
    Seq::new(
        encoded_count(s) as nat,
        |i: int| codec::be_at(s, start + 2 * i, 2) as u16,
    )
}

/// What is decoded from a byte string: the number of offsets stands in the last two bytes, the offsets
/// before it, and what comes before them is the data and four bytes for a checksum.
pub proof fn lemma_decoded(s: Seq<u8>, i: int)
    requires
        decodable(s),
    ensures
        ({
            let n = codec::be_at(s, s.len() - 2, 2) as int;
            &&& s.len() >= 6 + 2 * n
            &&& decoded_data(s) == s.take(s.len() - 6 - 2 * n)
            &&& decoded_offsets(s).len() == n
            &&& 0 <= i < n ==> decoded_offsets(s)[i] == codec::be_at(
                s,
                s.len() - 2 - 2 * n + 2 * i,
                2,
            )
        }),
{
    let n = codec::be_at(s, s.len() - 2, 2) as int;
    codec::lemma_pow256();
    if 0 <= i < n {
        let at = s.len() - 2 - 2 * n + 2 * i;
        codec::lemma_be_value_bound(s.subrange(at, at + 2));
    }
}

proof fn lemma_offsets_bytes(offsets: Seq<u16>)
    ensures
        offsets_bytes(offsets).len() == 2 * offsets.len(),
        forall|i: int|
            0 <= i < offsets.len() ==> codec::be_at(offsets_bytes(offsets), 2 * i, 2)
                == #[trigger] offsets[i],
    decreases offsets.len(),
{
    broadcast use crate::codec::lemma_be_bytes_len;

    if offsets.len() > 0 {
        let init = offsets.drop_last();
        lemma_offsets_bytes(init);
        codec::lemma_pow256();
        let s = offsets_bytes(offsets);
        let p = offsets_bytes(init);
        assert forall|i: int| 0 <= i < offsets.len() implies codec::be_at(s, 2 * i, 2)
            == #[trigger] offsets[i] by {
            if i < init.len() {
                assert(s.subrange(2 * i, 2 * i + 2) =~= p.subrange(2 * i, 2 * i + 2));
                assert(init[i] == offsets[i]);
            } else {
                assert(s.subrange(2 * i, 2 * i + 2) =~= codec::be_bytes(offsets.last() as nat, 2));
                codec::lemma_be_round_trip(offsets.last() as nat, 2);
            }
        }
    }
}

/// An encoded block begins with the data, goes on with their checksum and the offsets, and ends with
/// the number of offsets.
pub proof fn lemma_block_bytes(data: Seq<u8>, offsets: Seq<u16>)
    ensures
        ({
            let s = block_bytes(data, offsets);
            let n = data.len() as int;
            &&& s.len() == n + 4 + 2 * offsets.len() + 2
            &&& s.take(n) == data
            &&& codec::be_at(s, n, 4) == deps::crc32_of(data)
            &&& forall|i: int|
                0 <= i < offsets.len() ==> codec::be_at(s, n + 4 + 2 * i, 2)
                    == #[trigger] offsets[i]
            &&& codec::be_at(s, s.len() - 2, 2) == offsets.len() % 0x1_0000
        }),
{
    broadcast use crate::codec::lemma_be_bytes_len;

    let s = block_bytes(data, offsets);
    let n = data.len() as int;
    let crc = deps::crc32_of(data) as nat;
    codec::lemma_pow256();
    lemma_offsets_bytes(offsets);
    assert(s.take(n) =~= data);
    assert(s.subrange(n, n + 4) =~= codec::be_bytes(crc, 4));
    codec::lemma_be_round_trip(crc, 4);
    assert forall|i: int| 0 <= i < offsets.len() implies codec::be_at(s, n + 4 + 2 * i, 2)
        == #[trigger] offsets[i] by {
        assert(s.subrange(n + 4 + 2 * i, n + 4 + 2 * i + 2) =~= offsets_bytes(offsets).subrange(
            2 * i,
            2 * i + 2,
        ));
    }
    assert(s.subrange(s.len() - 2, s.len() as int) =~= codec::be_bytes(offsets.len(), 2));
    codec::lemma_be_bytes_mod(offsets.len(), 2);
    codec::lemma_be_round_trip(offsets.len() % 0x1_0000, 2);
}

/// Decoding an encoded block gives back its data and its offsets, if a stored length can hold the
/// number of the offsets.
pub proof fn lemma_block_round_trip(data: Seq<u8>, offsets: Seq<u16>)
    requires
        offsets.len() < 0x1_0000,
    ensures
        decodable(block_bytes(data, offsets)),
        decoded_data(block_bytes(data, offsets)) == data,
        decoded_offsets(block_bytes(data, offsets)) == offsets,
{
    broadcast use crate::codec::lemma_be_bytes_len;

    let s = block_bytes(data, offsets);
    let n = offsets.len() as int;
    codec::lemma_pow256();
    lemma_offsets_bytes(offsets);
    assert(s.subrange(s.len() - 2, s.len() as int) =~= codec::be_bytes(offsets.len(), 2));
    codec::lemma_be_round_trip(offsets.len(), 2);
    assert(decoded_data(s) =~= data);
    let start = s.len() - 2 - 2 * n;
    let o = decoded_offsets(s);
    assert forall|i: int| 0 <= i < n implies o[i] == offsets[i] by {
        assert(s.subrange(start + 2 * i, start + 2 * i + 2) =~= offsets_bytes(offsets).subrange(
            2 * i,
            2 * i + 2,
        ));
    }
    assert(o =~= offsets);
}

impl Block {
    /// All entries can be read, and none has an empty user key.
    pub open spec fn readable(&self) -> bool {
        block_readable(self.data@, self.offsets@)
    }

    pub open spec fn entries(&self) -> Seq<Entry> {
        block_entries(self.data@, self.offsets@)
    }

    /// The key of the block's first entry.
    pub fn get_first_key(&self) -> (r: KeyVec)
        requires
            first_key_readable(self.data@),
        ensures
            r@ == first_key_of(self.data@),
    {
        let data: &[u8] = self.data.as_slice();
        let key_len: usize = codec::get_u16(data, 2) as usize;
        let key = vstd::slice::slice_to_vec(vstd::slice::slice_subrange(data, 4, 4 + key_len));
        let ts = codec::get_u64(data, 4 + key_len);
        KeyVec::from_vec_with_ts(key, ts)
    }

    /// Tells whether all entries can be read, none with an empty user key.
    pub fn is_readable(&self) -> (r: bool)
        ensures
            r == self.readable(),
    {
        let data: &[u8] = self.data.as_slice();
        let n: usize = data.len();
        if n < 4 || n < 12 + codec::get_u16(data, 2) as usize {
            return false;
        }
        let first_len: usize = codec::get_u16(data, 2) as usize;
        let ghost first = first_key_of(data@).key;
        let mut i: usize = 0;
        while i < self.offsets.len()
            invariant
                i <= self.offsets.len(),
                data@ == self.data@,
                n == data@.len(),
                first_key_readable(data@),
                first == first_key_of(data@).key,
                first_len == first.len(),
                forall|j: int|
                    0 <= j < i ==> entry_readable(data@, first, #[trigger] self.offsets@[j] as int)
                        && entry_at(data@, first, self.offsets@[j] as int).key.key.len() > 0,
            decreases self.offsets.len() - i,
        {
            let off: usize = self.offsets[i] as usize;
            assert(off == self.offsets@[i as int]);
            if n < off + 4 {
                return false;
            }
            let overlap: usize = codec::get_u16(data, off) as usize;
            let rest: usize = codec::get_u16(data, off + 2) as usize;
            if overlap > first_len || overlap + rest == 0 || n < off + 14 + rest {
                proof {
                    if overlap <= first_len && n >= off + 14 + rest {
                        assert(entry_at(data@, first, off as int).key.key.len() == 0);
                    }
                }
                return false;
            }
            let value_len: usize = codec::get_u16(data, off + 12 + rest) as usize;
            if n < off + 14 + rest + value_len {
                return false;
            }
            assert(entry_at(data@, first, off as int).key.key.len() == overlap + rest);
            i = i + 1;
        }
        true
    }

    pub fn encode(&self) -> (r: Bytes)
        ensures
            deps::bytes_seq(r) == block_bytes(self.data@, self.offsets@),
    {
        let mut encoded: Vec<u8> = Vec::new();
        codec::put_slice(&mut encoded, self.data.as_slice());
        let checksum = deps::crc32(self.data.as_slice());
        codec::put_u32(&mut encoded, checksum);
        let ghost head = encoded@;
        let mut i: usize = 0;
        assert(self.offsets@.take(0) =~= Seq::empty());
        while i < self.offsets.len()
            invariant
                i <= self.offsets.len(),
                encoded@ =~= head + offsets_bytes(self.offsets@.take(i as int)),
            decreases self.offsets.len() - i,
        {
            codec::put_u16(&mut encoded, self.offsets[i]);
            proof {
                let t = self.offsets@.take(i + 1);
                assert(t.drop_last() =~= self.offsets@.take(i as int));
                assert(t.last() == self.offsets@[i as int]);
            }
            i = i + 1;
        }
        assert(self.offsets@.take(i as int) =~= self.offsets@);
        codec::put_len16(&mut encoded, self.offsets.len());
        assert(encoded@ =~= block_bytes(self.data@, self.offsets@)) by {
            broadcast use crate::codec::lemma_be_bytes_len;

            assert(head =~= self.data@ + codec::be_bytes(deps::crc32_of(self.data@) as nat, 4));
        }
        deps::bytes_from_vec(encoded)
    }

    pub fn decode(data: &[u8]) -> (r: Block)
        requires
            decodable(data@),
        ensures
            r.data@ == decoded_data(data@),
            r.offsets@ == decoded_offsets(data@),
    {
        let data_len: usize = data.len();
        let num_entries: usize = codec::get_u16(data, data_len - 2) as usize;
        let offset_start: usize = (data_len - 2) - 2 * num_entries;
        let mut offsets: Vec<u16> = Vec::new();
        let mut i: usize = 0;
        while i < num_entries
            invariant
                i <= num_entries,
                num_entries == encoded_count(data@),
                decodable(data@),
                data_len == data@.len(),
                offset_start == data_len - 2 - 2 * num_entries,
                offsets@ =~= decoded_offsets(data@).take(i as int),
            decreases num_entries - i,
        {
            let offset = codec::get_u16(data, offset_start + 2 * i);
            offsets.push(offset);
            i = i + 1;
        }
        assert(decoded_offsets(data@).take(num_entries as int) =~= decoded_offsets(data@));
        let decoded = vstd::slice::slice_to_vec(
            vstd::slice::slice_subrange(data, 0, offset_start - 4),
        );
        Block { data: decoded, offsets }
    }
}

} // verus!
