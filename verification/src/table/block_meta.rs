//! What a table notes of each of its blocks.
use vstd::prelude::*;
use crate::codec;
use crate::deps;
use crate::error::LsmError;
use crate::key::{KeyTs, KeyVec};

verus! {

/// Where a block begins, and its first and its last key.
pub struct BlockMeta {
    /// Offset of this data block.
    pub offset: usize,
    /// The first key of the data block.
    pub first_key: KeyVec,
    /// The last key of the data block.
    pub last_key: KeyVec,
}

/// A `BlockMeta` as a mathematical value.
#[verifier::ext_equal]
pub struct Meta {
    pub offset: int,
    pub first: KeyTs,
    pub last: KeyTs,
}

impl View for BlockMeta {
    type V = Meta;

    open spec fn view(&self) -> Meta {
        Meta { offset: self.offset as int, first: self.first_key@, last: self.last_key@ }
    }
}

pub open spec fn metas(s: Seq<BlockMeta>) -> Seq<Meta> {
    s.map_values(|m: BlockMeta| m@)
}

/// A key as it is stored: the length of the user key, the user key, the timestamp.
pub open spec fn key_bytes(k: KeyTs) -> Seq<u8> {
    codec::be_bytes(k.key.len(), 2) + k.key + codec::be_bytes(k.ts as nat, 8)
}

/// One note as it is stored.
pub open spec fn meta_bytes(m: Meta) -> Seq<u8> {
    codec::be_bytes(m.offset as nat, 4) + key_bytes(m.first) + key_bytes(m.last)
}

pub open spec fn records_bytes(ms: Seq<Meta>) -> Seq<u8>
    decreases ms.len(),
{
    if ms.len() == 0 {
        Seq::empty()
    } else {
        records_bytes(ms.drop_last()) + meta_bytes(ms.last())
    }
}

/// The notes as they are stored: their number, each of them, and a checksum of all that.
pub open spec fn metas_bytes(ms: Seq<Meta>) -> Seq<u8> {
    let body = codec::be_bytes(ms.len(), 4) + records_bytes(ms);
    body + codec::be_bytes(deps::crc32_of(body) as nat, 4)
}

/// How notes are stored: their number in four bytes, each of them as the offset in four bytes, the
/// first and the last key, and a checksum of all that in four; a key as the length of the user key in
/// two bytes, the user key, and the timestamp in eight.
pub proof fn lemma_metas_bytes(ms: Seq<Meta>, m: Meta, k: KeyTs)
    ensures
        key_bytes(k) == codec::be_bytes(k.key.len(), 2) + k.key + codec::be_bytes(k.ts as nat, 8),
        meta_bytes(m) == codec::be_bytes(m.offset as nat, 4) + key_bytes(m.first) + key_bytes(
            m.last,
        ),
        records_bytes(Seq::empty()) == Seq::<u8>::empty(),
        records_bytes(ms.push(m)) == records_bytes(ms) + meta_bytes(m),
        ({
            let s = metas_bytes(ms);
            let n = s.len() - 4;
            &&& n == 4 + records_bytes(ms).len()
            &&& s.take(4) == codec::be_bytes(ms.len(), 4)
            &&& s.subrange(4, n) == records_bytes(ms)
            &&& codec::be_at(s, n, 4) == deps::crc32_of(s.take(n))
        }),
{
    broadcast use crate::codec::lemma_be_bytes_len;

    assert(ms.push(m).drop_last() =~= ms);
    let s = metas_bytes(ms);
    let n = s.len() - 4;
    let body = codec::be_bytes(ms.len(), 4) + records_bytes(ms);
    let crc = deps::crc32_of(body) as nat;
    codec::lemma_pow256();
    assert(s.take(n) =~= body);
    assert(s.take(4) =~= codec::be_bytes(ms.len(), 4));
    assert(s.subrange(4, n) =~= records_bytes(ms));
    assert(s.subrange(n, n + 4) =~= codec::be_bytes(crc, 4));
    codec::lemma_be_round_trip(crc, 4);
}

/// The stored lengths can hold the sizes in a note.
pub open spec fn meta_fits(m: Meta) -> bool {
    0 <= m.offset < 0x1_0000_0000 && m.first.key.len() < 0x1_0000 && m.last.key.len() < 0x1_0000
}

/// The key that stands at `i`, and where it ends.
pub open spec fn key_at(s: Seq<u8>, i: int) -> Option<(KeyTs, int)> {
    let n = codec::be_at(s, i, 2) as int;
    if i + 2 > s.len() || i + 10 + n > s.len() {
        None
    } else {
        Some(
            (
                KeyTs {
                    key: s.subrange(i + 2, i + 2 + n),
                    ts: codec::be_at(s, i + 2 + n, 8) as u64,
                },
                i + 10 + n,
            ),
        )
    }
}

/// The note that stands at `i`, and where it ends.
pub open spec fn meta_at(s: Seq<u8>, i: int) -> Option<(Meta, int)> {
    if i + 4 > s.len() {
        None
    } else {
        match key_at(s, i + 4) {
            None => None,
            Some((first, j)) => match key_at(s, j) {
                None => None,
                Some((last, k)) => Some(
                    (Meta { offset: codec::be_at(s, i, 4) as int, first, last }, k),
                ),
            },
        }
    }
}

/// The `n` notes that stand from `i` on, and where they end.
pub open spec fn metas_at(s: Seq<u8>, i: int, n: nat) -> Option<(Seq<Meta>, int)>
    decreases n,
{
    if n == 0 {
        Some((Seq::empty(), i))
    } else {
        match metas_at(s, i, (n - 1) as nat) {
            None => None,
            Some((ms, j)) => match meta_at(s, j) {
                None => None,
                Some((m, k)) => Some((ms.push(m), k)),
            },
        }
    }
}

/// What decoding gives: the notes, if there are as many as announced, they fill the byte string,
/// and the checksum belongs to them.
pub open spec fn metas_decoded(s: Seq<u8>) -> Option<Seq<Meta>> {
    let n = s.len() - 4;
    if n < 4 || deps::crc32_of(s.take(n)) != codec::be_at(s, n, 4) {
        None
    } else {
        match metas_at(s.take(n), 4, codec::be_at(s, 0, 4)) {
            None => None,
            Some((ms, end)) => if end == n {
                Some(ms)
            } else {
                None
            },
        }
    }
}

proof fn lemma_key_at(p: Seq<u8>, k: KeyTs, q: Seq<u8>)
    requires
        k.key.len() < 0x1_0000,
    ensures
        key_bytes(k).len() == 10 + k.key.len(),
        key_at(p + key_bytes(k) + q, p.len() as int) == Some(
            (k, (p.len() + key_bytes(k).len()) as int),
        ),
{
    broadcast use crate::codec::lemma_be_bytes_len;

    codec::lemma_pow256();
    let s = p + key_bytes(k) + q;
    let n = k.key.len() as int;
    let i = p.len() as int;
    let b1 = codec::be_bytes(k.key.len(), 2);
    let b2 = codec::be_bytes(k.ts as nat, 8);
    assert(s =~= p + b1 + (k.key + b2 + q));
    codec::lemma_be_at_appended(p, k.key.len(), 2, k.key + b2 + q);
    assert(s =~= (p + b1 + k.key) + b2 + q);
    codec::lemma_be_at_appended(p + b1 + k.key, k.ts as nat, 8, q);
    assert(s.subrange(i + 2, i + 2 + n) =~= k.key);
}

proof fn lemma_meta_at(p: Seq<u8>, m: Meta, q: Seq<u8>)
    requires
        meta_fits(m),
    ensures
        meta_at(p + meta_bytes(m) + q, p.len() as int) == Some(
            (m, (p.len() + meta_bytes(m).len()) as int),
        ),
{
    broadcast use crate::codec::lemma_be_bytes_len;

    codec::lemma_pow256();
    let s = p + meta_bytes(m) + q;
    let b = codec::be_bytes(m.offset as nat, 4);
    let k1 = key_bytes(m.first);
    let k2 = key_bytes(m.last);
    assert(s =~= p + b + (k1 + k2 + q));
    codec::lemma_be_at_appended(p, m.offset as nat, 4, k1 + k2 + q);
    assert(s =~= (p + b) + k1 + (k2 + q));
    lemma_key_at(p + b, m.first, k2 + q);
    assert(s =~= (p + b + k1) + k2 + q);
    lemma_key_at(p + b + k1, m.last, q);
}

proof fn lemma_metas_at(p: Seq<u8>, ms: Seq<Meta>, q: Seq<u8>)
    requires
        forall|i: int| 0 <= i < ms.len() ==> meta_fits(#[trigger] ms[i]),
    ensures
        metas_at(p + records_bytes(ms) + q, p.len() as int, ms.len()) == Some(
            (ms, (p.len() + records_bytes(ms).len()) as int),
        ),
    decreases ms.len(),
{
    if ms.len() == 0 {
        assert(ms =~= Seq::empty());
    } else {
        let init = ms.drop_last();
        let m = ms.last();
        assert forall|i: int| 0 <= i < init.len() implies meta_fits(#[trigger] init[i]) by {
            assert(init[i] == ms[i]);
        }
        lemma_metas_at(p, init, meta_bytes(m) + q);
        let s = p + records_bytes(ms) + q;
        assert(s =~= p + records_bytes(init) + (meta_bytes(m) + q));
        assert(s =~= (p + records_bytes(init)) + meta_bytes(m) + q);
        lemma_meta_at(p + records_bytes(init), m, q);
        assert(init.push(m) =~= ms);
    }
}

proof fn lemma_key_is_stored(s: Seq<u8>, i: int)
    requires
        0 <= i,
        key_at(s, i) is Some,
    ensures
        ({
            let (k, j) = key_at(s, i)->0;
            &&& i <= j <= s.len()
            &&& s.subrange(i, j) == key_bytes(k)
        }),
{
    codec::lemma_pow256();
    let n = codec::be_at(s, i, 2) as int;
    let a = s.subrange(i, i + 2);
    let b = s.subrange(i + 2 + n, i + 2 + n + 8);
    codec::lemma_be_value_bound(b);
    codec::lemma_be_bytes_value(a);
    codec::lemma_be_bytes_value(b);
    assert(s.subrange(i, i + 10 + n) =~= a + s.subrange(i + 2, i + 2 + n) + b);
}

proof fn lemma_meta_is_stored(s: Seq<u8>, i: int)
    requires
        0 <= i,
        meta_at(s, i) is Some,
    ensures
        ({
            let (m, j) = meta_at(s, i)->0;
            &&& i <= j <= s.len()
            &&& s.subrange(i, j) == meta_bytes(m)
        }),
{
    let (first, j) = key_at(s, i + 4)->0;
    let (last, k) = key_at(s, j)->0;
    lemma_key_is_stored(s, i + 4);
    lemma_key_is_stored(s, j);
    let a = s.subrange(i, i + 4);
    codec::lemma_be_bytes_value(a);
    assert(s.subrange(i, k) =~= a + s.subrange(i + 4, j) + s.subrange(j, k));
}

proof fn lemma_metas_are_stored(s: Seq<u8>, i: int, n: nat)
    requires
        0 <= i <= s.len(),
        metas_at(s, i, n) is Some,
    ensures
        ({
            let (ms, j) = metas_at(s, i, n)->0;
            &&& ms.len() == n
            &&& i <= j <= s.len()
            &&& s.subrange(i, j) == records_bytes(ms)
        }),
    decreases n,
{
    if n == 0 {
        assert(s.subrange(i, i) =~= Seq::empty());
    } else {
        let (ms, j) = metas_at(s, i, (n - 1) as nat)->0;
        let (m, k) = meta_at(s, j)->0;
        lemma_metas_are_stored(s, i, (n - 1) as nat);
        lemma_meta_is_stored(s, j);
        assert(ms.push(m).drop_last() =~= ms);
        assert(s.subrange(i, k) =~= s.subrange(i, j) + s.subrange(j, k));
    }
}

/// A byte string from which notes are decoded is their stored form.
pub proof fn lemma_decoded_is_stored(s: Seq<u8>)
    requires
        metas_decoded(s) is Some,
    ensures
        s == metas_bytes(metas_decoded(s)->0),
{
    let n = s.len() - 4;
    let t = s.take(n);
    let count = codec::be_at(s, 0, 4);
    lemma_metas_are_stored(t, 4, count);
    let (ms, end) = metas_at(t, 4, count)->0;
    let a = s.subrange(0, 4);
    let c = s.subrange(n, n + 4);
    codec::lemma_be_bytes_value(a);
    codec::lemma_be_bytes_value(c);
    let body = codec::be_bytes(ms.len(), 4) + records_bytes(ms);
    assert(t =~= a + t.subrange(4, n));
    assert(t == body);
    assert(s =~= t + c);
}

/// Notes that are decoded from their stored form are the notes themselves, if stored lengths can
/// hold their sizes.
pub proof fn lemma_metas_round_trip(ms: Seq<Meta>)
    requires
        ms.len() < 0x1_0000_0000,
        forall|i: int| 0 <= i < ms.len() ==> meta_fits(#[trigger] ms[i]),
    ensures
        metas_decoded(metas_bytes(ms)) == Some(ms),
{
    broadcast use crate::codec::lemma_be_bytes_len;

    codec::lemma_pow256();
    let count = codec::be_bytes(ms.len(), 4);
    let body = count + records_bytes(ms);
    let crc = deps::crc32_of(body) as nat;
    let s = metas_bytes(ms);
    let n = s.len() - 4;
    assert(s.take(n) =~= body);
    assert(s =~= body + codec::be_bytes(crc, 4) + Seq::empty());
    codec::lemma_be_at_appended(body, crc, 4, Seq::empty());
    let none = Seq::<u8>::empty();
    assert(s =~= none + count + (records_bytes(ms) + codec::be_bytes(crc, 4)));
    codec::lemma_be_at_appended(none, ms.len(), 4, records_bytes(ms) + codec::be_bytes(crc, 4));
    lemma_metas_at(count, ms, none);
    assert(count + records_bytes(ms) + none =~= body);
}

fn put_key(buf: &mut Vec<u8>, k: &KeyVec)
    ensures
        final(buf)@ == old(buf)@ + key_bytes(k@),
{
    let k = k.as_key_slice();
    codec::put_len16(buf, k.len());
    codec::put_slice(buf, k.key_ref());
    codec::put_u64(buf, k.ts());
    assert(buf@ =~= old(buf)@ + key_bytes(k@));
}

fn get_key(s: &[u8], i: usize) -> (r: Option<(KeyVec, usize)>)
    requires
        i <= s@.len(),
    ensures
        r is None <==> key_at(s@, i as int) is None,
        r matches Some((k, j)) ==> key_at(s@, i as int) == Some((k@, j as int)) && j <= s@.len(),
{
    assert(s@.len() == s.len());
    let left: usize = s.len() - i;
    if left < 2 {
        return None;
    }
    let n: usize = codec::get_u16(s, i) as usize;
    if left < 10 + n {
        return None;
    }
    let key = vstd::slice::slice_to_vec(vstd::slice::slice_subrange(s, i + 2, i + 2 + n));
    let ts = codec::get_u64(s, i + 2 + n);
    Some((KeyVec::from_vec_with_ts(key, ts), i + 10 + n))
}

impl BlockMeta {
    /// Encode block meta to a buffer.
    pub fn encode_block_meta(block_meta: &[BlockMeta], buf: &mut Vec<u8>)
        ensures
            final(buf)@ == old(buf)@ + metas_bytes(metas(block_meta@)),
    {
        let ghost all = metas(block_meta@);
        let start: usize = buf.len();
        codec::put_len32(buf, block_meta.len());
        let ghost count = codec::be_bytes(block_meta@.len(), 4);
        let mut i: usize = 0;
        assert(all.take(0) =~= Seq::empty());
        while i < block_meta.len()
            invariant
                i <= block_meta.len(),
                all == metas(block_meta@),
                buf@ =~= old(buf)@ + count + records_bytes(all.take(i as int)),
            decreases block_meta.len() - i,
        {
            let meta = &block_meta[i];
            codec::put_len32(buf, meta.offset);
            put_key(buf, &meta.first_key);
            put_key(buf, &meta.last_key);
            proof {
                let t = all.take(i + 1);
                assert(t.drop_last() =~= all.take(i as int));
                assert(t.last() == meta@);
                assert(buf@ =~= old(buf)@ + count + (records_bytes(all.take(i as int))
                    + meta_bytes(meta@)));
            }
            i = i + 1;
        }
        assert(all.take(i as int) =~= all);
        let end: usize = buf.len();
        let checksum = deps::crc32(vstd::slice::slice_subrange(buf.as_slice(), start, end));
        assert(buf@.subrange(start as int, end as int) =~= count + records_bytes(all));
        codec::put_u32(buf, checksum);
        assert(buf@ =~= old(buf)@ + metas_bytes(all));
    }

    /// Decode block meta from a buffer.
    pub fn decode_block_meta(buf: &[u8]) -> (r: Result<Vec<BlockMeta>, LsmError>)
        ensures
            r matches Ok(ms) ==> metas_decoded(buf@) == Some(metas(ms@)),
            r matches Err(e) ==> metas_decoded(buf@) is None && e == LsmError::Corrupted,
    {
        if buf.len() < 8 {
            return Err(LsmError::Corrupted);
        }
        let n: usize = buf.len() - 4;
        let body: &[u8] = vstd::slice::slice_subrange(buf, 0, n);
        assert(body@ =~= buf@.take(n as int));
        if deps::crc32(body) != codec::get_u32(buf, n) {
            return Err(LsmError::Corrupted);
        }
        let count: u32 = codec::get_u32(buf, 0);
        let mut result: Vec<BlockMeta> = Vec::new();
        let mut pos: usize = 4;
        let mut i: u32 = 0;
        assert(metas(result@) =~= Seq::empty());
        while i < count
            invariant
                i <= count,
                pos <= body@.len(),
                metas_at(body@, 4, i as nat) == Some((metas(result@), pos as int)),
                body@ == buf@.take(n as int),
                n == buf@.len() - 4,
                n >= 4,
                count == codec::be_at(buf@, 0, 4),
            decreases count - i,
        {
            proof {
                if meta_at(body@, pos as int) is None {
                    lemma_metas_at_none(body@, 4, (i + 1) as nat, count as nat);
                }
            }
            assert(body@.len() == body.len());
            if body.len() - pos < 4 {
                return Err(LsmError::Corrupted);
            }
            let offset: usize = codec::get_u32(body, pos) as usize;
            let (first_key, next) = match get_key(body, pos + 4) {
                None => {
                    return Err(LsmError::Corrupted);
                },
                Some(x) => x,
            };
            let (last_key, next) = match get_key(body, next) {
                None => {
                    return Err(LsmError::Corrupted);
                },
                Some(x) => x,
            };
            let ghost before = metas(result@);
            result.push(BlockMeta { offset, first_key, last_key });
            assert(metas(result@) =~= before.push(result@.last()@));
            pos = next;
            i = i + 1;
        }
        if pos != n {
            return Err(LsmError::Corrupted);
        }
        Ok(result)
    }
}

/// If some notes cannot be read, neither can more of them.
proof fn lemma_metas_at_none(s: Seq<u8>, i: int, m: nat, n: nat)
    requires
        m <= n,
        metas_at(s, i, m) is None,
    ensures
        metas_at(s, i, n) is None,
    decreases n - m,
{
    if m < n {
        lemma_metas_at_none(s, i, m + 1, n);
    }
}

} // verus!
