//! What the engine takes from other crates, and what it believes of it.
//!
//! Nothing in the bodies of the functions marked `external_body` is proved: their contracts say
//! what the called functions are believed to do.
use vstd::prelude::*;
use bytes::Bytes;
use crossbeam_skiplist::SkipMap;
use crate::key;

verus! {

/// An end of a range of keys.
#[derive(Clone, Copy)]
pub enum Bound<T> {
    Included(T),
    Excluded(T),
    Unbounded,
}

#[verifier::external_type_specification]
#[verifier::external_body]
pub struct ExBytes(bytes::Bytes);

/// The bytes that a buffer of `bytes::Bytes` holds.
pub uninterp spec fn bytes_seq(b: Bytes) -> Seq<u8>;

/// `Bytes::from` of a vector: a buffer that holds the vector's bytes.
#[verifier::external_body]
pub(crate) fn bytes_from_vec(v: Vec<u8>) -> (r: Bytes)
    ensures
        bytes_seq(r) == v@,
{
    Bytes::from(v)
}

/// `Bytes::copy_from_slice`: a buffer that holds the slice's bytes.
#[verifier::external_body]
pub(crate) fn bytes_copy(s: &[u8]) -> (r: Bytes)
    ensures
        bytes_seq(r) == s@,
{
    Bytes::copy_from_slice(s)
}

/// `Bytes::as_ref`: the bytes that the buffer holds.
#[verifier::external_body]
pub(crate) fn bytes_slice(b: &Bytes) -> (r: &[u8])
    ensures
        r@ == bytes_seq(*b),
{
    b.as_ref()
}

/// The checksum that `crc32fast::hash` computes of a byte string.
pub uninterp spec fn crc32_of(data: Seq<u8>) -> u32;

/// `crc32fast::hash`: the CRC32 checksum of the bytes, a function of them alone.
#[verifier::external_body]
pub(crate) fn crc32(data: &[u8]) -> (r: u32)
    ensures
        r == crc32_of(data@),
{
    crc32fast::hash(data)
}

/// The number that four bytes spell, the least significant first.
pub open spec fn le32_at(s: Seq<u8>, i: int) -> int {
    s[i] + s[i + 1] * 0x100 + s[i + 2] * 0x1_0000 + s[i + 3] * 0x100_0000
}

/// The 32-bit sums that farmhash forms of a key of 5 to 24 bytes without wrapping do not overflow.
/// Where one does, farmhash panics if it is compiled with overflow checks.
pub open spec fn hashable(s: Seq<u8>) -> bool {
    let n = s.len() as int;
    if 5 <= n <= 12 {
        &&& le32_at(s, 0) + n <= u32::MAX
        &&& le32_at(s, n - 4) + 5 * n <= u32::MAX
        &&& le32_at(s, if n < 8 { 0 } else { 4 }) + 9 <= u32::MAX
    } else if 13 <= n <= 24 {
        (le32_at(s, n / 2) * 0xcc9e_2d51) % 0x1_0000_0000 + n <= u32::MAX
    } else {
        true
    }
}

/// Keys that have a hash: all that are shorter than 5 bytes or longer than 24; of those up to 12 bytes
/// all in which no byte that is the most significant of a sum is 0xff; and of the others those whose
/// one product leaves room for their length.
pub proof fn lemma_when_hashable(s: Seq<u8>)
    ensures
        s.len() < 5 || s.len() > 24 ==> hashable(s),
        5 <= s.len() <= 12 && s[3] < 0xff && s[s.len() - 1] < 0xff && (s.len() >= 8 ==> s[7] < 0xff)
            ==> hashable(s),
        13 <= s.len() <= 24 && le32_at(s, s.len() as int / 2) * 0xcc9e_2d51 % 0x1_0000_0000
            <= 0xffff_ffff - 24 ==> hashable(s),
{
}

fn le32(s: &[u8], i: usize) -> (r: u64)
    requires
        i + 4 <= s@.len(),
    ensures
        r == le32_at(s@, i as int),
        r <= u32::MAX,
{
    assert(s@.len() == s.len());
    s[i] as u64 + s[i + 1] as u64 * 0x100 + s[i + 2] as u64 * 0x1_0000 + s[i + 3] as u64 * 0x100_0000
}

/// Tells whether a key has a farmhash.
pub fn is_hashable(s: &[u8]) -> (r: bool)
    ensures
        r == hashable(s@),
{
    let n: usize = s.len();
    if 5 <= n && n <= 12 {
        let mid: usize = if n < 8 { 0 } else { 4 };
        le32(s, 0) + n as u64 <= 0xffff_ffff && le32(s, n - 4) + 5 * n as u64 <= 0xffff_ffff && le32(
            s,
            mid,
        ) + 9 <= 0xffff_ffff
    } else if 13 <= n && n <= 24 {
        let d: u64 = le32(s, n / 2);
        assert(d * 0xcc9e_2d51u64 <= 0xffff_ffff * 0xcc9e_2d51u64) by (nonlinear_arith)
            requires
                d <= 0xffff_ffff,
        ;
        (d * 0xcc9e_2d51) % 0x1_0000_0000 + n as u64 <= 0xffff_ffff
    } else {
        true
    }
}

/// The value that `farmhash::fingerprint32` gives for a byte string.
pub uninterp spec fn fingerprint32_of(s: Seq<u8>) -> u32;

/// `farmhash::fingerprint32`: a hash of the bytes that is the same on every platform.
#[verifier::external_body]
pub(crate) fn fingerprint32(s: &[u8]) -> (r: u32)
    requires
        hashable(s@),
    ensures
        r == fingerprint32_of(s@),
{
    farmhash::fingerprint32(s)
}

/// The value that `farmhash::hash32` gives for a byte string.
pub uninterp spec fn hash32_of(s: Seq<u8>) -> u32;

/// `farmhash::hash32`: a hash of the bytes. In the version in use its code is that of
/// `fingerprint32`, which depends on the bytes alone.
#[verifier::external_body]
pub(crate) fn hash32(s: &[u8]) -> (r: u32)
    requires
        hashable(s@),
    ensures
        r == hash32_of(s@),
{
    farmhash::hash32(s)
}

/// `u16::to_ne_bytes`: the two bytes of a number, in the order of the machine.
#[verifier::external_body]
pub(crate) fn native_bytes(x: u16) -> (r: [u8; 2])
    ensures
        (r[0] == x % 256 && r[1] == x / 256) || (r[0] == x / 256 && r[1] == x % 256),
{
    x.to_ne_bytes()
}

#[verifier::external_type_specification]
#[verifier::external_body]
#[verifier::reject_recursive_types(K)]
#[verifier::reject_recursive_types(V)]
pub struct ExSkipMap<K, V>(crossbeam_skiplist::SkipMap<K, V>);

/// The skip list that holds versions: a user key with its inverted timestamp leads to a value, so
/// that the list's order is the order of keys.
pub type SkipList = SkipMap<(Vec<u8>, u64), Vec<u8>>;

/// The timestamp as the skip list holds it, so that newer versions come first.
pub open spec fn inverted(ts: u64) -> u64 {
    (u64::MAX - ts) as u64
}

pub fn invert(ts: u64) -> (r: u64)
    ensures
        r == inverted(ts),
{
    u64::MAX - ts
}

/// What a skip list holds.
pub uninterp spec fn skip_entries(m: SkipMap<(Vec<u8>, u64), Vec<u8>>) -> Map<
    (Seq<u8>, u64),
    Seq<u8>,
>;

/// The content of an empty skip list.
pub open spec fn no_entries() -> Map<(Seq<u8>, u64), Seq<u8>> {
    Map::empty()
}

/// The order of pairs: by their first part, byte by byte, then by their second.
pub open spec fn pair_lt(a: (Seq<u8>, u64), b: (Seq<u8>, u64)) -> bool {
    key::bytes_lt(a.0, b.0) || (a.0 == b.0 && a.1 < b.1)
}

/// `k` is not before the lower end of a range.
pub open spec fn above(k: (Seq<u8>, u64), b: Bound<(Vec<u8>, u64)>) -> bool {
    match b {
        Bound::Included(x) => k == (x.0@, x.1) || pair_lt((x.0@, x.1), k),
        Bound::Excluded(x) => pair_lt((x.0@, x.1), k),
        Bound::Unbounded => true,
    }
}

/// `k` is not behind the upper end of a range.
pub open spec fn below(k: (Seq<u8>, u64), b: Bound<(Vec<u8>, u64)>) -> bool {
    match b {
        Bound::Included(x) => k == (x.0@, x.1) || pair_lt(k, (x.0@, x.1)),
        Bound::Excluded(x) => pair_lt(k, (x.0@, x.1)),
        Bound::Unbounded => true,
    }
}

/// `SkipMap::new`: an empty list.
#[verifier::external_body]
pub(crate) fn skip_new() -> (r: SkipList)
    ensures
        skip_entries(r) == no_entries(),
{
    SkipMap::new()
}

/// `SkipMap::insert`: the key leads to the value; an earlier entry with that key is gone, the
/// others are as before.
#[verifier::external_body]
pub(crate) fn skip_insert(m: &mut SkipList, k: (Vec<u8>, u64), value: Vec<u8>)
    ensures
        skip_entries(*final(m)) == skip_entries(*old(m)).insert((k.0@, k.1), value@),
{
    m.insert(k, value);
}

/// `SkipMap::get`: the value to which the key leads, if any.
#[verifier::external_body]
pub(crate) fn skip_get(m: &SkipList, k: &(Vec<u8>, u64)) -> (r: Option<Vec<u8>>)
    ensures
        r is Some <==> skip_entries(*m).contains_key((k.0@, k.1)),
        r matches Some(v) ==> v@ == skip_entries(*m)[(k.0@, k.1)],
{
    m.get(k).map(|e| e.value().clone())
}

/// `SkipMap::is_empty`: tells whether the list holds nothing.
#[verifier::external_body]
pub(crate) fn skip_is_empty(m: &SkipList) -> (r: bool)
    ensures
        r == (forall|k: (Seq<u8>, u64)| !skip_entries(*m).contains_key(k)),
{
    m.is_empty()
}

/// `SkipMap::range`: the entries whose keys are within the bounds, in ascending order of the keys,
/// each once.
#[verifier::external_body]
pub(crate) fn skip_range(
    m: &SkipList,
    lower: Bound<(Vec<u8>, u64)>,
    upper: Bound<(Vec<u8>, u64)>,
) -> (r: Vec<((Vec<u8>, u64), Vec<u8>)>)
    ensures
        forall|i: int, j: int|
            #![trigger r@[i], r@[j]]
            0 <= i < j < r@.len() ==> pair_lt((r@[i].0.0@, r@[i].0.1), (r@[j].0.0@, r@[j].0.1)),
        forall|i: int|
            0 <= i < r@.len() ==> {
                let k = ((#[trigger] r@[i]).0.0@, r@[i].0.1);
                &&& skip_entries(*m).contains_key(k)
                &&& skip_entries(*m)[k] == r@[i].1@
                &&& above(k, lower)
                &&& below(k, upper)
            },
        forall|k: (Seq<u8>, u64)| #[trigger]
            skip_entries(*m).contains_key(k) && above(k, lower) && below(k, upper) ==> exists|i: int|
                0 <= i < r@.len() && (#[trigger] r@[i]).0.0@ == k.0 && r@[i].0.1 == k.1,
{
    let lower = match lower {
        Bound::Included(k) => std::ops::Bound::Included(k),
        Bound::Excluded(k) => std::ops::Bound::Excluded(k),
        Bound::Unbounded => std::ops::Bound::Unbounded,
    };
    let upper = match upper {
        Bound::Included(k) => std::ops::Bound::Included(k),
        Bound::Excluded(k) => std::ops::Bound::Excluded(k),
        Bound::Unbounded => std::ops::Bound::Unbounded,
    };
    let range = m.range::<(Vec<u8>, u64), _>((lower, upper));
    range.map(|e| (e.key().clone(), e.value().clone())).collect()
}

} // verus!
