//! Bloom filters on the hashes of user keys.
use vstd::prelude::*;
use bytes::Bytes;
use crate::codec;
use crate::deps;
use crate::error::LsmError;

verus! {

/// Bit `i` of a byte string; the least significant bit of a byte comes first.
pub open spec fn bit_at(s: Seq<u8>, i: int) -> bool {
    s[i / 8] & (1u8 << ((i % 8) as u8)) != 0
}

/// A byte string that is read bit by bit.
pub trait BitSlice {
    /// The bytes.
    spec fn bytes(&self) -> Seq<u8>;

    fn get_bit(&self, idx: usize) -> (r: bool)
        requires
            idx / 8 < self.bytes().len(),
        ensures
            r == bit_at(self.bytes(), idx as int),
            r <==> self.bytes()[idx as int / 8] & (1u8 << ((idx % 8) as u8)) != 0,
    ;

    fn bit_len(&self) -> (r: usize)
        requires
            self.bytes().len() * 8 <= usize::MAX,
        ensures
            r == self.bytes().len() * 8,
    ;
}

/// A byte string that is written bit by bit.
pub trait BitSliceMut: BitSlice {
    fn set_bit(&mut self, idx: usize, val: bool)
        requires
            idx / 8 < old(self).bytes().len(),
        ensures
            final(self).bytes().len() == old(self).bytes().len(),
            forall|i: int|
                0 <= i < 8 * old(self).bytes().len() ==> #[trigger] bit_at(final(self).bytes(), i)
                    == (if i == idx {
                    val
                } else {
                    bit_at(old(self).bytes(), i)
                }),
    ;
}

/// Bit `idx` of a slice.
fn slice_bit(s: &[u8], idx: usize) -> (r: bool)
    requires
        idx / 8 < s@.len(),
    ensures
        r == bit_at(s@, idx as int),
{
    let pos: usize = idx / 8;
    let offset: u8 = (idx % 8) as u8;
    (s[pos] & (1u8 << offset)) != 0
}

impl BitSlice for Vec<u8> {
    open spec fn bytes(&self) -> Seq<u8> {
        self@
    }

    fn get_bit(&self, idx: usize) -> (r: bool) {
        slice_bit(self.as_slice(), idx)
    }

    fn bit_len(&self) -> (r: usize) {
        self.len() * 8
    }
}

impl BitSlice for Bytes {
    open spec fn bytes(&self) -> Seq<u8> {
        deps::bytes_seq(*self)
    }

    fn get_bit(&self, idx: usize) -> (r: bool) {
        slice_bit(deps::bytes_slice(self), idx)
    }

    fn bit_len(&self) -> (r: usize) {
        let s: &[u8] = deps::bytes_slice(self);
        s.len() * 8
    }
}

impl BitSliceMut for Vec<u8> {
    fn set_bit(&mut self, idx: usize, val: bool) {
        let pos: usize = idx / 8;
        let offset: u8 = (idx % 8) as u8;
        let byte: u8 = self[pos];
        let changed: u8 = if val {
            byte | (1u8 << offset)
        } else {
            byte & !(1u8 << offset)
        };
        self.set(pos, changed);
        assert forall|i: int| 0 <= i < 8 * old(self)@.len() implies #[trigger] bit_at(self@, i) == (
        if i == idx {
            val
        } else {
            bit_at(old(self)@, i)
        }) by {
            if i / 8 == pos {
                let o = (i % 8) as u8;
                if val {
                    assert((byte | (1u8 << offset)) & (1u8 << offset) != 0) by (bit_vector)
                        requires
                            offset < 8,
                    ;
                    assert(o != offset ==> (byte | (1u8 << offset)) & (1u8 << o) == byte & (1u8
                        << o)) by (bit_vector)
                        requires
                            offset < 8,
                            o < 8,
                    ;
                } else {
                    assert((byte & !(1u8 << offset)) & (1u8 << offset) == 0) by (bit_vector)
                        requires
                            offset < 8,
                    ;
                    assert(o != offset ==> (byte & !(1u8 << offset)) & (1u8 << o) == byte & (1u8
                        << o)) by (bit_vector)
                        requires
                            offset < 8,
                            o < 8,
                    ;
                }
            }
        }
    }
}

/// Implements a bloom filter
pub struct Bloom {
    /// data of filter in bits
    pub filter: Bytes,
    /// number of hash functions
    pub k: u8,
}

/// A hash, rotated by 15 bits to the left.
pub open spec fn rotated(h: u32) -> u32 {
    (h << 15) | (h >> 17)
}

/// The bit that the probe with number `j` looks at, in a filter of `nbits` bits.
pub open spec fn probe(h: u32, j: int, nbits: int) -> int {
    ((h + j * rotated(h)) % 0x1_0000_0000) % nbits
}

/// The first `k` probes of a hash all find their bits set.
pub open spec fn filter_holds(filter: Seq<u8>, k: int, h: u32) -> bool {
    forall|j: int| 0 <= j < k ==> bit_at(filter, #[trigger] probe(h, j, 8 * filter.len() as int))
}

/// One of the first `k` probes of one of the hashes looks at bit `i`.
pub open spec fn probed(hashes: Seq<u32>, k: int, nbits: int, i: int) -> bool {
    exists|m: int, j: int|
        0 <= m < hashes.len() && 0 <= j < k && #[trigger] probe(hashes[m], j, nbits) == i
}

/// Exactly the bits are set at which a probe of one of the hashes looks.
pub open spec fn is_filter_of(filter: Seq<u8>, k: int, hashes: Seq<u32>) -> bool {
    forall|i: int|
        0 <= i < 8 * filter.len() ==> (#[trigger] bit_at(filter, i) <==> probed(
            hashes,
            k,
            8 * filter.len() as int,
            i,
        ))
}

/// The number of probes for a number of bits per key: ln 2 times as many, from 1 to 30.
pub open spec fn probes(bits_per_key: int) -> int {
    let k = bits_per_key * 69 / 100;
    if k < 1 {
        1
    } else if k > 30 {
        30
    } else {
        k
    }
}

/// The number of bytes of a filter: those for all keys, and eight at least.
pub open spec fn filter_len(keys: int, bits_per_key: int) -> int {
    let nbits = if keys * bits_per_key < 64 {
        64
    } else {
        keys * bits_per_key
    };
    (nbits + 7) / 8
}

/// The stored form of a filter: its bits, the number of probes, and a checksum of both.
pub open spec fn bloom_bytes(filter: Seq<u8>, k: u8) -> Seq<u8> {
    filter.push(k) + codec::be_bytes(deps::crc32_of(filter.push(k)) as nat, 4)
}

/// What decoding gives: the bits and the number of probes, if the byte string is long enough and
/// the checksum belongs to it.
pub open spec fn bloom_decoded(s: Seq<u8>) -> Result<(Seq<u8>, u8), LsmError> {
    let n = s.len() - 4;
    if n < 0 {
        Err(LsmError::Truncated)
    } else if deps::crc32_of(s.take(n)) != codec::be_at(s, n, 4) {
        Err(LsmError::ChecksumMismatch)
    } else if n == 0 {
        Err(LsmError::Truncated)
    } else {
        Ok((s.take(n - 1), s[n - 1]))
    }
}

/// A filter that is decoded from its stored form is the filter itself.
pub proof fn lemma_bloom_round_trip(filter: Seq<u8>, k: u8)
    ensures
        bloom_decoded(bloom_bytes(filter, k)) == Ok::<(Seq<u8>, u8), LsmError>((filter, k)),
{
    broadcast use crate::codec::lemma_be_bytes_len;

    let s = bloom_bytes(filter, k);
    let n = s.len() - 4;
    let crc = deps::crc32_of(filter.push(k)) as nat;
    codec::lemma_pow256();
    assert(s.take(n) =~= filter.push(k));
    assert(s.subrange(n, n + 4) =~= codec::be_bytes(crc, 4));
    codec::lemma_be_round_trip(crc, 4);
    assert(s.take(n - 1) =~= filter);
}

/// A bloom filter has no false negatives: it may contain every hash from which it was built.
pub proof fn lemma_no_false_negatives(filter: Seq<u8>, k: int, hashes: Seq<u32>, h: u32)
    requires
        is_filter_of(filter, k, hashes),
        filter.len() > 0,
        hashes.contains(h),
    ensures
        filter_holds(filter, k, h),
{
    let nbits = 8 * filter.len() as int;
    let m = hashes.index_of(h);
    assert forall|j: int| 0 <= j < k implies bit_at(filter, #[trigger] probe(h, j, nbits)) by {
        let i = probe(hashes[m], j, nbits);
        lemma_probe_bound(h, j, nbits);
        assert(probed(hashes, k, nbits, i));
    }
}

/// Where the probes of a hash look: each is ahead of the one before by the hash rotated by 15 bits,
/// modulo 2^32, and the number is taken modulo the number of bits.
pub proof fn lemma_probe(h: u32, j: int, nbits: int)
    requires
        nbits > 0,
        j >= 0,
    ensures
        probe(h, j, nbits) == ((h + j * (((h as int * 0x8000) % 0x1_0000_0000) + h as int / 0x2_0000))
            % 0x1_0000_0000) % nbits,
        0 <= probe(h, j, nbits) < nbits,
{
    lemma_probe_bound(h, j, nbits);
    lemma_rotated(h);
}

proof fn lemma_rotated(h: u32)
    ensures
        rotated(h) == (h as int * 0x8000) % 0x1_0000_0000 + h as int / 0x2_0000,
{
    let g: u64 = h as u64;
    let up: u64 = (g * 0x8000) as u64;
    assert(((h << 15u32) | (h >> 17u32)) as u64 == (up % 0x1_0000_0000u64) + (g / 0x2_0000u64))
        by (bit_vector)
        requires
            g == h as u64,
            up == g * 0x8000,
    ;
}

/// A hash is ruled out as soon as one of its probes finds its bit unset.
pub proof fn lemma_unset_bit_rules_out(b: Bloom, h: u32, j: int)
    requires
        b.k <= 30,
        0 <= j < b.k,
        deps::bytes_seq(b.filter).len() > 0,
        ({
            let nbits = 8 * deps::bytes_seq(b.filter).len() as int;
            let at = ((h + j * (((h as int * 0x8000) % 0x1_0000_0000) + h as int / 0x2_0000))
                % 0x1_0000_0000) % nbits;
            deps::bytes_seq(b.filter)[at / 8] & (1u8 << ((at % 8) as u8)) == 0
        }),
    ensures
        !b.may_hold(h),
{
    let f = deps::bytes_seq(b.filter);
    let nbits = 8 * f.len() as int;
    lemma_probe(h, j, nbits);
    assert(!bit_at(f, probe(h, j, nbits)));
}

/// A hash passes only if each of its probes looks where a probe of a hash looks from which the filter
/// was built: a filter sets no other bits.
pub proof fn lemma_passes_by_set_bits(b: Bloom, hashes: Seq<u32>, h: u32, j: int) -> (r: (int, int))
    requires
        b.k <= 30,
        0 <= j < b.k,
        deps::bytes_seq(b.filter).len() > 0,
        is_filter_of(deps::bytes_seq(b.filter), b.k as int, hashes),
        b.may_hold(h),
    ensures
        0 <= r.0 < hashes.len(),
        0 <= r.1 < b.k,
        ({
            let nbits = 8 * deps::bytes_seq(b.filter).len() as int;
            let g = hashes[r.0];
            ((h + j * (((h as int * 0x8000) % 0x1_0000_0000) + h as int / 0x2_0000))
                % 0x1_0000_0000) % nbits == ((g + r.1 * (((g as int * 0x8000) % 0x1_0000_0000)
                + g as int / 0x2_0000)) % 0x1_0000_0000) % nbits
        }),
{
    let f = deps::bytes_seq(b.filter);
    let nbits = 8 * f.len() as int;
    let i = probe(h, j, nbits);
    lemma_probe(h, j, nbits);
    assert(bit_at(f, i));
    assert(probed(hashes, b.k as int, nbits, i));
    let (m, n) = choose|m: int, n: int|
        0 <= m < hashes.len() && 0 <= n < b.k && #[trigger] probe(hashes[m], n, nbits) == i;
    lemma_probe(hashes[m], n, nbits);
    (m, n)
}

/// A bloom filter that was built from hashes lets each of them pass.
pub proof fn lemma_built_passes(b: Bloom, hashes: Seq<u32>, m: int)
    requires
        b.k <= 30,
        deps::bytes_seq(b.filter).len() > 0,
        is_filter_of(deps::bytes_seq(b.filter), b.k as int, hashes),
        0 <= m < hashes.len(),
    ensures
        b.may_hold(hashes[m]),
{
    lemma_no_false_negatives(deps::bytes_seq(b.filter), b.k as int, hashes, hashes[m]);
}

/// A filter without hashes lets none pass.
pub proof fn lemma_empty_filter(b: Bloom, h: u32)
    requires
        0 < b.k <= 30,
        deps::bytes_seq(b.filter).len() > 0,
        is_filter_of(deps::bytes_seq(b.filter), b.k as int, Seq::empty()),
    ensures
        !b.may_hold(h),
{
    let f = deps::bytes_seq(b.filter);
    let nbits = 8 * f.len() as int;
    lemma_probe(h, 0, nbits);
    assert(!bit_at(f, probe(h, 0, nbits)));
}

/// What is no filter: what is too short for a checksum and a number of probes, or carries another
/// checksum.
pub proof fn lemma_not_decoded(s: Seq<u8>)
    ensures
        s.len() < 4 ==> bloom_decoded(s) == Err::<(Seq<u8>, u8), LsmError>(LsmError::Truncated),
        s.len() >= 4 && codec::be_at(s, s.len() - 4, 4) != deps::crc32_of(s.take(s.len() - 4))
            ==> bloom_decoded(s) == Err::<(Seq<u8>, u8), LsmError>(LsmError::ChecksumMismatch),
        s.len() == 4 && codec::be_at(s, 0, 4) == deps::crc32_of(s.take(0)) ==> bloom_decoded(s)
            == Err::<(Seq<u8>, u8), LsmError>(LsmError::Truncated),
        s.len() > 4 && codec::be_at(s, s.len() - 4, 4) == deps::crc32_of(s.take(s.len() - 4))
            ==> bloom_decoded(s) is Ok,
{
}

/// What is decoded from a byte string carries the checksum of all that stands before it.
pub proof fn lemma_decoded_is_checked(s: Seq<u8>)
    requires
        bloom_decoded(s) is Ok,
    ensures
        s.len() >= 5,
        codec::be_at(s, s.len() - 4, 4) == deps::crc32_of(s.take(s.len() - 4)),
        bloom_decoded(s)->Ok_0.0 == s.take(s.len() - 5),
        bloom_decoded(s)->Ok_0.1 == s[s.len() - 5],
{
}

proof fn lemma_probe_bound(h: u32, j: int, nbits: int)
    requires
        nbits > 0,
    ensures
        0 <= probe(h, j, nbits) < nbits,
{
    assert(0 <= (h + j * rotated(h)) % 0x1_0000_0000);
}

/// One wrapping addition of the rotated hash leads from one probe to the next.
proof fn lemma_next_probe(h: u32, j: int, x: u32, y: u32)
    requires
        x == (h + j * rotated(h)) % 0x1_0000_0000,
        y == (x + rotated(h)) % 0x1_0000_0000,
    ensures
        y == (h + (j + 1) * rotated(h)) % 0x1_0000_0000,
{
    let d = rotated(h) as int;
    let t = h + j * d;
    assert(h + (j + 1) * d == t + d) by (nonlinear_arith)
        requires
            t == h + j * d,
    ;
    vstd::arithmetic::div_mod::lemma_add_mod_noop(t, d, 0x1_0000_0000);
    vstd::arithmetic::div_mod::lemma_add_mod_noop(x as int, d, 0x1_0000_0000);
    vstd::arithmetic::div_mod::lemma_mod_twice(t, 0x1_0000_0000);
}

fn rotate(h: u32) -> (r: u32)
    ensures
        r == rotated(h),
{
    (h << 15) | (h >> 17)
}

fn next_probe(h: u32, delta: u32) -> (r: u32)
    ensures
        r == (h + delta) % 0x1_0000_0000,
{
    h.wrapping_add(delta)
}

impl Bloom {
    /// The filter lets a hash pass.
    pub open spec fn may_hold(&self, h: u32) -> bool {
        self.k > 30 || filter_holds(deps::bytes_seq(self.filter), self.k as int, h)
    }

    /// The filter lets a user key pass: it is asked for the key's hash, if the key has one.
    pub open spec fn lets_pass(&self, uk: Seq<u8>) -> bool {
        deps::hashable(uk) ==> self.may_hold(deps::fingerprint32_of(uk))
    }

    /// There are bits to look at, unless none is looked at.
    pub open spec fn wf(&self) -> bool {
        deps::bytes_seq(self.filter).len() > 0 || self.k == 0 || self.k > 30
    }

    /// Decode a bloom filter
    pub fn decode(buf: &[u8]) -> (r: Result<Bloom, LsmError>)
        ensures
            r matches Ok(b) ==> bloom_decoded(buf@) == Ok::<(Seq<u8>, u8), LsmError>(
                (deps::bytes_seq(b.filter), b.k),
            ),
            r matches Err(e) ==> bloom_decoded(buf@) == Err::<(Seq<u8>, u8), LsmError>(e),
    {
        if buf.len() < 4 {
            return Err(LsmError::Truncated);
        }
        let data_len: usize = buf.len() - 4;
        let expected = deps::crc32(vstd::slice::slice_subrange(buf, 0, data_len));
        let actual = codec::get_u32(buf, data_len);
        assert(buf@.subrange(0, data_len as int) =~= buf@.take(data_len as int));
        if expected != actual {
            return Err(LsmError::ChecksumMismatch);
        }
        if data_len == 0 {
            return Err(LsmError::Truncated);
        }
        let k = buf[data_len - 1];
        let filter = deps::bytes_copy(vstd::slice::slice_subrange(buf, 0, data_len - 1));
        assert(buf@.subrange(0, data_len - 1) =~= buf@.take(data_len - 1));
        Ok(Bloom { filter, k })
    }

    /// Encode a bloom filter
    pub fn encode(&self, buf: &mut Vec<u8>)
        ensures
            final(buf)@ == old(buf)@ + bloom_bytes(deps::bytes_seq(self.filter), self.k),
    {
        let ghost f = deps::bytes_seq(self.filter);
        let start: usize = buf.len();
        codec::put_slice(buf, deps::bytes_slice(&self.filter));
        buf.push(self.k);
        let end: usize = buf.len();
        let checksum = deps::crc32(vstd::slice::slice_subrange(buf.as_slice(), start, end));
        assert(buf@.subrange(start as int, end as int) =~= f.push(self.k));
        codec::put_u32(buf, checksum);
        assert(buf@ =~= old(buf)@ + bloom_bytes(f, self.k));
    }

    /// The bits per key that keep the false positive rate at one percent.
    pub fn bits_per_key(entries: usize) -> (r: usize)
        ensures
            r == if entries == 0 {
                0int
            } else {
                10
            },
    {
        if entries == 0 {
            0
        } else {
            10
        }
    }

    /// Build bloom filter from key hashes
    pub fn build_from_key_hashes(keys: &[u32], bits_per_key: usize) -> (r: Bloom)
        requires
            keys@.len() * bits_per_key + 7 <= usize::MAX,
        ensures
            r.k == probes(bits_per_key as int),
            bits_per_key * 69 / 100 < 1 ==> r.k == 1,
            bits_per_key * 69 / 100 > 30 ==> r.k == 30,
            1 <= bits_per_key * 69 / 100 <= 30 ==> r.k == bits_per_key * 69 / 100,
            deps::bytes_seq(r.filter).len() == filter_len(keys@.len() as int, bits_per_key as int),
            deps::bytes_seq(r.filter).len() >= 8,
            8 * deps::bytes_seq(r.filter).len() >= keys@.len() * bits_per_key,
            8 * deps::bytes_seq(r.filter).len() < 64 + 8 || 8 * deps::bytes_seq(r.filter).len()
                < keys@.len() * bits_per_key + 8,
            is_filter_of(deps::bytes_seq(r.filter), r.k as int, keys@),
            r.wf(),
    {
        let k: u8 = if bits_per_key > 43 {
            30
        } else if bits_per_key < 2 {
            1
        } else {
            (bits_per_key * 69 / 100) as u8
        };
        let nbits: usize = keys.len() * bits_per_key;
        let nbits: usize = if nbits < 64 {
            64
        } else {
            nbits
        };
        let nbytes: usize = (nbits + 7) / 8;
        let nbits: usize = nbytes * 8;
        let mut filter: Vec<u8> = vec![0u8; nbytes];
        assert forall|i: int| 0 <= i < 8 * filter@.len() implies !#[trigger] bit_at(filter@, i) by {
            let o = (i % 8) as u8;
            assert(0u8 & (1u8 << o) == 0) by (bit_vector);
        }
        let mut m: usize = 0;
        while m < keys.len()
            invariant
                m <= keys.len(),
                filter@.len() == nbytes,
                nbits == 8 * nbytes,
                nbits > 0,
                is_filter_of(filter@, k as int, keys@.take(m as int)),
            decreases keys.len() - m,
        {
            let ghost before = filter@;
            let key: u32 = keys[m];
            let delta: u32 = rotate(key);
            let mut h: u32 = key;
            let mut j: u8 = 0;
            while j < k
                invariant
                    j <= k,
                    filter@.len() == nbytes,
                    before.len() == nbytes,
                    nbits == 8 * nbytes,
                    nbits > 0,
                    delta == rotated(key),
                    h == (key + j * delta) % 0x1_0000_0000,
                    forall|i: int|
                        0 <= i < nbits ==> (#[trigger] bit_at(filter@, i) <==> bit_at(before, i)
                            || probed(seq![key], j as int, nbits as int, i)),
                decreases k - j,
            {
                let bit_position: usize = (h as usize) % nbits;
                let ghost last = filter@;
                filter.set_bit(bit_position, true);
                let ghost x = h;
                h = next_probe(h, delta);
                proof {
                    lemma_next_probe(key, j as int, x, h);
                    let one = seq![key];
                    assert forall|i: int| 0 <= i < nbits implies (#[trigger] bit_at(filter@, i)
                        <==> bit_at(before, i) || probed(one, j + 1, nbits as int, i)) by {
                        if i == bit_position {
                            assert(probe(one[0], j as int, nbits as int) == i);
                            assert(bit_at(filter@, i));
                        } else {
                            assert(bit_at(filter@, i) == bit_at(last, i));
                            if probed(one, j + 1, nbits as int, i) {
                                let (a, b) = choose|a: int, b: int|
                                    0 <= a < one.len() && 0 <= b < j + 1 && #[trigger] probe(
                                        one[a],
                                        b,
                                        nbits as int,
                                    ) == i;
                                assert(b < j);
                                assert(probed(one, j as int, nbits as int, i));
                            }
                            if probed(one, j as int, nbits as int, i) {
                                assert(probed(one, j + 1, nbits as int, i));
                            }
                        }
                    }
                }
                j = j + 1;
            }
            proof {
                let old_keys = keys@.take(m as int);
                let new_keys = keys@.take(m + 1);
                assert forall|i: int| 0 <= i < 8 * filter@.len() implies (#[trigger] bit_at(
                    filter@,
                    i,
                ) <==> probed(new_keys, k as int, 8 * filter@.len() as int, i)) by {
                    assert(bit_at(before, i) <==> probed(old_keys, k as int, nbits as int, i));
                    if probed(old_keys, k as int, nbits as int, i) {
                        let (a, b) = choose|a: int, b: int|
                            0 <= a < old_keys.len() && 0 <= b < k && #[trigger] probe(
                                old_keys[a],
                                b,
                                nbits as int,
                            ) == i;
                        assert(probe(new_keys[a], b, nbits as int) == i);
                    }
                    if probed(seq![key], k as int, nbits as int, i) {
                        let (a, b) = choose|a: int, b: int|
                            0 <= a < 1 && 0 <= b < k && #[trigger] probe(
                                seq![key][a],
                                b,
                                nbits as int,
                            ) == i;
                        assert(probe(new_keys[m as int], b, nbits as int) == i);
                    }
                    if probed(new_keys, k as int, nbits as int, i) {
                        let (a, b) = choose|a: int, b: int|
                            0 <= a < new_keys.len() && 0 <= b < k && #[trigger] probe(
                                new_keys[a],
                                b,
                                nbits as int,
                            ) == i;
                        if a < m {
                            assert(probe(old_keys[a], b, nbits as int) == i);
                        } else {
                            assert(probe(seq![key][0], b, nbits as int) == i);
                        }
                    }
                }
            }
            m = m + 1;
        }
        assert(keys@.take(m as int) =~= keys@);
        Bloom { filter: deps::bytes_from_vec(filter), k }
    }

    /// Check if a bloom filter may contain some data
    pub fn may_contain(&self, h: u32) -> (r: bool)
        requires
            self.wf(),
        ensures
            r == self.may_hold(h),
            self.k > 30 ==> r,
            self.k <= 30 ==> (r <==> forall|j: int|
                0 <= j < self.k ==> bit_at(
                    deps::bytes_seq(self.filter),
                    #[trigger] probe(h, j, 8 * deps::bytes_seq(self.filter).len() as int),
                )),
    {
        if self.k > 30 {
            // potential new encoding for short bloom filters
            true
        } else {
            let filter: &[u8] = deps::bytes_slice(&self.filter);
            let nbits: u128 = filter.len() as u128 * 8;
            let delta: u32 = rotate(h);
            let mut g: u32 = h;
            let mut j: u8 = 0;
            while j < self.k
                invariant
                    j <= self.k <= 30,
                    filter@ == deps::bytes_seq(self.filter),
                    nbits == 8 * filter@.len(),
                    self.wf(),
                    delta == rotated(h),
                    g == (h + j * delta) % 0x1_0000_0000,
                    filter_holds(filter@, j as int, h),
                decreases self.k - j,
            {
                let pos: u128 = g as u128 % nbits;
                proof {
                    vstd::arithmetic::div_mod::lemma_mod_decreases(g as nat, nbits as nat);
                }
                let bit_pos: usize = pos as usize;
                assert(bit_pos == probe(h, j as int, 8 * filter@.len() as int));
                if !slice_bit(filter, bit_pos) {
                    return false;
                }
                let ghost x = g;
                g = next_probe(g, delta);
                proof {
                    lemma_next_probe(h, j as int, x, g);
                }
                j = j + 1;
            }
            true
        }
    }

    /// Tells whether the filter lets a user key pass.
    pub fn may_contain_key(&self, key: &[u8]) -> (r: bool)
        requires
            self.wf(),
        ensures
            r == self.lets_pass(key@),
    {
        !deps::is_hashable(key) || self.may_contain(deps::fingerprint32(key))
    }

    pub fn key_hash(_key: u32, _num_bits: u32) {
    }
}

} // verus!
