//! Fixed-width integers as big-endian byte strings.
use vstd::prelude::*;

verus! {

/// The last `n` bytes of `x`, the most significant first.
pub open spec fn be_bytes(x: nat, n: nat) -> Seq<u8>
    decreases n,
{
    if n == 0 {
        Seq::empty()
    } else {
        be_bytes(x / 256, (n - 1) as nat).push((x % 256) as u8)
    }
}

/// The number that a byte string spells, the most significant byte first.
pub open spec fn be_value(s: Seq<u8>) -> nat
    decreases s.len(),
{
    if s.len() == 0 {
        0
    } else {
        be_value(s.drop_last()) * 256 + s.last() as nat
    }
}

pub open spec fn pow256(n: nat) -> nat
    decreases n,
{
    if n == 0 {
        1
    } else {
        256 * pow256((n - 1) as nat)
    }
}

/// The number that stands in `n` bytes at `i`.
pub open spec fn be_at(s: Seq<u8>, i: int, n: nat) -> nat {
    be_value(s.subrange(i, i + n))
}

pub broadcast proof fn lemma_be_bytes_len(x: nat, n: nat)
    ensures
        #[trigger] be_bytes(x, n).len() == n,
    decreases n,
{
    if n > 0 {
        lemma_be_bytes_len(x / 256, (n - 1) as nat);
    }
}

/// The bytes of a number are its digits to the base 256, the most significant first.
pub proof fn lemma_be_digits(x: nat, n: nat, i: int)
    requires
        0 <= i < n,
    ensures
        be_bytes(x, n).len() == n,
        be_bytes(x, n)[i] == (x / pow256((n - 1 - i) as nat)) % 256,
    decreases n,
{
    lemma_be_bytes_len(x, n);
    if i < n - 1 {
        let p = pow256((n - 2 - i) as nat);
        lemma_pow256_positive((n - 2 - i) as nat);
        lemma_be_digits(x / 256, (n - 1) as nat, i);
        lemma_be_bytes_len(x / 256, (n - 1) as nat);
        vstd::arithmetic::div_mod::lemma_div_denominator(x as int, 256, p as int);
    } else {
        assert(pow256(0) == 1);
        assert(x / 1 == x);
        lemma_be_bytes_len(x / 256, (n - 1) as nat);
    }
}

proof fn lemma_pow256_positive(n: nat)
    ensures
        pow256(n) > 0,
    decreases n,
{
    if n > 0 {
        lemma_pow256_positive((n - 1) as nat);
    }
}

/// A number that fits in `n` bytes is read back as it was written.
pub proof fn lemma_be_round_trip(x: nat, n: nat)
    requires
        x < pow256(n),
    ensures
        be_value(be_bytes(x, n)) == x,
    decreases n,
{
    if n > 0 {
        lemma_be_round_trip(x / 256, (n - 1) as nat);
        assert(be_bytes(x, n).drop_last() =~= be_bytes(x / 256, (n - 1) as nat));
    }
}

pub broadcast proof fn lemma_be_value_bound(s: Seq<u8>)
    ensures
        #[trigger] be_value(s) < pow256(s.len()),
    decreases s.len(),
{
    if s.len() > 0 {
        lemma_be_value_bound(s.drop_last());
    }
}

/// A number is read back from where it was written.
pub proof fn lemma_be_at_appended(p: Seq<u8>, x: nat, n: nat, q: Seq<u8>)
    requires
        x < pow256(n),
    ensures
        be_at(p + be_bytes(x, n) + q, p.len() as int, n) == x,
{
    lemma_be_bytes_len(x, n);
    assert((p + be_bytes(x, n) + q).subrange(p.len() as int, (p.len() + n) as int)
        =~= be_bytes(x, n));
    lemma_be_round_trip(x, n);
}

/// Bytes are those of the number that they spell.
pub proof fn lemma_be_bytes_value(s: Seq<u8>)
    ensures
        be_bytes(be_value(s), s.len()) == s,
    decreases s.len(),
{
    if s.len() > 0 {
        let t = s.drop_last();
        lemma_be_bytes_value(t);
        let v = be_value(t);
        let x = be_value(s);
        assert(x == v * 256 + s.last() as nat);
        assert(x / 256 == v && x % 256 == s.last() as nat);
        assert(t.push(s.last()) =~= s);
    } else {
        assert(be_bytes(be_value(s), 0) =~= s);
    }
}

pub proof fn lemma_pow256()
    ensures
        pow256(2) == 0x1_0000,
        pow256(4) == 0x1_0000_0000,
        pow256(8) == 0x1_0000_0000_0000_0000,
{
    reveal_with_fuel(pow256, 9);
}

pub(crate) proof fn lemma_be_bytes_mod(x: nat, n: nat)
    ensures
        be_bytes(x, n) == be_bytes(x % pow256(n), n),
        pow256(n) > 0,
    decreases n,
{
    if n > 0 {
        let p = pow256((n - 1) as nat);
        lemma_be_bytes_mod(x / 256, (n - 1) as nat);
        lemma_be_bytes_mod((x % (256 * p)) / 256, (n - 1) as nat);
        vstd::arithmetic::div_mod::lemma_mod_breakdown(x as int, 256, p as int);
        let y = x % (256 * p);
        assert(y == 256 * ((x / 256) % p) + x % 256);
        assert(y / 256 == (x / 256) % p && y % 256 == x % 256);
    }
}

/// Appends a number in two bytes.
pub fn put_u16(buf: &mut Vec<u8>, x: u16)
    ensures
        final(buf)@ == old(buf)@ + be_bytes(x as nat, 2),
{
    proof {
        reveal_with_fuel(be_bytes, 3);
    }
    buf.push((x / 256) as u8);
    buf.push((x % 256) as u8);
    assert(buf@ =~= old(buf)@ + be_bytes(x as nat, 2));
}

/// Appends the last two bytes of a length.
pub fn put_len16(buf: &mut Vec<u8>, x: usize)
    ensures
        final(buf)@ == old(buf)@ + be_bytes(x as nat, 2),
{
    let y = low16(x);
    proof {
        lemma_be_bytes_mod(x as nat, 2);
        lemma_pow256();
    }
    put_u16(buf, y)
}

/// The last sixteen bits of a number.
pub fn low16(x: usize) -> (r: u16)
    ensures
        r == x % 0x1_0000,
{
    assert((x as u16) == x % 0x1_0000usize) by (bit_vector);
    x as u16
}

/// Appends a number in four bytes.
pub fn put_u32(buf: &mut Vec<u8>, x: u32)
    ensures
        final(buf)@ == old(buf)@ + be_bytes(x as nat, 4),
{
    let hi = (x / 0x1_0000) as u16;
    let lo = (x % 0x1_0000) as u16;
    proof {
        lemma_be_bytes_split(x as nat, 2, 2);
        lemma_pow256();
    }
    put_u16(buf, hi);
    put_u16(buf, lo);
    assert(buf@ =~= old(buf)@ + be_bytes(x as nat, 4));
}

/// Appends the last four bytes of a length.
pub fn put_len32(buf: &mut Vec<u8>, x: usize)
    ensures
        final(buf)@ == old(buf)@ + be_bytes(x as nat, 4),
{
    let y: u64 = x as u64;
    assert((y as u32) == y % 0x1_0000_0000u64) by (bit_vector);
    proof {
        lemma_be_bytes_mod(x as nat, 4);
        lemma_pow256();
    }
    put_u32(buf, y as u32)
}

/// Appends a number in eight bytes.
pub fn put_u64(buf: &mut Vec<u8>, x: u64)
    ensures
        final(buf)@ == old(buf)@ + be_bytes(x as nat, 8),
{
    let hi = (x / 0x1_0000_0000) as u32;
    let lo = (x % 0x1_0000_0000) as u32;
    proof {
        lemma_be_bytes_split(x as nat, 4, 4);
        lemma_pow256();
    }
    put_u32(buf, hi);
    put_u32(buf, lo);
    assert(buf@ =~= old(buf)@ + be_bytes(x as nat, 8));
}

/// Appends a byte string.
pub fn put_slice(buf: &mut Vec<u8>, s: &[u8])
    ensures
        final(buf)@ == old(buf)@ + s@,
{
    buf.extend_from_slice(s);
    assert(buf@ =~= old(buf)@ + s@);
}

/// Reads a number of two bytes.
pub fn get_u16(s: &[u8], i: usize) -> (r: u16)
    requires
        i + 2 <= s@.len(),
    ensures
        r == be_at(s@, i as int, 2),
{
    proof {
        reveal_with_fuel(be_value, 3);
    }
    (s[i] as u16) * 256 + (s[i + 1] as u16)
}

/// Reads a number of four bytes.
pub fn get_u32(s: &[u8], i: usize) -> (r: u32)
    requires
        i + 4 <= s@.len(),
    ensures
        r == be_at(s@, i as int, 4),
{
    assert(s@.len() == s.len());
    let hi = get_u16(s, i);
    let lo = get_u16(s, i + 2);
    proof {
        lemma_be_split(s@, i as int, 2, 2);
        lemma_pow256();
    }
    (hi as u32) * 0x1_0000 + (lo as u32)
}

/// Reads a number of eight bytes.
pub fn get_u64(s: &[u8], i: usize) -> (r: u64)
    requires
        i + 8 <= s@.len(),
    ensures
        r == be_at(s@, i as int, 8),
{
    assert(s@.len() == s.len());
    let hi = get_u32(s, i);
    let lo = get_u32(s, i + 4);
    proof {
        lemma_be_split(s@, i as int, 4, 4);
        lemma_pow256();
    }
    (hi as u64) * 0x1_0000_0000 + (lo as u64)
}

proof fn lemma_be_split(s: Seq<u8>, i: int, m: nat, n: nat)
    requires
        0 <= i,
        i + m + n <= s.len(),
    ensures
        be_at(s, i, m + n) == be_at(s, i, m) * pow256(n) + be_at(s, i + m, n),
    decreases n,
{
    let a = be_at(s, i, m);
    if n > 0 {
        let p = pow256((n - 1) as nat);
        lemma_be_split(s, i, m, (n - 1) as nat);
        let t = s.subrange(i, i + (m + n));
        let u = s.subrange(i + m, i + m + n);
        assert(t.drop_last() =~= s.subrange(i, i + (m + (n - 1) as nat)));
        assert(u.drop_last() =~= s.subrange(i + m, i + m + (n - 1) as nat));
        assert(t.last() == u.last());
        assert((a * p) * 256 == a * (256 * p)) by (nonlinear_arith);
        assert(be_value(t) == be_value(t.drop_last()) * 256 + t.last() as nat);
        assert(be_value(u) == be_value(u.drop_last()) * 256 + u.last() as nat);
    } else {
        assert(be_at(s, i + m, 0) == 0);
        assert(pow256(0) == 1);
        assert(a * 1 == a);
    }
}

proof fn lemma_be_bytes_split(x: nat, m: nat, n: nat)
    ensures
        pow256(n) > 0,
        be_bytes(x, m + n) =~= be_bytes(x / pow256(n), m) + be_bytes(x % pow256(n), n),
    decreases n,
{
    if n > 0 {
        let p = pow256((n - 1) as nat);
        lemma_be_bytes_split(x / 256, m, (n - 1) as nat);
        lemma_be_bytes_mod(x, n);
        lemma_be_bytes_mod(x / 256, (n - 1) as nat);
        vstd::arithmetic::div_mod::lemma_div_denominator(x as int, 256, p as int);
        assert((x / 256) / p == x / (256 * p));
        assert(be_bytes(x, m + n) =~= be_bytes(x / 256, (m + n - 1) as nat).push((x % 256) as u8));
        assert(be_bytes(x, n) =~= be_bytes(x / 256, (n - 1) as nat).push((x % 256) as u8));
    } else {
        assert(x / 1 == x);
        assert(be_bytes(x % 1, 0) =~= Seq::empty());
    }
}

} // verus!
