//! Keys: a user key together with the timestamp of the version it names.
//!
//! Keys are ordered by user key, byte by byte; the versions of one user key are ordered from the
//! newest to the oldest.
use vstd::prelude::*;

verus! {

/// The timestamp of keys that carry no version.
pub const TS_DEFAULT: u64 = 0;

/// The timestamp that sorts before every other version of a user key.
pub const TS_RANGE_BEGIN: u64 = 0xffff_ffff_ffff_ffff;

/// The timestamp that sorts after every other version of a user key.
pub const TS_RANGE_END: u64 = 0;

/// A key as a mathematical value.
#[verifier::ext_equal]
pub struct KeyTs {
    pub key: Seq<u8>,
    pub ts: u64,
}

/// How two values stand to each other in an order.
#[derive(Clone, Copy, PartialEq, Eq, Structural)]
pub enum Order {
    Less,
    Equal,
    Greater,
}

/// Lexicographic order on byte strings.
pub open spec fn bytes_lt(a: Seq<u8>, b: Seq<u8>) -> bool
    decreases a.len(),
{
    if b.len() == 0 {
        false
    } else if a.len() == 0 {
        true
    } else if a[0] != b[0] {
        a[0] < b[0]
    } else {
        bytes_lt(a.skip(1), b.skip(1))
    }
}

pub open spec fn bytes_le(a: Seq<u8>, b: Seq<u8>) -> bool {
    a == b || bytes_lt(a, b)
}

/// The order of keys: user key ascending, timestamp descending.
#[verifier::opaque]
pub open spec fn key_lt(a: KeyTs, b: KeyTs) -> bool {
    bytes_lt(a.key, b.key) || (a.key == b.key && a.ts > b.ts)
}

pub open spec fn key_le(a: KeyTs, b: KeyTs) -> bool {
    a == b || key_lt(a, b)
}

pub proof fn lemma_bytes_lt_irreflexive(a: Seq<u8>)
    ensures
        !bytes_lt(a, a),
    decreases a.len(),
{
    if a.len() > 0 {
        lemma_bytes_lt_irreflexive(a.skip(1));
    }
}

pub proof fn lemma_bytes_lt_transitive(a: Seq<u8>, b: Seq<u8>, c: Seq<u8>)
    requires
        bytes_lt(a, b),
        bytes_lt(b, c),
    ensures
        bytes_lt(a, c),
    decreases a.len(),
{
    if a.len() > 0 && a[0] == b[0] && b[0] == c[0] {
        lemma_bytes_lt_transitive(a.skip(1), b.skip(1), c.skip(1));
    }
}

pub proof fn lemma_bytes_lt_total(a: Seq<u8>, b: Seq<u8>)
    ensures
        a == b || bytes_lt(a, b) || bytes_lt(b, a),
    decreases a.len(),
{
    if a.len() > 0 && b.len() > 0 {
        if a[0] == b[0] {
            lemma_bytes_lt_total(a.skip(1), b.skip(1));
            if a.skip(1) == b.skip(1) {
                assert(a =~= seq![a[0]] + a.skip(1));
                assert(b =~= seq![b[0]] + b.skip(1));
            }
        }
    } else if a.len() == 0 && b.len() == 0 {
        assert(a =~= b);
    }
}

/// The order on byte strings is a strict total order.
pub broadcast proof fn lemma_bytes_order(a: Seq<u8>, b: Seq<u8>)
    ensures
        #![trigger bytes_lt(a, b)]
        !(bytes_lt(a, b) && bytes_lt(b, a)),
        bytes_lt(a, b) ==> a != b,
        a == b || bytes_lt(a, b) || bytes_lt(b, a),
{
    lemma_bytes_lt_irreflexive(a);
    lemma_bytes_lt_total(a, b);
    if bytes_lt(a, b) && bytes_lt(b, a) {
        lemma_bytes_lt_transitive(a, b, a);
    }
}

pub broadcast proof fn lemma_key_order(a: KeyTs, b: KeyTs)
    ensures
        #![trigger key_lt(a, b)]
        !(key_lt(a, b) && key_lt(b, a)),
        key_lt(a, b) ==> a != b,
        a == b || key_lt(a, b) || key_lt(b, a),
{
    reveal(key_lt);
    lemma_bytes_order(a.key, b.key);
    lemma_bytes_order(b.key, a.key);
    if a.key == b.key && a.ts == b.ts {
        assert(a =~= b);
    }
}

pub broadcast proof fn lemma_key_order_transitive(a: KeyTs, b: KeyTs, c: KeyTs)
    requires
        #[trigger] key_lt(a, b),
        #[trigger] key_lt(b, c),
    ensures
        key_lt(a, c),
{
    reveal(key_lt);
    if bytes_lt(a.key, b.key) && bytes_lt(b.key, c.key) {
        lemma_bytes_lt_transitive(a.key, b.key, c.key);
    }
}

pub broadcast group group_key_order {
    lemma_key_order,
    lemma_key_order_transitive,
}

/// The first byte in which two byte strings differ decides their order; without one, the shorter
/// comes first.
pub proof fn lemma_first_difference(a: Seq<u8>, b: Seq<u8>)
    ensures
        bytes_lt(a, b) <==> exists|n: int|
            {
                &&& 0 <= n <= a.len()
                &&& n < b.len()
                &&& #[trigger] a.take(n) == b.take(n)
                &&& n == a.len() || a[n] < b[n]
            },
    decreases a.len(),
{
    if b.len() > 0 {
        if a.len() == 0 {
            assert(a.take(0) =~= b.take(0));
        } else if a[0] != b[0] {
            if a[0] < b[0] {
                assert(a.take(0) =~= b.take(0));
            }
            assert forall|n: int|
                0 <= n <= a.len() && n < b.len() && #[trigger] a.take(n) == b.take(n) implies n
                == 0 by {
                if n > 0 {
                    assert(a.take(n)[0] == b.take(n)[0]);
                }
            }
        } else {
            let x = a.skip(1);
            let y = b.skip(1);
            lemma_first_difference(x, y);
            if bytes_lt(a, b) {
                let m = choose|m: int|
                    {
                        &&& 0 <= m <= x.len()
                        &&& m < y.len()
                        &&& #[trigger] x.take(m) == y.take(m)
                        &&& m == x.len() || x[m] < y[m]
                    };
                assert(a.take(m + 1) =~= seq![a[0]] + x.take(m));
                assert(b.take(m + 1) =~= seq![b[0]] + y.take(m));
                assert(a.take(m + 1) == b.take(m + 1));
            }
            assert forall|n: int|
                {
                    &&& 0 <= n <= a.len()
                    &&& n < b.len()
                    &&& #[trigger] a.take(n) == b.take(n)
                    &&& n == a.len() || a[n] < b[n]
                } implies bytes_lt(a, b) by {
                assert(n > 0);
                assert(x.take(n - 1) =~= a.take(n).skip(1));
                assert(y.take(n - 1) =~= b.take(n).skip(1));
                assert(x.take(n - 1) == y.take(n - 1));
            }
        }
    }
}

/// Keys are in the order of their user keys, and of one user key the newer version comes first.
pub proof fn lemma_newest_first(a: KeyTs, b: KeyTs)
    ensures
        a.key != b.key ==> (key_lt(a, b) <==> bytes_lt(a.key, b.key)),
        a.key == b.key ==> (key_lt(a, b) <==> a.ts > b.ts),
        key_le(a, b) <==> !key_lt(b, a),
        bytes_le(a.key, b.key) <==> !bytes_lt(b.key, a.key),
{
    reveal(key_lt);
    lemma_bytes_lt_irreflexive(a.key);
    lemma_bytes_order(a.key, b.key);
    lemma_bytes_order(b.key, a.key);
    lemma_key_order(a, b);
    lemma_key_order(b, a);
}

/// Compares two byte strings.
pub fn compare_bytes(a: &[u8], b: &[u8]) -> (r: Order)
    ensures
        r is Less <==> bytes_lt(a@, b@),
        r is Equal <==> a@ == b@,
        r is Greater <==> bytes_lt(b@, a@),
{
    let mut i: usize = 0;
    assert(a@.skip(0) =~= a@ && b@.skip(0) =~= b@);
    while i < a.len() && i < b.len()
        invariant
            i <= a.len(),
            i <= b.len(),
            a@.take(i as int) == b@.take(i as int),
            bytes_lt(a@, b@) == bytes_lt(a@.skip(i as int), b@.skip(i as int)),
            bytes_lt(b@, a@) == bytes_lt(b@.skip(i as int), a@.skip(i as int)),
        decreases a.len() - i,
    {
        if a[i] < b[i] {
            proof {
                lemma_bytes_order(a@, b@);
            }
            return Order::Less;
        }
        if a[i] > b[i] {
            proof {
                lemma_bytes_order(b@, a@);
            }
            return Order::Greater;
        }
        assert(a@.skip(i as int).skip(1) =~= a@.skip(i + 1));
        assert(b@.skip(i as int).skip(1) =~= b@.skip(i + 1));
        assert(a@.take(i + 1) =~= a@.take(i as int).push(a@[i as int]));
        assert(b@.take(i + 1) =~= b@.take(i as int).push(b@[i as int]));
        i = i + 1;
    }
    proof {
        lemma_bytes_order(a@, b@);
        lemma_bytes_order(b@, a@);
        if a.len() == b.len() {
            assert(a@ =~= a@.take(i as int));
            assert(b@ =~= b@.take(i as int));
        }
    }
    if a.len() == b.len() {
        Order::Equal
    } else if a.len() < b.len() {
        Order::Less
    } else {
        Order::Greater
    }
}

/// Tells whether two byte strings are equal.
pub fn bytes_equal(a: &[u8], b: &[u8]) -> (r: bool)
    ensures
        r == (a@ == b@),
{
    match compare_bytes(a, b) {
        Order::Equal => true,
        _ => false,
    }
}

/// A borrowed key.
#[derive(Clone, Copy)]
pub struct KeySlice<'a> {
    pub key: &'a [u8],
    pub ts: u64,
}

/// An owned key.
pub struct KeyVec {
    pub key: Vec<u8>,
    pub ts: u64,
}

impl<'a> View for KeySlice<'a> {
    type V = KeyTs;

    open spec fn view(&self) -> KeyTs {
        KeyTs { key: self.key@, ts: self.ts }
    }
}

impl View for KeyVec {
    type V = KeyTs;

    open spec fn view(&self) -> KeyTs {
        KeyTs { key: self.key@, ts: self.ts }
    }
}

impl<'a> KeySlice<'a> {
    pub fn from_slice(key: &'a [u8], ts: u64) -> (r: KeySlice<'a>)
        ensures
            r@ == (KeyTs { key: key@, ts }),
    {
        KeySlice { key, ts }
    }

    /// The user key.
    pub fn key_ref(self) -> (r: &'a [u8])
        ensures
            r@ == self@.key,
    {
        self.key
    }

    pub fn ts(self) -> (r: u64)
        ensures
            r == self@.ts,
    {
        self.ts
    }

    /// The length of the user key.
    pub fn len(self) -> (r: usize)
        ensures
            r == self@.key.len(),
    {
        self.key.len()
    }

    /// Tells whether the user key is empty.
    pub fn is_empty(self) -> (r: bool)
        ensures
            r == (self@.key.len() == 0),
    {
        self.key.len() == 0
    }

    pub fn to_key_vec(self) -> (r: KeyVec)
        ensures
            r@ == self@,
    {
        KeyVec { key: vstd::slice::slice_to_vec(self.key), ts: self.ts }
    }

    /// Compares two keys in the order of keys.
    pub fn compare(self, other: KeySlice<'_>) -> (r: Order)
        ensures
            r is Less <==> key_lt(self@, other@),
            r is Equal <==> self@ == other@,
            r is Greater <==> key_lt(other@, self@),
    {
        proof {
            reveal(key_lt);
            lemma_bytes_order(self.key@, other.key@);
            lemma_bytes_order(other.key@, self.key@);
        }
        match compare_bytes(self.key, other.key) {
            Order::Less => Order::Less,
            Order::Greater => Order::Greater,
            Order::Equal => {
                if self.ts > other.ts {
                    Order::Less
                } else if self.ts < other.ts {
                    Order::Greater
                } else {
                    assert(self@ =~= other@);
                    Order::Equal
                }
            },
        }
    }
}

impl KeyVec {
    /// The empty key.
    pub fn new() -> (r: KeyVec)
        ensures
            r@ == (KeyTs { key: Seq::empty(), ts: TS_DEFAULT }),
    {
        KeyVec { key: Vec::new(), ts: TS_DEFAULT }
    }

    pub fn from_vec_with_ts(key: Vec<u8>, ts: u64) -> (r: KeyVec)
        ensures
            r@ == (KeyTs { key: key@, ts }),
    {
        KeyVec { key, ts }
    }

    /// The user key.
    pub fn into_inner(self) -> (r: Vec<u8>)
        ensures
            r@ == self@.key,
    {
        self.key
    }

    pub fn as_key_slice(&self) -> (r: KeySlice<'_>)
        ensures
            r@ == self@,
    {
        KeySlice { key: self.key.as_slice(), ts: self.ts }
    }

    pub fn is_empty(&self) -> (r: bool)
        ensures
            r == (self@.key.len() == 0),
    {
        self.key.len() == 0
    }
}

} // verus!
