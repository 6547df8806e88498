//! The write-ahead log of a memtable.
//!
//! A record is
//!
//! | key length (u16) | key | value length (u16) | value | checksum (u32) |
//!
//! with big-endian numbers. The checksum is taken over the lengths, in the byte order of the
//! machine, the key and the value. A memtable's log has as key the user key followed by the
//! timestamp.
use vstd::prelude::*;
use crate::codec;
use crate::deps;
use crate::deps::SkipList;
use crate::error::LsmError;
use crate::key::{KeySlice, KeyTs, TS_DEFAULT};

verus! {

/// The order of the bytes of a number in memory.
#[derive(Clone, Copy, Debug, PartialEq, Eq, Structural)]
pub enum ByteOrder {
    Little,
    Big,
}

/// A write-ahead log: the records that still have to be written to its file.
pub struct Wal {
    order: ByteOrder,
    buf: Vec<u8>,
}

/// The two bytes of a length, in some byte order. A longer length is cut off.
pub open spec fn len_bytes(order: ByteOrder, n: nat) -> Seq<u8> {
    let hi = (n / 256 % 256) as u8;
    let lo = (n % 256) as u8;
    match order {
        ByteOrder::Little => seq![lo, hi],
        ByteOrder::Big => seq![hi, lo],
    }
}

/// A key as a memtable's log has it: the user key, then the timestamp.
pub open spec fn raw_key(k: KeyTs) -> Seq<u8> {
    k.key + codec::be_bytes(k.ts as nat, 8)
}

/// What the checksum of a record is taken over.
pub open spec fn checked_bytes(order: ByteOrder, key: Seq<u8>, value: Seq<u8>) -> Seq<u8> {
    len_bytes(order, key.len()) + key + len_bytes(order, value.len()) + value
}

/// A record as it is stored.
pub open spec fn record_bytes(order: ByteOrder, key: Seq<u8>, value: Seq<u8>) -> Seq<u8> {
    codec::be_bytes(key.len(), 2) + key + codec::be_bytes(value.len(), 2) + value
        + codec::be_bytes(deps::crc32_of(checked_bytes(order, key, value)) as nat, 4)
}

/// The key that stands in a memtable's log as some bytes.
pub open spec fn split_key(raw: Seq<u8>) -> KeyTs {
    let n = raw.len() - 8;
    KeyTs { key: raw.take(n), ts: codec::be_at(raw, n, 8) as u64 }
}

/// A memtable's log has a key as the user key followed by the eight bytes of the timestamp.
pub proof fn lemma_raw_key(k: KeyTs)
    ensures
        raw_key(k).len() == k.key.len() + 8,
        raw_key(k).take(k.key.len() as int) == k.key,
        codec::be_at(raw_key(k), k.key.len() as int, 8) == k.ts,
{
    broadcast use crate::codec::lemma_be_bytes_len;

    let n = k.key.len() as int;
    let s = raw_key(k);
    codec::lemma_pow256();
    assert(s.take(n) =~= k.key);
    assert(s.subrange(n, n + 8) =~= codec::be_bytes(k.ts as nat, 8));
    codec::lemma_be_round_trip(k.ts as nat, 8);
}

/// A key is found again in its bytes.
pub proof fn lemma_split_raw(k: KeyTs)
    ensures
        raw_key(k).len() == k.key.len() + 8,
        split_key(raw_key(k)) == k,
{
    broadcast use crate::codec::lemma_be_bytes_len;

    let ts = codec::be_bytes(k.ts as nat, 8);
    let raw = raw_key(k);
    codec::lemma_pow256();
    assert(raw =~= k.key + ts + Seq::empty());
    codec::lemma_be_at_appended(k.key, k.ts as nat, 8, Seq::empty());
    assert(raw.take(raw.len() - 8) =~= k.key);
}

/// Bytes that are long enough are those of the key that is found in them.
pub proof fn lemma_raw_split(raw: Seq<u8>)
    requires
        raw.len() >= 8,
    ensures
        raw_key(split_key(raw)) == raw,
{
    let n = raw.len() - 8;
    let ts = raw.subrange(n, n + 8);
    codec::lemma_pow256();
    codec::lemma_be_value_bound(ts);
    codec::lemma_be_bytes_value(ts);
    assert(raw_key(split_key(raw)) =~= raw);
}

/// A version that is put into a memtable.
#[verifier::ext_equal]
pub struct Record {
    pub key: KeyTs,
    pub value: Seq<u8>,
}

/// A record of a log.
#[verifier::ext_equal]
pub struct LogRecord {
    pub key: Seq<u8>,
    pub value: Seq<u8>,
}

/// The record that a memtable's log has for a version.
pub open spec fn log_record(r: Record) -> LogRecord {
    LogRecord { key: raw_key(r.key), value: r.value }
}

/// The record with which a byte string begins, and the record's length.
#[verifier::opaque]
pub open spec fn first_record(order: ByteOrder, s: Seq<u8>) -> Result<
    (LogRecord, int),
    LsmError,
> {
    let n = codec::be_at(s, 0, 2) as int;
    let m = codec::be_at(s, 2 + n, 2) as int;
    let key = s.subrange(2, 2 + n);
    let value = s.subrange(4 + n, 4 + n + m);
    if s.len() < 2 || s.len() < 4 + n || s.len() < 8 + n + m {
        Err(LsmError::Truncated)
    } else if deps::crc32_of(checked_bytes(order, key, value)) != codec::be_at(s, 4 + n + m, 4) {
        Err(LsmError::ChecksumMismatch)
    } else {
        Ok((LogRecord { key, value }, 8 + n + m))
    }
}

/// The records with which a byte string begins, as far as they can be read.
pub open spec fn log_records(order: ByteOrder, s: Seq<u8>) -> Seq<LogRecord>
    decreases s.len(),
{
    match first_record(order, s) {
        Ok((r, n)) => if 0 < n <= s.len() {
            seq![r] + log_records(order, s.skip(n))
        } else {
            Seq::empty()
        },
        Err(_) => Seq::empty(),
    }
}

/// Why the records of a byte string cannot be read to the end, if so.
pub open spec fn log_error(order: ByteOrder, s: Seq<u8>) -> Option<LsmError>
    decreases s.len(),
{
    if s.len() == 0 {
        None
    } else {
        match first_record(order, s) {
            Ok((r, n)) => if 0 < n <= s.len() {
                log_error(order, s.skip(n))
            } else {
                None
            },
            Err(e) => Some(e),
        }
    }
}

/// The stored form of a number of records.
pub open spec fn log_bytes(order: ByteOrder, rs: Seq<LogRecord>) -> Seq<u8>
    decreases rs.len(),
{
    if rs.len() == 0 {
        Seq::empty()
    } else {
        record_bytes(order, rs[0].key, rs[0].value) + log_bytes(order, rs.skip(1))
    }
}

/// What a skip list holds after records were put into it in their order, under their keys without
/// timestamps.
pub open spec fn replayed(m: Map<(Seq<u8>, u64), Seq<u8>>, rs: Seq<LogRecord>) -> Map<
    (Seq<u8>, u64),
    Seq<u8>,
>
    decreases rs.len(),
{
    if rs.len() == 0 {
        m
    } else {
        let r = rs[0];
        replayed(m.insert((r.key, deps::inverted(TS_DEFAULT)), r.value), rs.skip(1))
    }
}

/// The stored lengths can hold the sizes of a record.
pub open spec fn record_fits(r: LogRecord) -> bool {
    r.key.len() < 0x1_0000 && r.value.len() < 0x1_0000
}

/// The value of the last record with some key; nothing if there is none.
pub open spec fn last_value(rs: Seq<LogRecord>, key: Seq<u8>) -> Option<Seq<u8>>
    decreases rs.len(),
{
    if rs.len() == 0 {
        None
    } else {
        match last_value(rs.skip(1), key) {
            Some(v) => Some(v),
            None => if rs[0].key == key {
                Some(rs[0].value)
            } else {
                None
            },
        }
    }
}

/// The last record with a key is the one behind which there is no other with it.
pub proof fn lemma_last_value(rs: Seq<LogRecord>, key: Seq<u8>, i: int)
    requires
        0 <= i,
    ensures
        i < rs.len() && rs[i].key == key && (forall|j: int|
            i < j < rs.len() ==> (#[trigger] rs[j]).key != key) ==> last_value(rs, key) == Some(
            rs[i].value,
        ),
        (forall|j: int| 0 <= j < rs.len() ==> (#[trigger] rs[j]).key != key) ==> last_value(
            rs,
            key,
        ) is None,
    decreases rs.len(),
{
    if rs.len() > 0 {
        let t = rs.skip(1);
        if i > 0 {
            lemma_last_value(t, key, i - 1);
        } else {
            lemma_last_value(t, key, 0);
        }
        if forall|j: int| i < j < rs.len() ==> (#[trigger] rs[j]).key != key {
            assert forall|j: int| i - 1 < j < t.len() && 0 <= j implies (#[trigger] t[j]).key
                != key by {
                assert(t[j] == rs[j + 1]);
            }
        }
        if forall|j: int| 0 <= j < rs.len() ==> (#[trigger] rs[j]).key != key {
            assert(rs[0].key != key);
            assert forall|j: int| 0 <= j < t.len() implies (#[trigger] t[j]).key != key by {
                assert(t[j] == rs[j + 1]);
            }
        }
    }
}

/// A log leads each key to the value of its last record, and no other key to anything.
pub proof fn lemma_replayed_last(
    m: Map<(Seq<u8>, u64), Seq<u8>>,
    rs: Seq<LogRecord>,
    k: (Seq<u8>, u64),
)
    ensures
        match last_value(rs, k.0) {
            Some(v) if k.1 == deps::inverted(TS_DEFAULT) => replayed(m, rs).contains_key(k)
                && replayed(m, rs)[k] == v,
            _ => replayed(m, rs).contains_key(k) == m.contains_key(k) && replayed(m, rs)[k]
                == m[k],
        },
    decreases rs.len(),
{
    if rs.len() > 0 {
        let r = rs[0];
        lemma_replayed_last(
            m.insert((r.key, deps::inverted(TS_DEFAULT)), r.value),
            rs.skip(1),
            k,
        );
    }
}

proof fn lemma_first_record(order: ByteOrder, r: LogRecord, rest: Seq<u8>)
    requires
        record_fits(r),
    ensures
        first_record(order, record_bytes(order, r.key, r.value) + rest) == Ok::<
            (LogRecord, int),
            LsmError,
        >((r, record_bytes(order, r.key, r.value).len() as int)),
{
    broadcast use crate::codec::lemma_be_bytes_len;

    reveal(first_record);
    codec::lemma_pow256();
    let none = Seq::<u8>::empty();
    let raw = r.key;
    let s = record_bytes(order, raw, r.value) + rest;
    let n = raw.len() as int;
    let m = r.value.len() as int;
    let b1 = codec::be_bytes(raw.len(), 2);
    let b2 = codec::be_bytes(r.value.len(), 2);
    let crc = deps::crc32_of(checked_bytes(order, raw, r.value)) as nat;
    let b3 = codec::be_bytes(crc, 4);
    assert(s =~= none + b1 + (raw + b2 + r.value + b3 + rest));
    codec::lemma_be_at_appended(none, raw.len(), 2, raw + b2 + r.value + b3 + rest);
    assert(s =~= (b1 + raw) + b2 + (r.value + b3 + rest));
    codec::lemma_be_at_appended(b1 + raw, r.value.len(), 2, r.value + b3 + rest);
    assert(s =~= (b1 + raw + b2 + r.value) + b3 + rest);
    codec::lemma_be_at_appended(b1 + raw + b2 + r.value, crc, 4, rest);
    assert(s.subrange(2, 2 + n) =~= raw);
    assert(s.subrange(4 + n, 4 + n + m) =~= r.value);
}

/// How a record is stored: the length of the key, the key, the length of the value, the value, and a
/// checksum of the lengths, in the byte order of the machine, the key and the value.
pub proof fn lemma_record_bytes(order: ByteOrder, key: Seq<u8>, value: Seq<u8>)
    ensures
        ({
            let s = record_bytes(order, key, value);
            let n = key.len() as int;
            let m = value.len() as int;
            let a = (n / 256 % 256) as u8;
            let b = (n % 256) as u8;
            let c = (m / 256 % 256) as u8;
            let d = (m % 256) as u8;
            &&& s.len() == 8 + n + m
            &&& s[0] == a && s[1] == b
            &&& s.subrange(2, 2 + n) == key
            &&& s[2 + n] == c && s[3 + n] == d
            &&& s.subrange(4 + n, 4 + n + m) == value
            &&& codec::be_at(s, 4 + n + m, 4) == match order {
                ByteOrder::Little => deps::crc32_of(seq![b, a] + key + seq![d, c] + value),
                ByteOrder::Big => deps::crc32_of(seq![a, b] + key + seq![c, d] + value),
            }
        }),
{
    broadcast use crate::codec::lemma_be_bytes_len;

    let s = record_bytes(order, key, value);
    let n = key.len() as int;
    let m = value.len() as int;
    let crc = deps::crc32_of(checked_bytes(order, key, value)) as nat;
    codec::lemma_pow256();
    assert(codec::pow256(1) == 256 && codec::pow256(0) == 1) by {
        reveal_with_fuel(codec::pow256, 2);
    }
    codec::lemma_be_digits(key.len(), 2, 0);
    codec::lemma_be_digits(key.len(), 2, 1);
    codec::lemma_be_digits(value.len(), 2, 0);
    codec::lemma_be_digits(value.len(), 2, 1);
    assert(s.subrange(2, 2 + n) =~= key);
    assert(s.subrange(4 + n, 4 + n + m) =~= value);
    assert(s.subrange(4 + n + m, 8 + n + m) =~= codec::be_bytes(crc, 4));
    codec::lemma_be_round_trip(crc, 4);
}

/// The record with which a byte string begins is stored there as it is when it is put.
proof fn lemma_first_is_stored(order: ByteOrder, s: Seq<u8>)
    requires
        first_record(order, s) is Ok,
    ensures
        ({
            let (r, n) = first_record(order, s)->Ok_0;
            &&& 0 < n <= s.len()
            &&& record_fits(r)
            &&& s.take(n) == record_bytes(order, r.key, r.value)
        }),
{
    reveal(first_record);
    codec::lemma_pow256();
    let n = codec::be_at(s, 0, 2) as int;
    let m = codec::be_at(s, 2 + n, 2) as int;
    let key = s.subrange(2, 2 + n);
    let value = s.subrange(4 + n, 4 + n + m);
    let a = s.subrange(0, 2);
    let b = s.subrange(2 + n, 2 + n + 2);
    let c = s.subrange(4 + n + m, 4 + n + m + 4);
    codec::lemma_be_value_bound(a);
    codec::lemma_be_value_bound(b);
    codec::lemma_be_bytes_value(a);
    codec::lemma_be_bytes_value(b);
    codec::lemma_be_bytes_value(c);
    assert(s.take(8 + n + m) =~= a + key + b + value + c);
}

/// A byte string that is read as a log begins with just the stored form of the records that are read.
/// It is read to its end if it holds nothing else; otherwise what follows is no stored record that
/// the lengths can hold.
pub proof fn lemma_log_is_its_records(order: ByteOrder, s: Seq<u8>)
    ensures
        ({
            let rs = log_records(order, s);
            let n = log_bytes(order, rs).len() as int;
            &&& n <= s.len()
            &&& s.take(n) == log_bytes(order, rs)
            &&& forall|i: int| 0 <= i < rs.len() ==> record_fits(#[trigger] rs[i])
            &&& log_error(order, s) is None <==> n == s.len()
            &&& forall|key: Seq<u8>, value: Seq<u8>, rest: Seq<u8>|
                record_fits(LogRecord { key, value }) ==> s.skip(n) != #[trigger] (record_bytes(
                    order,
                    key,
                    value,
                ) + rest)
        }),
    decreases s.len(),
{
    let rs = log_records(order, s);
    let all = log_bytes(order, rs);
    match first_record(order, s) {
        Ok((r, n)) => {
            lemma_first_is_stored(order, s);
            let t = s.skip(n);
            let qs = log_records(order, t);
            let m = log_bytes(order, qs).len() as int;
            lemma_log_is_its_records(order, t);
            assert(rs.skip(1) =~= qs);
            assert(all == record_bytes(order, r.key, r.value) + log_bytes(order, qs));
            assert(s.take(n + m) =~= s.take(n) + t.take(m));
            assert(s.skip(n + m) =~= t.skip(m));
            assert forall|i: int| 0 <= i < rs.len() implies record_fits(#[trigger] rs[i]) by {
                if i > 0 {
                    assert(rs[i] == qs[i - 1]);
                }
            }
        },
        Err(_) => {
            assert(s.take(0) =~= Seq::empty());
            assert(s.skip(0) =~= s);
            assert forall|key: Seq<u8>, value: Seq<u8>, rest: Seq<u8>|
                record_fits(LogRecord { key, value }) implies s.skip(0) != #[trigger] (
            record_bytes(order, key, value) + rest) by {
                lemma_first_record(order, LogRecord { key, value }, rest);
            }
            if s.len() == 0 {
                reveal(first_record);
            }
        },
    }
}

/// Why a log is not read to its end: what follows the records is too short for the lengths that
/// stand there, or its checksum is another one.
pub proof fn lemma_why_unreadable(order: ByteOrder, s: Seq<u8>)
    ensures
        log_error(order, s) matches Some(e) ==> {
            let rest = s.skip(log_bytes(order, log_records(order, s)).len() as int);
            let n = codec::be_at(rest, 0, 2) as int;
            let m = codec::be_at(rest, 2 + n, 2) as int;
            e == if rest.len() < 2 || rest.len() < 4 + n || rest.len() < 8 + n + m {
                LsmError::Truncated
            } else {
                LsmError::ChecksumMismatch
            }
        },
    decreases s.len(),
{
    let rs = log_records(order, s);
    match first_record(order, s) {
        Ok((r, n)) => {
            lemma_first_is_stored(order, s);
            let t = s.skip(n);
            let qs = log_records(order, t);
            lemma_why_unreadable(order, t);
            lemma_log_is_its_records(order, t);
            assert(rs.skip(1) =~= qs);
            assert(t.skip(log_bytes(order, qs).len() as int) =~= s.skip(
                log_bytes(order, rs).len() as int,
            ));
        },
        Err(_) => {
            reveal(first_record);
            assert(s.skip(0) =~= s);
        },
    }
}

/// What was put into a log is read back from it, in the same order, if stored lengths can hold the
/// sizes.
pub proof fn lemma_log_round_trip(order: ByteOrder, rs: Seq<LogRecord>)
    requires
        forall|i: int| 0 <= i < rs.len() ==> record_fits(#[trigger] rs[i]),
    ensures
        log_error(order, log_bytes(order, rs)) is None,
        log_records(order, log_bytes(order, rs)) == rs,
    decreases rs.len(),
{
    if rs.len() == 0 {
        assert(rs =~= Seq::empty());
    } else {
        let r = rs[0];
        let t = rs.skip(1);
        let head = record_bytes(order, r.key, r.value);
        let s = log_bytes(order, rs);
        assert(record_fits(r));
        lemma_first_record(order, r, log_bytes(order, t));
        assert forall|i: int| 0 <= i < t.len() implies record_fits(#[trigger] t[i]) by {
            assert(t[i] == rs[i + 1]);
        }
        lemma_log_round_trip(order, t);
        codec::lemma_be_bytes_len(r.key.len(), 2);
        assert(s.skip(head.len() as int) =~= log_bytes(order, t));
        assert(seq![r] + t =~= rs);
    }
}

/// A log grows by one record.
pub proof fn lemma_log_bytes_push(order: ByteOrder, rs: Seq<LogRecord>, r: LogRecord)
    ensures
        log_bytes(order, rs.push(r)) == log_bytes(order, rs) + record_bytes(
            order,
            r.key,
            r.value,
        ),
    decreases rs.len(),
{
    if rs.len() == 0 {
        assert(rs.push(r).skip(1) =~= rs);
        assert(log_bytes(order, rs.push(r).skip(1)) =~= Seq::empty());
        assert(log_bytes(order, rs.push(r)) =~= record_bytes(order, r.key, r.value));
    } else {
        lemma_log_bytes_push(order, rs.skip(1), r);
        assert(rs.push(r).skip(1) =~= rs.skip(1).push(r));
        assert(log_bytes(order, rs.push(r)) =~= log_bytes(order, rs) + record_bytes(
            order,
            r.key,
            r.value,
        ));
    }
}

/// The byte order of the machine. Which one it is depends on the machine alone.
pub fn native_order() -> ByteOrder {
    order_of(deps::native_bytes(1))
}

/// The byte order in which two bytes are those of the number 1.
pub fn order_of(bytes: [u8; 2]) -> (r: ByteOrder)
    ensures
        r == if bytes[0] == 1 {
            ByteOrder::Little
        } else {
            ByteOrder::Big
        },
        bytes@ == len_bytes(ByteOrder::Little, 1) || bytes@ == len_bytes(ByteOrder::Big, 1)
            ==> bytes@ == len_bytes(r, 1),
{
    if bytes[0] == 1 {
        ByteOrder::Little
    } else {
        ByteOrder::Big
    }
}

fn put_len(buf: &mut Vec<u8>, order: ByteOrder, n: usize)
    ensures
        final(buf)@ == old(buf)@ + len_bytes(order, n as nat),
{
    let hi: u8 = ((n / 256) % 256) as u8;
    let lo: u8 = (n % 256) as u8;
    match order {
        ByteOrder::Little => {
            buf.push(lo);
            buf.push(hi);
        },
        ByteOrder::Big => {
            buf.push(hi);
            buf.push(lo);
        },
    }
    assert(buf@ =~= old(buf)@ + len_bytes(order, n as nat));
}

/// The checksum of a record.
fn checksum(order: ByteOrder, key: &[u8], value: &[u8]) -> (r: u32)
    ensures
        r == deps::crc32_of(checked_bytes(order, key@, value@)),
{
    let mut buf: Vec<u8> = Vec::new();
    put_len(&mut buf, order, key.len());
    codec::put_slice(&mut buf, key);
    put_len(&mut buf, order, value.len());
    codec::put_slice(&mut buf, value);
    assert(buf@ =~= checked_bytes(order, key@, value@));
    deps::crc32(buf.as_slice())
}

/// A key as a memtable's log has it.
pub(crate) fn to_raw_key(key: KeySlice<'_>) -> (r: Vec<u8>)
    ensures
        r@ == raw_key(key@),
{
    let mut raw = vstd::slice::slice_to_vec(key.key_ref());
    codec::put_u64(&mut raw, key.ts());
    raw
}

impl Wal {
    pub closed spec fn order(&self) -> ByteOrder {
        self.order
    }

    /// The bytes that still have to be written to the file.
    pub closed spec fn pending(&self) -> Seq<u8> {
        self.buf@
    }

    /// A new log, in the byte order of the machine.
    pub fn create() -> (r: Wal)
        ensures
            r.pending() == Seq::<u8>::empty(),
    {
        Wal::create_with_order(native_order())
    }

    pub fn create_with_order(order: ByteOrder) -> (r: Wal)
        ensures
            r.order() == order,
            r.pending() == Seq::<u8>::empty(),
    {
        Wal { order, buf: Vec::new() }
    }

    /// Reads the records of a log that was written on a machine of this kind into a skip list.
    pub fn recover(data: &[u8], skiplist: &mut SkipList) -> (r: Result<Wal, LsmError>)
        ensures
            exists|order: ByteOrder| #[trigger]
                is_recovery(order, data@, *old(skiplist), *final(skiplist), r),
    {
        let order = native_order();
        let r = Wal::recover_with_order(order, data, skiplist);
        assert(is_recovery(order, data@, *old(skiplist), *skiplist, r));
        r
    }

    /// Reads the records of a log into a skip list, up to the end or to the first that is broken. The
    /// list has each key of the log as a whole, at the default timestamp.
    pub fn recover_with_order(order: ByteOrder, data: &[u8], skiplist: &mut SkipList) -> (r: Result<
        Wal,
        LsmError,
    >)
        ensures
            is_recovery(order, data@, *old(skiplist), *final(skiplist), r),
    {
        let ghost start = deps::skip_entries(*skiplist);
        let ghost all = log_records(order, data@);
        let n: usize = data.len();
        let mut pos: usize = 0;
        assert(data@.skip(0) =~= data@);
        while pos < n
            invariant
                pos <= n == data@.len(),
                replayed(start, all) == replayed(
                    deps::skip_entries(*skiplist),
                    log_records(order, data@.skip(pos as int)),
                ),
                log_error(order, data@) == log_error(order, data@.skip(pos as int)),
                start == deps::skip_entries(*old(skiplist)),
                all == log_records(order, data@),
            decreases n - pos,
        {
            let rest: &[u8] = vstd::slice::slice_subrange(data, pos, n);
            assert(rest@ =~= data@.skip(pos as int));
            match read_record(order, rest) {
                Err(e) => {
                    return Err(e);
                },
                Ok((key, value, len)) => {
                    let ghost rs = log_records(order, rest@);
                    let ghost r = LogRecord { key: key@, value: value@ };
                    proof {
                        assert(rs == seq![r] + log_records(order, rest@.skip(len as int)));
                        assert(rs[0] == r);
                        assert(rs.skip(1) =~= log_records(order, rest@.skip(len as int)));
                        assert(rest@.skip(len as int) =~= data@.skip(pos + len));
                    }
                    deps::skip_insert(skiplist, (key, deps::invert(TS_DEFAULT)), value);
                    pos = pos + len;
                },
            }
        }
        assert(data@.skip(pos as int) =~= Seq::empty());
        Ok(Wal { order, buf: Vec::new() })
    }

    /// Appends a record.
    pub fn put(&mut self, key: &[u8], value: &[u8]) -> (r: Result<(), LsmError>)
        ensures
            r is Ok,
            final(self).order() == old(self).order(),
            final(self).pending() == old(self).pending() + record_bytes(
                old(self).order(),
                key@,
                value@,
            ),
    {
        let crc = checksum(self.order, key, value);
        codec::put_len16(&mut self.buf, key.len());
        codec::put_slice(&mut self.buf, key);
        codec::put_len16(&mut self.buf, value.len());
        codec::put_slice(&mut self.buf, value);
        codec::put_u32(&mut self.buf, crc);
        assert(self.buf@ =~= old(self).buf@ + record_bytes(self.order, key@, value@));
        Ok(())
    }

    /// Hands over the bytes that still have to be written to the file.
    pub fn sync(&mut self) -> (r: Vec<u8>)
        ensures
            r@ == old(self).pending(),
            final(self).pending() == Seq::<u8>::empty(),
            final(self).order() == old(self).order(),
    {
        let mut buf: Vec<u8> = Vec::new();
        core::mem::swap(&mut self.buf, &mut buf);
        buf
    }
}

/// A log was read into a skip list: the list has the records that can be read, and reading failed
/// if and only if there is a broken one.
pub open spec fn is_recovery(
    order: ByteOrder,
    data: Seq<u8>,
    before: SkipList,
    after: SkipList,
    r: Result<Wal, LsmError>,
) -> bool {
    &&& deps::skip_entries(after) == replayed(
        deps::skip_entries(before),
        log_records(order, data),
    )
    &&& match log_error(order, data) {
        None => r matches Ok(w) && w.order() == order && w.pending() == Seq::<u8>::empty(),
        Some(e) => r == Err::<Wal, LsmError>(e),
    }
}

/// A log that is read into an empty list leads each key that was put to the last value that was put
/// for it, and nothing else is there, if stored lengths can hold the sizes.
pub proof fn lemma_read_back(
    order: ByteOrder,
    rs: Seq<LogRecord>,
    before: SkipList,
    after: SkipList,
    r: Result<Wal, LsmError>,
)
    requires
        forall|i: int| 0 <= i < rs.len() ==> record_fits(#[trigger] rs[i]),
        deps::skip_entries(before) == deps::no_entries(),
        is_recovery(order, log_bytes(order, rs), before, after, r),
    ensures
        r is Ok,
        forall|k: (Seq<u8>, u64)| #[trigger]
            deps::skip_entries(after).contains_key(k) <==> last_value(rs, k.0) is Some && k.1
                == deps::inverted(TS_DEFAULT),
        forall|k: (Seq<u8>, u64)| #[trigger]
            deps::skip_entries(after).contains_key(k) ==> last_value(rs, k.0) == Some(
                deps::skip_entries(after)[k],
            ),
{
    lemma_log_round_trip(order, rs);
    let m = deps::skip_entries(after);
    assert forall|k: (Seq<u8>, u64)|
        (#[trigger] m.contains_key(k) <==> last_value(rs, k.0) is Some && k.1 == deps::inverted(
            TS_DEFAULT,
        )) && (m.contains_key(k) ==> last_value(rs, k.0) == Some(m[k])) by {
        lemma_replayed_last(deps::no_entries(), rs, k);
    }
}

/// Reads the record with which a byte string begins.
fn read_record(order: ByteOrder, s: &[u8]) -> (r: Result<(Vec<u8>, Vec<u8>, usize), LsmError>)
    ensures
        r matches Err(e) ==> first_record(order, s@) == Err::<(LogRecord, int), LsmError>(e),
        r matches Ok((key, value, len)) ==> {
            &&& first_record(order, s@) == Ok::<(LogRecord, int), LsmError>(
                (LogRecord { key: key@, value: value@ }, len as int),
            )
            &&& 0 < len <= s@.len()
        },
{
    proof {
        reveal(first_record);
    }
    assert(s@.len() == s.len());
    if s.len() < 2 {
        return Err(LsmError::Truncated);
    }
    let n: usize = codec::get_u16(s, 0) as usize;
    if s.len() < 4 + n {
        return Err(LsmError::Truncated);
    }
    let m: usize = codec::get_u16(s, 2 + n) as usize;
    if s.len() < 8 + n + m {
        return Err(LsmError::Truncated);
    }
    let key: &[u8] = vstd::slice::slice_subrange(s, 2, 2 + n);
    let value: &[u8] = vstd::slice::slice_subrange(s, 4 + n, 4 + n + m);
    if checksum(order, key, value) != codec::get_u32(s, 4 + n + m) {
        return Err(LsmError::ChecksumMismatch);
    }
    Ok((vstd::slice::slice_to_vec(key), vstd::slice::slice_to_vec(value), 8 + n + m))
}

/// The key that stands in a memtable's log as some bytes.
pub(crate) fn from_raw_key(raw: &[u8]) -> (r: (Vec<u8>, u64))
    requires
        raw@.len() >= 8,
    ensures
        split_key(raw@) == (KeyTs { key: r.0@, ts: r.1 }),
{
    let n: usize = raw.len() - 8;
    let key = vstd::slice::slice_to_vec(vstd::slice::slice_subrange(raw, 0, n));
    let ts = codec::get_u64(raw, n);
    assert(key@ =~= raw@.take(n as int));
    (key, ts)
}

} // verus!
