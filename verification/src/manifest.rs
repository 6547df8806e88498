//! The manifest: the record of what happened to memtables and tables.
//!
//! In the manifest's file a record, in whatever form it is written, stands between its length (u64)
//! and its checksum (u32), both big-endian.
use vstd::prelude::*;
use crate::codec;
use crate::compact::CompactionTask;
use crate::deps;
use crate::error::LsmError;

verus! {

#[derive(Debug)]
pub enum ManifestRecord {
    /// A memtable was flushed to the table with its id.
    Flush(usize),
    /// A memtable was made.
    NewMemtable(usize),
    /// Tables were merged into others.
    Compaction(CompactionTask, Vec<usize>),
}

/// The records that still have to be written to the manifest's file.
pub struct Manifest {
    pub pending: Vec<ManifestRecord>,
}

impl Manifest {
    /// An empty manifest.
    pub fn create() -> (r: Manifest)
        ensures
            r.pending@ == Seq::<ManifestRecord>::empty(),
    {
        Manifest { pending: Vec::new() }
    }

    pub fn add_record(&mut self, record: ManifestRecord)
        ensures
            final(self).pending@ == old(self).pending@.push(record),
    {
        self.pending.push(record);
    }

    /// Hands over the records that still have to be written.
    pub fn take(&mut self) -> (r: Vec<ManifestRecord>)
        ensures
            r@ == old(self).pending@,
            final(self).pending@ == Seq::<ManifestRecord>::empty(),
    {
        let mut pending: Vec<ManifestRecord> = Vec::new();
        core::mem::swap(&mut self.pending, &mut pending);
        pending
    }
}

/// A record as it stands in the file.
pub open spec fn frame(payload: Seq<u8>) -> Seq<u8> {
    codec::be_bytes(payload.len(), 8) + payload + codec::be_bytes(
        deps::crc32_of(payload) as nat,
        4,
    )
}

/// The file that holds some records.
pub open spec fn frames(payloads: Seq<Seq<u8>>) -> Seq<u8>
    decreases payloads.len(),
{
    if payloads.len() == 0 {
        Seq::empty()
    } else {
        frame(payloads[0]) + frames(payloads.skip(1))
    }
}

/// The record with which a byte string begins, with its length in the file.
#[verifier::opaque]
pub open spec fn first_frame(s: Seq<u8>) -> Result<(Seq<u8>, int), LsmError> {
    let n = codec::be_at(s, 0, 8) as int;
    if s.len() < 8 || s.len() < 12 + n {
        Err(LsmError::Truncated)
    } else if deps::crc32_of(s.subrange(8, 8 + n)) != codec::be_at(s, 8 + n, 4) {
        Err(LsmError::ChecksumMismatch)
    } else {
        Ok((s.subrange(8, 8 + n), 12 + n))
    }
}

/// The records in a file, if all of it can be read.
pub open spec fn unframed(s: Seq<u8>) -> Result<Seq<Seq<u8>>, LsmError>
    decreases s.len(),
{
    if s.len() == 0 {
        Ok(Seq::empty())
    } else {
        match first_frame(s) {
            Err(e) => Err(e),
            Ok((p, n)) => if 0 < n <= s.len() {
                match unframed(s.skip(n)) {
                    Err(e) => Err(e),
                    Ok(ps) => Ok(seq![p] + ps),
                }
            } else {
                Err(LsmError::Truncated)
            },
        }
    }
}

proof fn lemma_first_frame(p: Seq<u8>, rest: Seq<u8>)
    requires
        p.len() < 0x1_0000_0000_0000_0000,
    ensures
        first_frame(frame(p) + rest) == Ok::<(Seq<u8>, int), LsmError>(
            (p, frame(p).len() as int),
        ),
        frame(p).len() == 12 + p.len(),
{
    broadcast use crate::codec::lemma_be_bytes_len;

    reveal(first_frame);
    codec::lemma_pow256();
    let none = Seq::<u8>::empty();
    let s = frame(p) + rest;
    let n = p.len() as int;
    let crc = deps::crc32_of(p) as nat;
    let a = codec::be_bytes(p.len(), 8);
    let b = codec::be_bytes(crc, 4);
    assert(s =~= none + a + (p + b + rest));
    codec::lemma_be_at_appended(none, p.len(), 8, p + b + rest);
    assert(s =~= (a + p) + b + rest);
    codec::lemma_be_at_appended(a + p, crc, 4, rest);
    assert(s.subrange(8, 8 + n) =~= p);
}

/// The records that were written to a manifest's file are read back from it, in their order.
pub proof fn lemma_frames_round_trip(payloads: Seq<Seq<u8>>)
    requires
        forall|i: int|
            0 <= i < payloads.len() ==> (#[trigger] payloads[i]).len() < 0x1_0000_0000_0000_0000,
    ensures
        unframed(frames(payloads)) == Ok::<Seq<Seq<u8>>, LsmError>(payloads),
    decreases payloads.len(),
{
    if payloads.len() == 0 {
        assert(payloads =~= Seq::empty());
    } else {
        let p = payloads[0];
        let t = payloads.skip(1);
        let s = frames(payloads);
        lemma_first_frame(p, frames(t));
        assert forall|i: int| 0 <= i < t.len() implies (#[trigger] t[i]).len()
            < 0x1_0000_0000_0000_0000 by {
            assert(t[i] == payloads[i + 1]);
        }
        lemma_frames_round_trip(t);
        assert(s.skip(frame(p).len() as int) =~= frames(t));
        assert(seq![p] + t =~= payloads);
    }
}

/// How a record stands in the file: its length in eight bytes, the record, and its checksum in four.
pub proof fn lemma_frame(p: Seq<u8>)
    ensures
        frame(p).len() == 12 + p.len(),
        p.len() < 0x1_0000_0000_0000_0000 ==> codec::be_at(frame(p), 0, 8) == p.len(),
        frame(p).subrange(8, 8 + p.len() as int) == p,
        codec::be_at(frame(p), 8 + p.len() as int, 4) == deps::crc32_of(p),
{
    broadcast use crate::codec::lemma_be_bytes_len;

    let s = frame(p);
    let n = p.len() as int;
    let crc = deps::crc32_of(p) as nat;
    codec::lemma_pow256();
    assert(s.subrange(0, 8) =~= codec::be_bytes(p.len(), 8));
    if n < 0x1_0000_0000_0000_0000 {
        codec::lemma_be_round_trip(p.len(), 8);
    }
    assert(s.subrange(8, 8 + n) =~= p);
    assert(s.subrange(8 + n, 8 + n + 4) =~= codec::be_bytes(crc, 4));
    codec::lemma_be_round_trip(crc, 4);
}

/// A file that can be read is just the stored form of the records that are read; one that cannot is
/// the stored form of no records.
pub proof fn lemma_file_is_its_frames(s: Seq<u8>)
    ensures
        unframed(s) matches Ok(ps) ==> s == frames(ps),
        unframed(s) is Err ==> forall|ps: Seq<Seq<u8>>|
            (forall|i: int|
                0 <= i < ps.len() ==> (#[trigger] ps[i]).len() < 0x1_0000_0000_0000_0000) ==> s
                != #[trigger] frames(ps),
    decreases s.len(),
{
    if unframed(s) is Err {
        assert forall|ps: Seq<Seq<u8>>|
            (forall|i: int|
                0 <= i < ps.len() ==> (#[trigger] ps[i]).len()
                    < 0x1_0000_0000_0000_0000) implies s != #[trigger] frames(ps) by {
            lemma_frames_round_trip(ps);
        }
    } else if s.len() > 0 {
        let ps = unframed(s)->Ok_0;
        let (p, n) = first_frame(s)->Ok_0;
        let t = s.skip(n);
        lemma_file_is_its_frames(t);
        lemma_first_is_framed(s);
        assert(ps.skip(1) =~= unframed(t)->Ok_0);
        assert(s =~= s.take(n) + t);
    } else {
        assert(s =~= frames(Seq::empty()));
    }
}

proof fn lemma_first_is_framed(s: Seq<u8>)
    requires
        first_frame(s) is Ok,
    ensures
        ({
            let (p, n) = first_frame(s)->Ok_0;
            0 < n <= s.len() && s.take(n) == frame(p)
        }),
{
    reveal(first_frame);
    let n = codec::be_at(s, 0, 8) as int;
    let p = s.subrange(8, 8 + n);
    let a = s.subrange(0, 8);
    let c = s.subrange(8 + n, 8 + n + 4);
    codec::lemma_be_bytes_value(a);
    codec::lemma_be_bytes_value(c);
    assert(s.take(12 + n) =~= a + p + c);
}

/// Appends a record to the content of a manifest's file.
pub fn put_frame(buf: &mut Vec<u8>, payload: &[u8])
    ensures
        final(buf)@ == old(buf)@ + frame(payload@),
{
    codec::put_u64(buf, payload.len() as u64);
    codec::put_slice(buf, payload);
    let checksum = deps::crc32(payload);
    codec::put_u32(buf, checksum);
    assert(buf@ =~= old(buf)@ + frame(payload@));
}

pub open spec fn views(v: Seq<Vec<u8>>) -> Seq<Seq<u8>> {
    v.map_values(|x: Vec<u8>| x@)
}

/// Reads the records of a manifest's file.
pub fn get_frames(data: &[u8]) -> (r: Result<Vec<Vec<u8>>, LsmError>)
    ensures
        match r {
            Ok(ps) => unframed(data@) == Ok::<Seq<Seq<u8>>, LsmError>(views(ps@)),
            Err(e) => unframed(data@) == Err::<Seq<Seq<u8>>, LsmError>(e),
        },
{
    let total: usize = data.len();
    let mut out: Vec<Vec<u8>> = Vec::new();
    let mut pos: usize = 0;
    assert(data@.skip(0) =~= data@);
    assert(views(out@) =~= Seq::empty());
    proof {
        if unframed(data@) is Ok {
            assert(Seq::<Seq<u8>>::empty() + unframed(data@)->Ok_0 =~= unframed(data@)->Ok_0);
        }
    }
    while pos < total
        invariant
            pos <= total == data@.len(),
            match unframed(data@.skip(pos as int)) {
                Ok(ps) => unframed(data@) == Ok::<Seq<Seq<u8>>, LsmError>(views(out@) + ps),
                Err(e) => unframed(data@) == Err::<Seq<Seq<u8>>, LsmError>(e),
            },
        decreases total - pos,
    {
        let rest: &[u8] = vstd::slice::slice_subrange(data, pos, total);
        assert(rest@ =~= data@.skip(pos as int));
        match get_frame(rest) {
            Err(e) => {
                return Err(e);
            },
            Ok((p, n)) => {
                let ghost before = views(out@);
                out.push(p);
                proof {
                    assert(views(out@) =~= before.push(p@));
                    assert(rest@.skip(n as int) =~= data@.skip(pos + n));
                    if unframed(data@.skip(pos + n)) is Ok {
                        let ps = unframed(data@.skip(pos + n))->Ok_0;
                        assert(before + (seq![p@] + ps) =~= before.push(p@) + ps);
                    }
                }
                pos = pos + n;
            },
        }
    }
    assert(data@.skip(pos as int) =~= Seq::empty());
    assert(views(out@) + Seq::<Seq<u8>>::empty() =~= views(out@));
    Ok(out)
}

fn get_frame(s: &[u8]) -> (r: Result<(Vec<u8>, usize), LsmError>)
    ensures
        match r {
            Ok((p, n)) => first_frame(s@) == Ok::<(Seq<u8>, int), LsmError>((p@, n as int)) && 0 < n
                <= s@.len(),
            Err(e) => first_frame(s@) == Err::<(Seq<u8>, int), LsmError>(e),
        },
{
    proof {
        reveal(first_frame);
    }
    assert(s@.len() == s.len());
    if s.len() < 8 {
        return Err(LsmError::Truncated);
    }
    let len: u64 = codec::get_u64(s, 0);
    if (s.len() as u128) < 12 + len as u128 {
        return Err(LsmError::Truncated);
    }
    let n: usize = len as usize;
    let payload: &[u8] = vstd::slice::slice_subrange(s, 8, 8 + n);
    if deps::crc32(payload) != codec::get_u32(s, 8 + n) {
        return Err(LsmError::ChecksumMismatch);
    }
    Ok((vstd::slice::slice_to_vec(payload), 12 + n))
}

} // verus!
