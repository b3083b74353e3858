//! The self-describing record stream of a container file.
//!
//! A container is a concatenation of records `{magic: u64, size: u32,
//! payload: size bytes}`, little-endian, until end of stream.  This layer
//! splits a byte buffer into raw records and reassembles it; what a
//! payload means is decided per game by the magic number.  The size field
//! is transient: on write it is always recomputed from the payload's
//! actual length, never taken from the input.

use crate::error::Error;
use crate::wire::{copy_bytes, read_u32_le, read_u64_le, take_bytes, write_u32_le, write_u64_le};
use vstd::bytes::{
    lemma_auto_spec_u32_to_from_le_bytes, lemma_auto_spec_u64_to_from_le_bytes,
    spec_u32_from_le_bytes, spec_u32_to_le_bytes, spec_u64_from_le_bytes, spec_u64_to_le_bytes,
};
use vstd::prelude::*;

verus! {

/// An object that can state its own on-disk payload size.
pub trait RuntimeSize {
    /// The sizes inside the object fit their on-disk fields.
    spec fn size_wf(&self) -> bool;

    /// The exact serialized payload length in bytes.
    spec fn spec_size(&self) -> int;

    /// Computes the serialized payload length.
    fn rt_size(&self) -> (r: u32)
        requires
            self.size_wf(),
        ensures
            r == self.spec_size(),
    ;
}

/// One record of the stream, with its payload still uninterpreted.
pub struct RawRecord {
    pub magic: u64,
    pub payload: Vec<u8>,
}

impl View for RawRecord {
    type V = (u64, Seq<u8>);

    open spec fn view(&self) -> (u64, Seq<u8>) {
        (self.magic, self.payload@)
    }
}

/// A record's payload length fits the 32-bit size field.
pub open spec fn record_wf(r: (u64, Seq<u8>)) -> bool {
    r.1.len() <= 0xffff_ffff
}

/// Every record's payload length fits its size field.
pub open spec fn records_wf(rs: Seq<(u64, Seq<u8>)>) -> bool {
    forall|i: int| 0 <= i < rs.len() ==> record_wf(#[trigger] rs[i])
}

/// The bytes of one record: magic, recomputed size, payload.
pub open spec fn spec_encode_record(r: (u64, Seq<u8>)) -> Seq<u8> {
    spec_u64_to_le_bytes(r.0) + spec_u32_to_le_bytes(r.1.len() as u32) + r.1
}

/// The bytes of a record stream.
pub open spec fn spec_encode_records(rs: Seq<(u64, Seq<u8>)>) -> Seq<u8>
    decreases rs.len(),
{
    if rs.len() == 0 {
        Seq::empty()
    } else {
        spec_encode_record(rs[0]) + spec_encode_records(rs.skip(1))
    }
}

/// Splits `d[pos..]` into records.  End of stream at a record boundary
/// ends the stream; anything shorter than a full header or payload is a
/// structural failure.
pub open spec fn spec_parse_records(d: Seq<u8>, pos: int) -> Result<Seq<(u64, Seq<u8>)>, Error>
    decreases d.len() - pos,
    when 0 <= pos <= d.len()
{
    if pos == d.len() {
        Ok(Seq::empty())
    } else if pos + 12 > d.len() {
        Err(Error::UnexpectedEof)
    } else {
        let magic = spec_u64_from_le_bytes(d.subrange(pos, pos + 8));
        let size = spec_u32_from_le_bytes(d.subrange(pos + 8, pos + 12)) as int;
        if pos + 12 + size > d.len() {
            Err(Error::UnexpectedEof)
        } else {
            match spec_parse_records(d, pos + 12 + size) {
                Ok(rest) => Ok(
                    seq![(magic, d.subrange(pos + 12, pos + 12 + size))] + rest,
                ),
                Err(e) => Err(e),
            }
        }
    }
}

/// Parsed records re-encode to exactly the bytes they came from.
pub proof fn lemma_records_roundtrip(d: Seq<u8>, pos: int)
    requires
        0 <= pos <= d.len(),
        spec_parse_records(d, pos) is Ok,
    ensures
        records_wf(spec_parse_records(d, pos)->Ok_0),
        spec_encode_records(spec_parse_records(d, pos)->Ok_0) == d.subrange(pos, d.len() as int),
    decreases d.len() - pos,
{
    lemma_auto_spec_u32_to_from_le_bytes();
    lemma_auto_spec_u64_to_from_le_bytes();
    let rs = spec_parse_records(d, pos)->Ok_0;
    if pos == d.len() {
        assert(spec_encode_records(rs) =~= d.subrange(pos, d.len() as int));
    } else {
        let magic = spec_u64_from_le_bytes(d.subrange(pos, pos + 8));
        let size = spec_u32_from_le_bytes(d.subrange(pos + 8, pos + 12)) as int;
        let payload = d.subrange(pos + 12, pos + 12 + size);
        lemma_records_roundtrip(d, pos + 12 + size);
        let rest = spec_parse_records(d, pos + 12 + size)->Ok_0;
        assert(rs == seq![(magic, payload)] + rest);
        assert(rs[0] == (magic, payload));
        assert(rs.skip(1) =~= rest);
        assert(payload.len() == size);
        assert(spec_encode_record((magic, payload)) == spec_u64_to_le_bytes(magic)
            + spec_u32_to_le_bytes(size as u32) + payload);
        assert(spec_u64_to_le_bytes(magic) =~= d.subrange(pos, pos + 8));
        assert(spec_u32_to_le_bytes(size as u32) =~= d.subrange(pos + 8, pos + 12));
        assert(spec_encode_records(rs) =~= d.subrange(pos, d.len() as int));
    }
}

/// Unfolds one step of `spec_parse_records` at `pos`.
proof fn lemma_parse_records_step(d: Seq<u8>, pos: int)
    requires
        0 <= pos <= d.len(),
    ensures
        pos == d.len() ==> spec_parse_records(d, pos) == Ok::<_, Error>(
            Seq::<(u64, Seq<u8>)>::empty(),
        ),
        pos < d.len() && pos + 12 > d.len() ==> spec_parse_records(d, pos) == Err::<
            Seq<(u64, Seq<u8>)>,
            _,
        >(Error::UnexpectedEof),
{
}

/// The views of a vector of raw records.
pub open spec fn record_views(v: Seq<RawRecord>) -> Seq<(u64, Seq<u8>)> {
    v.map_values(|r: RawRecord| r@)
}

/// Splits a whole buffer into raw records.
pub fn parse_records(data: &Vec<u8>) -> (r: Result<Vec<RawRecord>, Error>)
    ensures
        match r {
            Ok(v) => spec_parse_records(data@, 0) == Ok::<_, Error>(record_views(v@)),
            Err(e) => spec_parse_records(data@, 0) == Err::<Seq<(u64, Seq<u8>)>, _>(e),
        },
{
    let n = data.len();
    let mut out: Vec<RawRecord> = Vec::new();
    let mut pos: usize = 0;
    while pos < n
        invariant
            pos <= n == data@.len(),
            match spec_parse_records(data@, pos as int) {
                Ok(rest) => spec_parse_records(data@, 0) == Ok::<_, Error>(
                    record_views(out@) + rest,
                ),
                Err(e) => spec_parse_records(data@, 0) == Err::<Seq<(u64, Seq<u8>)>, _>(e),
            },
        decreases n - pos,
    {
        if n - pos < 12 {
            return Err(Error::UnexpectedEof);
        }
        let magic = read_u64_le(data, pos);
        let size = read_u32_le(data, pos + 8) as usize;
        if size > n - (pos + 12) {
            return Err(Error::UnexpectedEof);
        }
        let payload = take_bytes(data, pos + 12, size);
        let ghost old_views = record_views(out@);
        out.push(RawRecord { magic, payload });
        proof {
            assert(record_views(out@) =~= old_views + seq![(magic, payload@)]);
            let rest0 = spec_parse_records(data@, pos + 12 + size);
            if rest0 is Ok {
                assert(old_views + (seq![(magic, payload@)] + rest0->Ok_0) =~= record_views(out@)
                    + rest0->Ok_0);
            }
        }
        pos = pos + 12 + size;
    }
    proof {
        assert(spec_parse_records(data@, pos as int) == Ok::<_, Error>(
            Seq::<(u64, Seq<u8>)>::empty(),
        ));
        assert(record_views(out@) + Seq::<(u64, Seq<u8>)>::empty() =~= record_views(out@));
    }
    Ok(out)
}

/// Unfolds one step of `spec_encode_records`.
proof fn lemma_encode_records_step(rs: Seq<(u64, Seq<u8>)>, i: int)
    requires
        0 <= i <= rs.len(),
    ensures
        i < rs.len() ==> spec_encode_records(rs.skip(i)) == spec_encode_record(rs[i])
            + spec_encode_records(rs.skip(i + 1)),
        i == rs.len() ==> spec_encode_records(rs.skip(i)) == Seq::<u8>::empty(),
{
    let t = rs.skip(i);
    if i < rs.len() {
        assert(t[0] == rs[i]);
        assert(t.skip(1) =~= rs.skip(i + 1));
    }
}

/// Writes a record stream, recomputing each size field from the payload.
pub fn encode_records(records: &Vec<RawRecord>) -> (r: Vec<u8>)
    requires
        records_wf(record_views(records@)),
    ensures
        r@ == spec_encode_records(record_views(records@)),
{
    let ghost rsv = record_views(records@);
    let mut out: Vec<u8> = Vec::new();
    let mut i: usize = 0;
    proof {
        assert(rsv.skip(0) =~= rsv);
    }
    while i < records.len()
        invariant
            i <= records@.len(),
            rsv == record_views(records@),
            records_wf(rsv),
            spec_encode_records(rsv) == out@ + spec_encode_records(rsv.skip(i as int)),
        decreases records@.len() - i,
    {
        proof {
            lemma_encode_records_step(rsv, i as int);
            assert(rsv[i as int] == records@[i as int]@);
            assert(record_wf(rsv[i as int]));
        }
        let rec = &records[i];
        write_u64_le(&mut out, rec.magic);
        write_u32_le(&mut out, rec.payload.len() as u32);
        copy_bytes(&mut out, &rec.payload, 0, rec.payload.len());
        proof {
            assert(rec.payload@.subrange(0, rec.payload@.len() as int) =~= rec.payload@);
            assert(spec_encode_records(rsv) =~= out@ + spec_encode_records(rsv.skip(i + 1)));
        }
        i = i + 1;
    }
    proof {
        assert(rsv.skip(i as int) =~= Seq::<(u64, Seq<u8>)>::empty());
        assert(out@ =~= spec_encode_records(rsv));
    }
    out
}

} // verus!
