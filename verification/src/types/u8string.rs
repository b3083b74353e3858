//! The narrow string codec: a 16-bit length prefix followed by that many
//! UTF-8 bytes.  An empty string still writes its zero-length prefix.

use crate::error::Error;
use crate::utf16::utf8_check;
use crate::wire::{copy_bytes, read_u16_le, take_bytes, write_u16_le};
use vstd::bytes::{
    lemma_auto_spec_u16_to_from_le_bytes, spec_u16_from_le_bytes, spec_u16_to_le_bytes,
};
use vstd::prelude::*;
use vstd::utf8::valid_utf8;

verus! {

/// A string stored as UTF-8 bytes with a 16-bit length prefix.
pub struct U8String {
    bytes: Vec<u8>,
}

impl View for U8String {
    type V = Seq<u8>;

    closed spec fn view(&self) -> Seq<u8> {
        self.bytes@
    }
}

/// The serialized bytes of a narrow string with content `s`.
pub open spec fn spec_encode_narrow(s: Seq<u8>) -> Seq<u8> {
    spec_u16_to_le_bytes(s.len() as u16) + s
}

/// Reads a narrow string at `pos` of `d`: the content and the position
/// after it, or the error the input forces.
pub open spec fn spec_parse_narrow(d: Seq<u8>, pos: int) -> Result<(Seq<u8>, int), Error> {
    if pos + 2 > d.len() {
        Err(Error::UnexpectedEof)
    } else {
        let n = spec_u16_from_le_bytes(d.subrange(pos, pos + 2)) as int;
        if pos + 2 + n > d.len() {
            Err(Error::UnexpectedEof)
        } else if !valid_utf8(d.subrange(pos + 2, pos + 2 + n)) {
            Err(Error::InvalidEncoding)
        } else {
            Ok((d.subrange(pos + 2, pos + 2 + n), pos + 2 + n))
        }
    }
}

/// A parsed narrow string re-encodes to exactly the bytes it came from.
pub proof fn lemma_narrow_roundtrip(d: Seq<u8>, pos: int)
    requires
        0 <= pos <= d.len(),
        spec_parse_narrow(d, pos) is Ok,
    ensures
        ({
            let (s, end) = spec_parse_narrow(d, pos)->Ok_0;
            &&& pos + 2 <= end <= d.len()
            &&& s.len() == end - pos - 2 <= 0xffff
            &&& valid_utf8(s)
            &&& spec_encode_narrow(s) == d.subrange(pos, end)
        }),
{
    lemma_auto_spec_u16_to_from_le_bytes();
    let (s, end) = spec_parse_narrow(d, pos)->Ok_0;
    assert(spec_u16_to_le_bytes(s.len() as u16) =~= d.subrange(pos, pos + 2));
    assert(spec_encode_narrow(s) =~= d.subrange(pos, end));
}

impl U8String {
    /// The content fits the 16-bit length prefix.
    #[verifier::type_invariant]
    closed spec fn type_inv(self) -> bool {
        self.bytes@.len() <= 0xffff
    }

    /// The serialized size: the 2-byte prefix plus the content bytes.
    pub open spec fn spec_size(&self) -> int {
        2 + (self@.len() as int)
    }

    /// Wraps UTF-8 text bytes; `None` when they do not fit the prefix.
    pub fn from_bytes(bytes: Vec<u8>) -> (r: Option<U8String>)
        ensures
            r is Some <==> bytes@.len() <= 0xffff,
            r matches Some(s) ==> s@ == bytes@,
    {
        if bytes.len() <= 0xffff {
            Some(U8String { bytes })
        } else {
            None
        }
    }

    /// The content bytes.
    pub fn as_bytes(&self) -> (r: &Vec<u8>)
        ensures
            r@ == self@,
    {
        &self.bytes
    }

    /// A copy of the content bytes.
    pub fn to_bytes(&self) -> (r: Vec<u8>)
        ensures
            r@ == self@,
    {
        take_bytes(&self.bytes, 0, self.bytes.len())
    }

    /// The full size of the underlying buffer: prefix plus content.
    pub fn full_size(&self) -> (r: usize)
        ensures
            r == self.spec_size(),
    {
        proof {
            use_type_invariant(self);
        }
        2 + self.bytes.len()
    }

    /// Appends the serialized form to `out`.
    pub fn write(&self, out: &mut Vec<u8>)
        ensures
            final(out)@ == old(out)@ + spec_encode_narrow(self@),
    {
        proof {
            use_type_invariant(self);
        }
        write_u16_le(out, self.bytes.len() as u16);
        copy_bytes(out, &self.bytes, 0, self.bytes.len());
        proof {
            assert(self.bytes@.subrange(0, self.bytes@.len() as int) =~= self.bytes@);
            assert(final(out)@ =~= old(out)@ + spec_encode_narrow(self@));
        }
    }
}

/// Reads one narrow string from `data` at `pos`.
pub fn read_narrow_string(data: &Vec<u8>, pos: usize) -> (r: Result<(U8String, usize), Error>)
    requires
        pos <= data@.len(),
    ensures
        match r {
            Ok((s, end)) => spec_parse_narrow(data@, pos as int) == Ok::<_, Error>(
                (s@, end as int),
            ) && pos < end <= data@.len(),
            Err(e) => spec_parse_narrow(data@, pos as int) == Err::<(Seq<u8>, int), _>(e),
        },
{
    let n = data.len();
    if n - pos < 2 {
        return Err(Error::UnexpectedEof);
    }
    let len = read_u16_le(data, pos) as usize;
    if len > n - (pos + 2) {
        return Err(Error::UnexpectedEof);
    }
    let bytes = take_bytes(data, pos + 2, len);
    if !utf8_check(&bytes) {
        return Err(Error::InvalidEncoding);
    }
    Ok((U8String { bytes }, pos + 2 + len))
}

} // verus!
