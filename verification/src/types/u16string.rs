//! The wide string codec: a 32-bit length prefix counting UTF-16 code
//! units, followed by that many little-endian units.  Decoding fails when
//! the units are not well-formed UTF-16; encoding is lossless for any
//! valid text.

use crate::error::Error;
use crate::utf16::{
    lemma_utf16_encode_of_decode, utf16_decode, utf16_encode, utf16_is_valid, utf16_units_to_utf8,
    utf8_to_utf16_units, valid_utf16,
};
use crate::wire::{read_u16_le, read_u32_le, write_u16_le, write_u32_le};
use vstd::bytes::{
    lemma_auto_spec_u16_to_from_le_bytes, lemma_auto_spec_u32_to_from_le_bytes,
    spec_u16_from_le_bytes, spec_u16_to_le_bytes, spec_u32_from_le_bytes, spec_u32_to_le_bytes,
};
use vstd::prelude::*;
use vstd::utf8::{decode_utf8, encode_utf8, valid_utf8};

verus! {

/// A string stored as UTF-16 code units with a 32-bit length prefix.
pub struct U16String {
    units: Vec<u16>,
}

impl View for U16String {
    type V = Seq<u16>;

    closed spec fn view(&self) -> Seq<u16> {
        self.units@
    }
}

/// The `n` code units stored little-endian at `p` of `d`.
pub open spec fn spec_units_from(d: Seq<u8>, p: int, n: int) -> Seq<u16>
    decreases n,
{
    if n <= 0 {
        Seq::empty()
    } else {
        seq![spec_u16_from_le_bytes(d.subrange(p, p + 2))] + spec_units_from(d, p + 2, n - 1)
    }
}

/// The little-endian bytes of a sequence of code units.
pub open spec fn spec_units_bytes(u: Seq<u16>) -> Seq<u8>
    decreases u.len(),
{
    if u.len() == 0 {
        Seq::empty()
    } else {
        spec_u16_to_le_bytes(u[0]) + spec_units_bytes(u.skip(1))
    }
}

/// The serialized bytes of a wide string with code units `u`.
pub open spec fn spec_encode_wide(u: Seq<u16>) -> Seq<u8> {
    spec_u32_to_le_bytes(u.len() as u32) + spec_units_bytes(u)
}

/// Reads a wide string at `pos` of `d`: the code units and the position
/// after them, or the error the input forces.
pub open spec fn spec_parse_wide(d: Seq<u8>, pos: int) -> Result<(Seq<u16>, int), Error> {
    if pos + 4 > d.len() {
        Err(Error::UnexpectedEof)
    } else {
        let n = spec_u32_from_le_bytes(d.subrange(pos, pos + 4)) as int;
        if pos + 4 + 2 * n > d.len() {
            Err(Error::UnexpectedEof)
        } else {
            let u = spec_units_from(d, pos + 4, n);
            if !valid_utf16(u) {
                Err(Error::InvalidEncoding)
            } else {
                Ok((u, pos + 4 + 2 * n))
            }
        }
    }
}

/// `spec_units_from` yields `n` units whose bytes are the input range.
proof fn lemma_units_from_bytes(d: Seq<u8>, p: int, n: int)
    requires
        0 <= p,
        0 <= n,
        p + 2 * n <= d.len(),
    ensures
        spec_units_from(d, p, n).len() == n,
        spec_units_bytes(spec_units_from(d, p, n)) == d.subrange(p, p + 2 * n),
    decreases n,
{
    lemma_auto_spec_u16_to_from_le_bytes();
    let u = spec_units_from(d, p, n);
    if n == 0 {
        assert(spec_units_bytes(u) =~= d.subrange(p, p));
    } else {
        lemma_units_from_bytes(d, p + 2, n - 1);
        assert(u[0] == spec_u16_from_le_bytes(d.subrange(p, p + 2)));
        assert(u.skip(1) =~= spec_units_from(d, p + 2, n - 1));
        assert(spec_u16_to_le_bytes(u[0]) =~= d.subrange(p, p + 2));
        assert(spec_units_bytes(u) =~= d.subrange(p, p + 2 * n));
    }
}

/// A parsed wide string re-encodes to exactly the bytes it came from.
pub proof fn lemma_wide_roundtrip(d: Seq<u8>, pos: int)
    requires
        0 <= pos <= d.len(),
        spec_parse_wide(d, pos) is Ok,
    ensures
        ({
            let (u, end) = spec_parse_wide(d, pos)->Ok_0;
            &&& pos + 4 <= end <= d.len()
            &&& u.len() <= 0xffff_ffff
            &&& end == pos + 4 + 2 * u.len()
            &&& valid_utf16(u)
            &&& spec_encode_wide(u) == d.subrange(pos, end)
        }),
{
    lemma_auto_spec_u32_to_from_le_bytes();
    let n = spec_u32_from_le_bytes(d.subrange(pos, pos + 4)) as int;
    lemma_units_from_bytes(d, pos + 4, n);
    let (u, end) = spec_parse_wide(d, pos)->Ok_0;
    assert(spec_u32_to_le_bytes(u.len() as u32) =~= d.subrange(pos, pos + 4));
    assert(spec_encode_wide(u) =~= d.subrange(pos, end));
}

impl U16String {
    /// The units fit the 32-bit length prefix and are well-formed UTF-16.
    #[verifier::type_invariant]
    closed spec fn type_inv(self) -> bool {
        self.units@.len() <= 0xffff_ffff && valid_utf16(self.units@)
    }

    /// The serialized size: the 4-byte prefix plus two bytes per unit.
    pub open spec fn spec_size(&self) -> int {
        4 + 2 * (self@.len() as int)
    }

    /// The length of the string in UTF-16 code units.
    pub fn u16_len(&self) -> (r: usize)
        ensures
            r == self@.len(),
    {
        self.units.len()
    }

    /// The full serialized size: prefix plus code units.
    pub fn full_size(&self) -> (r: usize)
        requires
            4 + 2 * (self@.len() as int) <= usize::MAX,
        ensures
            r == self.spec_size(),
    {
        4 + 2 * self.units.len()
    }

    /// The code units.
    pub fn as_units(&self) -> (r: &Vec<u16>)
        ensures
            r@ == self@,
            valid_utf16(self@),
    {
        proof {
            use_type_invariant(self);
        }
        &self.units
    }

    /// Builds the string from the UTF-8 bytes of its text.  `None` when
    /// the bytes are not valid UTF-8 or the units would not fit the
    /// length prefix.
    pub fn from_text_bytes(bytes: &Vec<u8>) -> (r: Option<U16String>)
        ensures
            r is Some <==> (valid_utf8(bytes@) && utf16_encode(decode_utf8(bytes@)).len()
                <= 0xffff_ffff),
            r matches Some(s) ==> s@ == utf16_encode(decode_utf8(bytes@)),
    {
        match utf8_to_utf16_units(bytes) {
            Some(units) => {
                if units.len() <= 0xffff_ffff {
                    Some(U16String { units })
                } else {
                    None
                }
            },
            None => None,
        }
    }

    /// The UTF-8 bytes of the text.  Building a wide string back from
    /// them gives exactly the same code units.
    pub fn to_text_bytes(&self) -> (r: Vec<u8>)
        ensures
            r@ == encode_utf8(utf16_decode(self@)),
            valid_utf8(r@),
            utf16_encode(decode_utf8(r@)) == self@,
    {
        proof {
            use_type_invariant(self);
        }
        match utf16_units_to_utf8(&self.units) {
            Some(b) => b,
            None => {
                proof {
                    assert(false);
                }
                Vec::new()
            },
        }
    }

    /// Appends the serialized form to `out`.
    pub fn write(&self, out: &mut Vec<u8>)
        ensures
            final(out)@ == old(out)@ + spec_encode_wide(self@),
    {
        proof {
            use_type_invariant(self);
        }
        write_u32_le(out, self.units.len() as u32);
        let ghost base = out@;
        let mut i: usize = 0;
        proof {
            assert(self.units@.skip(0) =~= self.units@);
        }
        while i < self.units.len()
            invariant
                i <= self.units@.len(),
                base + spec_units_bytes(self.units@) == out@ + spec_units_bytes(
                    self.units@.skip(i as int),
                ),
            decreases self.units@.len() - i,
        {
            proof {
                let t = self.units@.skip(i as int);
                assert(t[0] == self.units@[i as int]);
                assert(t.skip(1) =~= self.units@.skip(i + 1));
            }
            write_u16_le(out, self.units[i]);
            i = i + 1;
        }
        proof {
            assert(self.units@.skip(i as int) =~= Seq::<u16>::empty());
            assert(final(out)@ =~= old(out)@ + spec_encode_wide(self@));
        }
    }
}

/// Reads one wide string from `data` at `pos`.
pub fn read_wide_string(data: &Vec<u8>, pos: usize) -> (r: Result<(U16String, usize), Error>)
    requires
        pos <= data@.len(),
    ensures
        match r {
            Ok((s, end)) => spec_parse_wide(data@, pos as int) == Ok::<_, Error>((s@, end as int))
                && pos < end <= data@.len(),
            Err(e) => spec_parse_wide(data@, pos as int) == Err::<(Seq<u16>, int), _>(e),
        },
{
    let n = data.len();
    if n - pos < 4 {
        return Err(Error::UnexpectedEof);
    }
    let count = read_u32_le(data, pos) as usize;
    let rem = n - (pos + 4);
    if count > rem / 2 {
        proof {
            assert(rem / 2 * 2 + 1 >= rem);
            assert(pos + 4 + 2 * count > data@.len());
        }
        return Err(Error::UnexpectedEof);
    }
    proof {
        assert(rem / 2 * 2 <= rem);
    }
    let mut units: Vec<u16> = Vec::new();
    let mut i: usize = 0;
    while i < count
        invariant
            i <= count,
            n == data@.len(),
            pos + 4 + 2 * count <= n,
            units@ == spec_units_from(data@, pos + 4, i as int),
            units@.len() == i,
        decreases count - i,
    {
        proof {
            lemma_units_prefix(data@, pos + 4, i as int);
        }
        let u = read_u16_le(data, pos + 4 + 2 * i);
        units.push(u);
        i = i + 1;
    }
    if !utf16_is_valid(&units) {
        return Err(Error::InvalidEncoding);
    }
    Ok((U16String { units }, pos + 4 + 2 * count))
}

/// Appending the unit at position `n` extends the unit prefix by one.
proof fn lemma_units_prefix(d: Seq<u8>, p: int, n: int)
    requires
        0 <= p,
        0 <= n,
        p + 2 * (n + 1) <= d.len(),
    ensures
        spec_units_from(d, p, n + 1) == spec_units_from(d, p, n) + seq![
            spec_u16_from_le_bytes(d.subrange(p + 2 * n, p + 2 * n + 2)),
        ],
    decreases n,
{
    if n == 0 {
        assert(spec_units_from(d, p + 2, 0) =~= Seq::<u16>::empty());
        assert(spec_units_from(d, p, 0) =~= Seq::<u16>::empty());
        assert(spec_units_from(d, p, 1) =~= spec_units_from(d, p, 0) + seq![
            spec_u16_from_le_bytes(d.subrange(p, p + 2)),
        ]);
    } else {
        lemma_units_prefix(d, p + 2, n - 1);
        assert(spec_units_from(d, p, n + 1) =~= spec_units_from(d, p, n) + seq![
            spec_u16_from_le_bytes(d.subrange(p + 2 * n, p + 2 * n + 2)),
        ]);
    }
}

} // verus!
