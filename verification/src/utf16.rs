//! UTF-16 code units: the wide string encoding of the container format.
//!
//! Wide strings are stored on disk as a sequence of 16-bit code units.
//! The spec functions here define well-formed UTF-16 (no stray surrogate
//! halves) and its correspondence with the character sequence; they mirror
//! the UTF-16 scheme exactly: a scalar below `0x10000` is one unit, any
//! other scalar is a high/low surrogate pair.  Conversion between code
//! units and UTF-8 text goes through `std`'s own converters, trusted
//! against these definitions and vstd's UTF-8 definitions.

use vstd::prelude::*;
use vstd::slice::slice_to_vec;
use vstd::utf8::{char_is_scalar, char_u32_cast, decode_utf8, encode_utf8, is_scalar, valid_utf8};

verus! {

/// True for the first unit of a surrogate pair.
pub open spec fn is_high_surrogate(u: u16) -> bool {
    0xd800 <= u <= 0xdbff
}

/// True for the second unit of a surrogate pair.
pub open spec fn is_low_surrogate(u: u16) -> bool {
    0xdc00 <= u <= 0xdfff
}

/// Well-formed UTF-16: every high surrogate is followed by a low one, and
/// no low surrogate stands alone.
pub open spec fn valid_utf16(units: Seq<u16>) -> bool
    decreases units.len(),
{
    if units.len() == 0 {
        true
    } else if is_high_surrogate(units[0]) {
        units.len() >= 2 && is_low_surrogate(units[1]) && valid_utf16(units.skip(2))
    } else {
        !is_low_surrogate(units[0]) && valid_utf16(units.skip(1))
    }
}

/// The scalar value encoded by a surrogate pair.
pub open spec fn combine_surrogates(h: u16, l: u16) -> u32
    recommends
        is_high_surrogate(h),
        is_low_surrogate(l),
{
    (0x10000 + (h - 0xd800) * 0x400 + (l - 0xdc00)) as u32
}

/// The character sequence encoded by well-formed UTF-16 code units.
pub open spec fn utf16_decode(units: Seq<u16>) -> Seq<char>
    recommends
        valid_utf16(units),
    decreases units.len(),
{
    if units.len() == 0 {
        Seq::empty()
    } else if is_high_surrogate(units[0]) && units.len() >= 2 && is_low_surrogate(units[1]) {
        seq![combine_surrogates(units[0], units[1]) as char] + utf16_decode(units.skip(2))
    } else {
        seq![(units[0] as u32) as char] + utf16_decode(units.skip(1))
    }
}

/// The UTF-16 encoding of one character.
pub open spec fn char_utf16(c: char) -> Seq<u16> {
    let v = c as u32;
    if v < 0x10000 {
        seq![v as u16]
    } else {
        seq![(0xd800 + (v - 0x10000) / 0x400) as u16, (0xdc00 + (v - 0x10000) % 0x400) as u16]
    }
}

/// The UTF-16 encoding of a character sequence.
pub open spec fn utf16_encode(chars: Seq<char>) -> Seq<u16>
    decreases chars.len(),
{
    if chars.len() == 0 {
        Seq::empty()
    } else {
        char_utf16(chars[0]) + utf16_encode(chars.skip(1))
    }
}

/// The encoding of one character is well-formed on its own: either a
/// single non-surrogate unit or a full surrogate pair.
proof fn lemma_char_utf16_shape(c: char)
    ensures
        char_utf16(c).len() == 1 ==> !is_high_surrogate(char_utf16(c)[0]) && !is_low_surrogate(
            char_utf16(c)[0],
        ),
        char_utf16(c).len() == 2 ==> is_high_surrogate(char_utf16(c)[0]) && is_low_surrogate(
            char_utf16(c)[1],
        ),
        char_utf16(c).len() == 1 || char_utf16(c).len() == 2,
{
    char_is_scalar(c);
    let v = c as u32;
    if v < 0x10000 {
        assert(!(0xd800 <= v <= 0xdfff));
    } else {
        assert(0x10000 <= v <= 0x10ffff);
        assert(0 <= (v - 0x10000) / 0x400 < 0x400) by (nonlinear_arith)
            requires
                0x10000 <= v <= 0x10ffff,
        ;
        assert(0 <= (v - 0x10000) % 0x400 < 0x400) by (nonlinear_arith);
    }
}

/// The encoding of a character sequence is well-formed UTF-16.
pub proof fn lemma_utf16_encode_valid(chars: Seq<char>)
    ensures
        valid_utf16(utf16_encode(chars)),
    decreases chars.len(),
{
    if chars.len() == 0 {
    } else {
        let u = utf16_encode(chars);
        let piece = char_utf16(chars[0]);
        let rest = utf16_encode(chars.skip(1));
        lemma_char_utf16_shape(chars[0]);
        lemma_utf16_encode_valid(chars.skip(1));
        if piece.len() == 1 {
            assert(u[0] == piece[0]);
            assert(u.skip(1) =~= rest);
        } else {
            assert(u[0] == piece[0] && u[1] == piece[1]);
            assert(u.skip(2) =~= rest);
        }
    }
}

/// Re-encoding the characters of well-formed UTF-16 gives back exactly the
/// original code units.
pub proof fn lemma_utf16_encode_of_decode(units: Seq<u16>)
    requires
        valid_utf16(units),
    ensures
        utf16_encode(utf16_decode(units)) == units,
    decreases units.len(),
{
    if units.len() == 0 {
        assert(utf16_encode(utf16_decode(units)) =~= units);
    } else if is_high_surrogate(units[0]) {
        let h = units[0];
        let l = units[1];
        let v = combine_surrogates(h, l);
        assert(0x10000 <= v <= 0x10ffff);
        assert(is_scalar(v));
        let c = v as char;
        assert(c as u32 == v) by {
            char_u32_cast(c, v);
        }
        let chars = utf16_decode(units);
        assert(chars == seq![c] + utf16_decode(units.skip(2)));
        assert(chars[0] == c);
        assert(chars.skip(1) =~= utf16_decode(units.skip(2)));
        lemma_utf16_encode_of_decode(units.skip(2));
        assert((v - 0x10000) / 0x400 == h - 0xd800 && (v - 0x10000) % 0x400 == l - 0xdc00)
            by (nonlinear_arith)
            requires
                0xd800 <= h <= 0xdbff,
                0xdc00 <= l <= 0xdfff,
                v == 0x10000 + (h - 0xd800) * 0x400 + (l - 0xdc00),
        ;
        assert(char_utf16(c) =~= seq![h, l]);
        assert(utf16_encode(chars) =~= units);
    } else {
        let u0 = units[0];
        let v = u0 as u32;
        assert(is_scalar(v));
        let c = v as char;
        assert(c as u32 == v) by {
            char_u32_cast(c, v);
        }
        let chars = utf16_decode(units);
        assert(chars == seq![c] + utf16_decode(units.skip(1)));
        assert(chars[0] == c);
        assert(chars.skip(1) =~= utf16_decode(units.skip(1)));
        lemma_utf16_encode_of_decode(units.skip(1));
        assert(char_utf16(c) =~= seq![u0]);
        assert(utf16_encode(chars) =~= units);
    }
}

/// Unfolds `valid_utf16` at position `i`.
proof fn lemma_valid_utf16_step(units: Seq<u16>, i: int)
    requires
        0 <= i <= units.len(),
    ensures
        i == units.len() ==> valid_utf16(units.skip(i)),
        i < units.len() && is_high_surrogate(units[i]) ==> (valid_utf16(units.skip(i)) <==> (i + 1
            < units.len() && is_low_surrogate(units[i + 1]) && valid_utf16(units.skip(i + 2)))),
        i < units.len() && !is_high_surrogate(units[i]) ==> (valid_utf16(units.skip(i))
            <==> (!is_low_surrogate(units[i]) && valid_utf16(units.skip(i + 1)))),
{
    let t = units.skip(i);
    if i < units.len() {
        assert(t[0] == units[i]);
        if t.len() >= 2 {
            assert(t[1] == units[i + 1]);
        }
        assert(t.skip(1) =~= units.skip(i + 1));
        if i + 2 <= units.len() {
            assert(t.skip(2) =~= units.skip(i + 2));
        }
    }
}

/// Decides whether `units` is well-formed UTF-16.
pub fn utf16_is_valid(units: &Vec<u16>) -> (r: bool)
    ensures
        r == valid_utf16(units@),
{
    let n = units.len();
    let mut i: usize = 0;
    proof {
        assert(units@.skip(0) =~= units@);
    }
    while i < n
        invariant
            i <= n == units@.len(),
            valid_utf16(units@) <==> valid_utf16(units@.skip(i as int)),
        decreases n - i,
    {
        proof {
            lemma_valid_utf16_step(units@, i as int);
        }
        let u = units[i];
        if u >= 0xd800 && u <= 0xdbff {
            if i + 1 < n {
                let l = units[i + 1];
                if l >= 0xdc00 && l <= 0xdfff {
                    i = i + 2;
                } else {
                    return false;
                }
            } else {
                return false;
            }
        } else if u >= 0xdc00 && u <= 0xdfff {
            return false;
        } else {
            i = i + 1;
        }
    }
    true
}

/// Relies on `String::from_utf8`: it succeeds exactly on valid UTF-8 (as
/// vstd's `valid_utf8` defines it) and yields the decoded text.
#[verifier::external_body]
fn string_from_utf8_bytes(bytes: &Vec<u8>) -> (r: Option<String>)
    ensures
        r is Some <==> valid_utf8(bytes@),
        r matches Some(s) ==> s@ == decode_utf8(bytes@),
{
    String::from_utf8(bytes.clone()).ok()
}

/// Relies on `String::from_utf16`: it succeeds exactly on well-formed
/// UTF-16 (every surrogate a proper pair) and yields the decoded text.
#[verifier::external_body]
fn string_from_utf16_units(units: &Vec<u16>) -> (r: Option<String>)
    ensures
        r is Some <==> valid_utf16(units@),
        r matches Some(s) ==> s@ == utf16_decode(units@),
{
    String::from_utf16(units.as_slice()).ok()
}

/// Relies on `str::encode_utf16`: the UTF-16 code units of the text, one
/// unit per scalar below `0x10000`, a surrogate pair for the rest.
#[verifier::external_body]
fn str_to_utf16_units(s: &str) -> (r: Vec<u16>)
    ensures
        r@ == utf16_encode(s@),
{
    s.encode_utf16().collect()
}

/// Decides whether `bytes` is valid UTF-8.
pub fn utf8_check(bytes: &Vec<u8>) -> (r: bool)
    ensures
        r == valid_utf8(bytes@),
{
    string_from_utf8_bytes(bytes).is_some()
}

/// Converts well-formed UTF-16 code units to the UTF-8 bytes of the same
/// text; `None` exactly on ill-formed input.
pub fn utf16_units_to_utf8(units: &Vec<u16>) -> (r: Option<Vec<u8>>)
    ensures
        r is Some <==> valid_utf16(units@),
        r matches Some(b) ==> b@ == encode_utf8(utf16_decode(units@)) && valid_utf8(b@)
            && decode_utf8(b@) == utf16_decode(units@) && utf16_encode(decode_utf8(b@)) == units@,
{
    match string_from_utf16_units(units) {
        Some(s) => {
            let b = slice_to_vec(s.as_str().as_bytes());
            proof {
                vstd::utf8::encode_utf8_valid_utf8(s@);
                vstd::utf8::encode_utf8_decode_utf8(s@);
                lemma_utf16_encode_of_decode(units@);
            }
            Some(b)
        },
        None => None,
    }
}

/// Converts UTF-8 bytes to the UTF-16 code units of the same text; `None`
/// exactly on input that is not valid UTF-8.
pub fn utf8_to_utf16_units(bytes: &Vec<u8>) -> (r: Option<Vec<u16>>)
    ensures
        r is Some <==> valid_utf8(bytes@),
        r matches Some(u) ==> u@ == utf16_encode(decode_utf8(bytes@)) && valid_utf16(u@),
{
    match string_from_utf8_bytes(bytes) {
        Some(s) => {
            let u = str_to_utf16_units(s.as_str());
            proof {
                lemma_utf16_encode_valid(s@);
            }
            Some(u)
        },
        None => None,
    }
}

} // verus!
