//! End-of-line token substitution for the line-list interchange format.
//!
//! A logical string may contain embedded line breaks, but the line-list
//! format gives each string exactly one physical line.  Before writing,
//! `\n`, `\r` and `\r\n` are replaced by the literal tokens `<lf>`, `<cr>`
//! and `<cf>`; reading performs the exact inverse substitution.  Text is
//! handled as UTF-8 bytes: the bytes replaced and inserted are all ASCII,
//! which no multi-byte UTF-8 sequence can contain.

use vstd::prelude::*;

verus! {

pub const BYTE_CR: u8 = 0x0d;

pub const BYTE_LF: u8 = 0x0a;

pub const BYTE_LT: u8 = 0x3c;

pub const BYTE_GT: u8 = 0x3e;

pub const BYTE_C: u8 = 0x63;

pub const BYTE_F: u8 = 0x66;

pub const BYTE_L: u8 = 0x6c;

pub const BYTE_R: u8 = 0x72;

/// The token written for `\r\n`: the bytes of `<cf>`.
pub open spec fn token_cf() -> Seq<u8> {
    seq![BYTE_LT, BYTE_C, BYTE_F, BYTE_GT]
}

/// The token written for `\n`: the bytes of `<lf>`.
pub open spec fn token_lf() -> Seq<u8> {
    seq![BYTE_LT, BYTE_L, BYTE_F, BYTE_GT]
}

/// The token written for `\r`: the bytes of `<cr>`.
pub open spec fn token_cr() -> Seq<u8> {
    seq![BYTE_LT, BYTE_C, BYTE_R, BYTE_GT]
}

/// True when `a`, `b`, `c` are the last three bytes of one of the three tokens.
pub open spec fn is_token_tail(a: u8, b: u8, c: u8) -> bool {
    ||| (a == BYTE_C && b == BYTE_F && c == BYTE_GT)
    ||| (a == BYTE_L && b == BYTE_F && c == BYTE_GT)
    ||| (a == BYTE_C && b == BYTE_R && c == BYTE_GT)
}

/// True when one of the three tokens occurs in `s` starting at index `i`.
pub open spec fn token_at(s: Seq<u8>, i: int) -> bool {
    &&& 0 <= i
    &&& i + 4 <= s.len()
    &&& s[i] == BYTE_LT
    &&& is_token_tail(s[i + 1], s[i + 2], s[i + 3])
}

/// True when `s` contains one of the three literal tokens.
pub open spec fn has_token(s: Seq<u8>) -> bool {
    exists|i: int| token_at(s, i)
}

/// The escaped form of `s`: every `\r\n`, `\r`, `\n` replaced by its token.
pub open spec fn spec_escape(s: Seq<u8>) -> Seq<u8>
    decreases s.len(),
{
    if s.len() == 0 {
        Seq::empty()
    } else if s[0] == BYTE_CR && s.len() >= 2 && s[1] == BYTE_LF {
        token_cf() + spec_escape(s.skip(2))
    } else if s[0] == BYTE_CR {
        token_cr() + spec_escape(s.skip(1))
    } else if s[0] == BYTE_LF {
        token_lf() + spec_escape(s.skip(1))
    } else {
        seq![s[0]] + spec_escape(s.skip(1))
    }
}

/// The unescaped form of `s`: every token replaced by the bytes it stands
/// for; a `<` that does not open a token is kept literally.
pub open spec fn spec_unescape(s: Seq<u8>) -> Seq<u8>
    decreases s.len(),
{
    if s.len() == 0 {
        Seq::empty()
    } else if s[0] == BYTE_LT && s.len() >= 4 && is_token_tail(s[1], s[2], s[3]) {
        (if s[2] == BYTE_F && s[1] == BYTE_C {
            seq![BYTE_CR, BYTE_LF]
        } else if s[1] == BYTE_L {
            seq![BYTE_LF]
        } else {
            seq![BYTE_CR]
        }) + spec_unescape(s.skip(4))
    } else {
        seq![s[0]] + spec_unescape(s.skip(1))
    }
}

/// A token in a suffix of `s` is a token in `s`.
proof fn lemma_token_in_skip(s: Seq<u8>, k: int, i: int)
    requires
        0 <= k <= s.len(),
        token_at(s.skip(k), i),
    ensures
        token_at(s, i + k),
{
    assert(s.skip(k)[i] == s[i + k]);
    assert(s.skip(k)[i + 1] == s[i + k + 1]);
    assert(s.skip(k)[i + 2] == s[i + k + 2]);
    assert(s.skip(k)[i + 3] == s[i + k + 3]);
}

/// Token freedom passes from `s` to every suffix of `s`.
proof fn lemma_no_token_skip(s: Seq<u8>, k: int)
    requires
        0 <= k <= s.len(),
        !has_token(s),
    ensures
        !has_token(s.skip(k)),
{
    if has_token(s.skip(k)) {
        let i = choose|i: int| token_at(s.skip(k), i);
        lemma_token_in_skip(s, k, i);
    }
}

/// Escaping never produces a bare line-break byte: each string maps to
/// exactly one physical line of the output file.
pub proof fn lemma_escape_no_line_breaks(s: Seq<u8>)
    ensures
        forall|j: int|
            0 <= j < spec_escape(s).len() ==> spec_escape(s)[j] != BYTE_CR && spec_escape(s)[j]
                != BYTE_LF,
    decreases s.len(),
{
    if s.len() == 0 {
    } else if s[0] == BYTE_CR && s.len() >= 2 && s[1] == BYTE_LF {
        lemma_escape_no_line_breaks(s.skip(2));
        assert forall|j: int| 0 <= j < spec_escape(s).len() implies spec_escape(s)[j] != BYTE_CR
            && spec_escape(s)[j] != BYTE_LF by {
            if j >= 4 {
                assert(spec_escape(s)[j] == spec_escape(s.skip(2))[j - 4]);
            }
        }
    } else if s[0] == BYTE_CR || s[0] == BYTE_LF {
        lemma_escape_no_line_breaks(s.skip(1));
        assert forall|j: int| 0 <= j < spec_escape(s).len() implies spec_escape(s)[j] != BYTE_CR
            && spec_escape(s)[j] != BYTE_LF by {
            if j >= 4 {
                assert(spec_escape(s)[j] == spec_escape(s.skip(1))[j - 4]);
            }
        }
    } else {
        lemma_escape_no_line_breaks(s.skip(1));
        assert forall|j: int| 0 <= j < spec_escape(s).len() implies spec_escape(s)[j] != BYTE_CR
            && spec_escape(s)[j] != BYTE_LF by {
            if j >= 1 {
                assert(spec_escape(s)[j] == spec_escape(s.skip(1))[j - 1]);
            }
        }
    }
}

/// Unescaping inverts escaping, for strings that do not already contain
/// one of the three literal tokens.  (A string that contains such a token,
/// say `a<lf>b` with no real line break, escapes to itself and then
/// unescapes to `a\nb`: the substitution scheme cannot protect it.)
pub proof fn lemma_unescape_escape(s: Seq<u8>)
    requires
        !has_token(s),
    ensures
        spec_unescape(spec_escape(s)) == s,
    decreases s.len(),
{
    if s.len() == 0 {
        assert(spec_unescape(spec_escape(s)) =~= s);
    } else if s[0] == BYTE_CR && s.len() >= 2 && s[1] == BYTE_LF {
        let e = spec_escape(s);
        let rest = spec_escape(s.skip(2));
        assert(e == token_cf() + rest);
        assert(e[0] == BYTE_LT && e[1] == BYTE_C && e[2] == BYTE_F && e[3] == BYTE_GT);
        assert(e.skip(4) =~= rest);
        lemma_no_token_skip(s, 2);
        lemma_unescape_escape(s.skip(2));
        assert(spec_unescape(e) =~= s);
    } else if s[0] == BYTE_CR {
        let e = spec_escape(s);
        let rest = spec_escape(s.skip(1));
        assert(e == token_cr() + rest);
        assert(e[0] == BYTE_LT && e[1] == BYTE_C && e[2] == BYTE_R && e[3] == BYTE_GT);
        assert(e.skip(4) =~= rest);
        lemma_no_token_skip(s, 1);
        lemma_unescape_escape(s.skip(1));
        assert(spec_unescape(e) =~= s);
    } else if s[0] == BYTE_LF {
        let e = spec_escape(s);
        let rest = spec_escape(s.skip(1));
        assert(e == token_lf() + rest);
        assert(e[0] == BYTE_LT && e[1] == BYTE_L && e[2] == BYTE_F && e[3] == BYTE_GT);
        assert(e.skip(4) =~= rest);
        lemma_no_token_skip(s, 1);
        lemma_unescape_escape(s.skip(1));
        assert(spec_unescape(e) =~= s);
    } else {
        let e = spec_escape(s);
        let rest = spec_escape(s.skip(1));
        assert(e == seq![s[0]] + rest);
        assert(e[0] == s[0]);
        assert(e.skip(1) =~= rest);
        lemma_no_token_skip(s, 1);
        lemma_unescape_escape(s.skip(1));
        if s[0] == BYTE_LT && e.len() >= 4 && is_token_tail(e[1], e[2], e[3]) {
            // The escape of the tail would have to open with a token tail;
            // show that this forces a literal token at the start of `s`.
            let s1 = s.skip(1);
            assert(rest.len() >= 3);
            assert(e[1] == rest[0] && e[2] == rest[1] && e[3] == rest[2]);
            if s1.len() == 0 {
                assert(rest.len() == 0);
                assert(false);
            } else if s1[0] == BYTE_CR || s1[0] == BYTE_LF {
                // rest starts with a token, whose first byte is `<`.
                assert(rest[0] == BYTE_LT);
                assert(false);
            } else {
                let s2 = s1.skip(1);
                let r1 = spec_escape(s2);
                assert(rest == seq![s1[0]] + r1);
                assert(rest[0] == s1[0]);
                assert(r1.len() >= 2);
                assert(rest[1] == r1[0] && rest[2] == r1[1]);
                if s2.len() == 0 {
                    assert(r1.len() == 0);
                    assert(false);
                } else if s2[0] == BYTE_CR || s2[0] == BYTE_LF {
                    assert(r1[0] == BYTE_LT);
                    assert(false);
                } else {
                    let s3 = s2.skip(1);
                    let r2 = spec_escape(s3);
                    assert(r1 == seq![s2[0]] + r2);
                    assert(r1[0] == s2[0]);
                    assert(r1[1] == r2[0]);
                    if s3.len() == 0 {
                        assert(r2.len() == 0);
                        assert(false);
                    } else if s3[0] == BYTE_CR || s3[0] == BYTE_LF {
                        assert(r2[0] == BYTE_LT);
                        assert(false);
                    } else {
                        assert(r2 == seq![s3[0]] + spec_escape(s3.skip(1)));
                        assert(r2[0] == s3[0]);
                        assert(s1[0] == s[1]);
                        assert(s2 =~= s.skip(2));
                        assert(s3 =~= s.skip(3));
                        assert(s2[0] == s[2]);
                        assert(s3[0] == s[3]);
                        assert(is_token_tail(s[1], s[2], s[3]));
                        assert(token_at(s, 0));
                        assert(false);
                    }
                }
            }
        }
        assert(spec_unescape(e) =~= s);
    }
}

/// Unfolds one escaping step at position `i` of `s`.
proof fn lemma_escape_step(s: Seq<u8>, i: int)
    requires
        0 <= i <= s.len(),
    ensures
        i < s.len() && s[i] == BYTE_CR && i + 1 < s.len() && s[i + 1] == BYTE_LF ==> spec_escape(
            s.skip(i),
        ) == token_cf() + spec_escape(s.skip(i + 2)),
        i < s.len() && s[i] == BYTE_CR && !(i + 1 < s.len() && s[i + 1] == BYTE_LF)
            ==> spec_escape(s.skip(i)) == token_cr() + spec_escape(s.skip(i + 1)),
        i < s.len() && s[i] == BYTE_LF ==> spec_escape(s.skip(i)) == token_lf() + spec_escape(
            s.skip(i + 1),
        ),
        i < s.len() && s[i] != BYTE_CR && s[i] != BYTE_LF ==> spec_escape(s.skip(i)) == seq![s[i]]
            + spec_escape(s.skip(i + 1)),
        i == s.len() ==> spec_escape(s.skip(i)) == Seq::<u8>::empty(),
{
    let t = s.skip(i);
    if i < s.len() {
        assert(t[0] == s[i]);
        if t.len() >= 2 {
            assert(t[1] == s[i + 1]);
        }
        assert(t.skip(1) =~= s.skip(i + 1));
        if i + 2 <= s.len() {
            assert(t.skip(2) =~= s.skip(i + 2));
        }
    }
}

/// Replaces every `\r\n`, `\r` and `\n` in `s` by its literal token.
pub fn escape_eol(s: &Vec<u8>) -> (r: Vec<u8>)
    ensures
        r@ == spec_escape(s@),
{
    let mut out: Vec<u8> = Vec::new();
    let mut i: usize = 0;
    proof {
        assert(s@.skip(0) =~= s@);
    }
    while i < s.len()
        invariant
            i <= s@.len(),
            spec_escape(s@) == out@ + spec_escape(s@.skip(i as int)),
        decreases s@.len() - i,
    {
        proof {
            lemma_escape_step(s@, i as int);
        }
        let b = s[i];
        if b == BYTE_CR && i + 1 < s.len() && s[i + 1] == BYTE_LF {
            out.push(BYTE_LT);
            out.push(BYTE_C);
            out.push(BYTE_F);
            out.push(BYTE_GT);
            i = i + 2;
        } else if b == BYTE_CR {
            out.push(BYTE_LT);
            out.push(BYTE_C);
            out.push(BYTE_R);
            out.push(BYTE_GT);
            i = i + 1;
        } else if b == BYTE_LF {
            out.push(BYTE_LT);
            out.push(BYTE_L);
            out.push(BYTE_F);
            out.push(BYTE_GT);
            i = i + 1;
        } else {
            out.push(b);
            i = i + 1;
        }
        proof {
            assert(spec_escape(s@) =~= out@ + spec_escape(s@.skip(i as int)));
        }
    }
    proof {
        assert(s@.skip(i as int) =~= Seq::<u8>::empty());
        assert(out@ =~= spec_escape(s@));
    }
    out
}

/// Unfolds one unescaping step at position `i` of `s`.
proof fn lemma_unescape_step(s: Seq<u8>, i: int)
    requires
        0 <= i <= s.len(),
    ensures
        i < s.len() && token_at(s, i) ==> spec_unescape(s.skip(i)) == (if s[i + 2] == BYTE_F && s[i
            + 1] == BYTE_C {
            seq![BYTE_CR, BYTE_LF]
        } else if s[i + 1] == BYTE_L {
            seq![BYTE_LF]
        } else {
            seq![BYTE_CR]
        }) + spec_unescape(s.skip(i + 4)),
        i < s.len() && !token_at(s, i) ==> spec_unescape(s.skip(i)) == seq![s[i]] + spec_unescape(
            s.skip(i + 1),
        ),
        i == s.len() ==> spec_unescape(s.skip(i)) == Seq::<u8>::empty(),
{
    let t = s.skip(i);
    if i < s.len() {
        assert(t[0] == s[i]);
        if t.len() >= 4 {
            assert(t[1] == s[i + 1] && t[2] == s[i + 2] && t[3] == s[i + 3]);
        }
        assert(t.skip(1) =~= s.skip(i + 1));
        if i + 4 <= s.len() {
            assert(t.skip(4) =~= s.skip(i + 4));
        }
    }
}

/// Replaces every literal token in `s` by the line-break bytes it stands
/// for; a `<` that does not open a token stays as it is.
pub fn unescape_eol(s: &Vec<u8>) -> (r: Vec<u8>)
    ensures
        r@ == spec_unescape(s@),
{
    let mut out: Vec<u8> = Vec::new();
    let mut i: usize = 0;
    proof {
        assert(s@.skip(0) =~= s@);
    }
    while i < s.len()
        invariant
            i <= s@.len(),
            spec_unescape(s@) == out@ + spec_unescape(s@.skip(i as int)),
        decreases s@.len() - i,
    {
        proof {
            lemma_unescape_step(s@, i as int);
        }
        let b = s[i];
        let mut is_token = false;
        if b == BYTE_LT && s.len() - i >= 4 {
            let a1 = s[i + 1];
            let a2 = s[i + 2];
            let a3 = s[i + 3];
            if a1 == BYTE_C && a2 == BYTE_F && a3 == BYTE_GT {
                out.push(BYTE_CR);
                out.push(BYTE_LF);
                is_token = true;
            } else if a1 == BYTE_L && a2 == BYTE_F && a3 == BYTE_GT {
                out.push(BYTE_LF);
                is_token = true;
            } else if a1 == BYTE_C && a2 == BYTE_R && a3 == BYTE_GT {
                out.push(BYTE_CR);
                is_token = true;
            }
        }
        if is_token {
            i = i + 4;
        } else {
            out.push(b);
            i = i + 1;
        }
        proof {
            assert(spec_unescape(s@) =~= out@ + spec_unescape(s@.skip(i as int)));
        }
    }
    proof {
        assert(s@.skip(i as int) =~= Seq::<u8>::empty());
        assert(out@ =~= spec_unescape(s@));
    }
    out
}

/// Replacement of line breaks by literal tokens and back, for a text value.
pub trait EofReplacor: Sized {
    /// Replaces `\r\n`, `\r` and `\n` with `<cf>`, `<cr>` and `<lf>`.
    fn replace_eol(self) -> Self;

    /// The exact inverse of `replace_eol`.
    fn replace_eol_back(self) -> Self;
}

impl EofReplacor for Vec<u8> {
    fn replace_eol(self) -> (r: Vec<u8>)
        ensures
            r@ == spec_escape(self@),
    {
        escape_eol(&self)
    }

    fn replace_eol_back(self) -> (r: Vec<u8>)
        ensures
            r@ == spec_unescape(self@),
    {
        unescape_eol(&self)
    }
}

} // verus!
