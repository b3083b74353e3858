//! The option surface the command-line layer works with: games, log
//! levels, formats, actions, and language-name parsing.

use crate::fixed_map::EnumKey;
use crate::logger::Logger;
use vstd::prelude::*;
use vstd::utf8::encode_utf8;

verus! {

/// The game a container belongs to, or automatic detection.
#[derive(Clone, Copy, Debug, PartialEq, Eq, Structural)]
pub enum Game {
    /// Detect the game from the input.
    Auto,
    /// Horizon Zero Dawn.
    Hzd,
    /// Death Stranding.
    Ds,
}

/// How much the program logs.
#[derive(Clone, Copy, Debug, PartialEq, Eq, Structural)]
pub enum LogLevel {
    /// All messages and progress.
    A,
    /// All messages, no progress.
    P,
    /// Warnings and errors only.
    W,
    /// Errors only.
    E,
    /// Nothing.
    N,
}

/// The interchange format chosen on the command line.
#[derive(Clone, Copy, Debug, PartialEq, Eq, Structural)]
pub enum SerializeType {
    Json,
    Yaml,
    Txt,
}

impl SerializeType {
    /// The corresponding core format; the name flag only matters for the
    /// line-list format.
    pub fn to_core(self, add_language_names: Option<bool>) -> (r: crate::serialize::SerializeType)
        ensures
            self is Json ==> r == crate::serialize::SerializeType::Json,
            self is Yaml ==> r == crate::serialize::SerializeType::Yaml,
            self is Txt ==> r == (crate::serialize::SerializeType::Txt {
                add_language_names: match add_language_names {
                    Some(b) => b,
                    None => false,
                },
            }),
    {
        match self {
            SerializeType::Json => crate::serialize::SerializeType::Json,
            SerializeType::Yaml => crate::serialize::SerializeType::Yaml,
            SerializeType::Txt => {
                let add = match add_language_names {
                    Some(b) => b,
                    None => false,
                };
                crate::serialize::SerializeType::Txt { add_language_names: add }
            },
        }
    }

    /// The file extension of the format.
    pub fn extension(&self) -> (r: &'static str)
        ensures
            self is Json ==> r@ == "json"@,
            self is Yaml ==> r@ == "yaml"@,
            self is Txt ==> r@ == "txt"@,
    {
        match self {
            SerializeType::Json => "json",
            SerializeType::Yaml => "yaml",
            SerializeType::Txt => "txt",
        }
    }
}

/// What the user asked for: an export or an import.
pub enum Action {
    /// Export locals from the input.
    Export { languages: Vec<String>, add_language_names: bool },
    /// Import locals back and create a new file.
    Import { exported_file: String, dont_skip: bool },
}

impl Action {
    /// The action, by name.
    pub fn name(&self) -> (r: &'static str)
        ensures
            self is Export ==> r@ == "Export"@,
            self is Import ==> r@ == "Import"@,
    {
        match self {
            Action::Export { .. } => "Export",
            Action::Import { .. } => "Import",
        }
    }
}

/// A byte lowered to its ASCII lowercase form.
pub open spec fn lower_byte(b: u8) -> u8 {
    if 0x41 <= b <= 0x5a {
        (b + 0x20) as u8
    } else {
        b
    }
}

/// A byte string lowered to ASCII lowercase.
pub open spec fn lower_bytes(s: Seq<u8>) -> Seq<u8> {
    s.map_values(|b: u8| lower_byte(b))
}

/// Case-insensitive (ASCII) equality of the UTF-8 forms of two texts.
pub open spec fn name_eq(a: Seq<char>, b: Seq<char>) -> bool {
    lower_bytes(encode_utf8(a)) == lower_bytes(encode_utf8(b))
}

/// Compares two texts ASCII-case-insensitively.
fn name_eq_exec(a: &str, b: &str) -> (r: bool)
    ensures
        r == name_eq(a@, b@),
{
    let ab = a.as_bytes();
    let bb = b.as_bytes();
    if ab.len() != bb.len() {
        proof {
            assert(lower_bytes(encode_utf8(a@)).len() == encode_utf8(a@).len());
            assert(lower_bytes(encode_utf8(b@)).len() == encode_utf8(b@).len());
        }
        return false;
    }
    let n = ab.len();
    let mut i: usize = 0;
    while i < n
        invariant
            n == ab@.len() == bb@.len(),
            ab@ == encode_utf8(a@),
            bb@ == encode_utf8(b@),
            i <= n,
            forall|j: int| 0 <= j < i ==> lower_byte(ab@[j]) == lower_byte(bb@[j]),
        decreases n - i,
    {
        let mut x = *vstd::slice::slice_index_get(ab, i);
        let mut y = *vstd::slice::slice_index_get(bb, i);
        if x >= 0x41 && x <= 0x5a {
            x = x + 0x20;
        }
        if y >= 0x41 && y <= 0x5a {
            y = y + 0x20;
        }
        if x != y {
            proof {
                assert(lower_bytes(ab@)[i as int] == lower_byte(ab@[i as int]));
                assert(lower_bytes(bb@)[i as int] == lower_byte(bb@[i as int]));
            }
            return false;
        }
        i = i + 1;
    }
    proof {
        assert(lower_bytes(ab@) =~= lower_bytes(bb@));
    }
    true
}

/// The first language of this title whose name matches `s`, searching
/// from code `l` up.
pub open spec fn hzd_lang_from_name(s: Seq<char>, l: int) -> Option<crate::hzd::Language>
    decreases 21 - l,
    when 0 <= l <= 21
{
    if l >= 21 {
        None
    } else if name_eq(s, crate::hzd::Language::spec_from_code(l).spec_name()) {
        Some(crate::hzd::Language::spec_from_code(l))
    } else {
        hzd_lang_from_name(s, l + 1)
    }
}

/// The first language of this title whose name matches `s`.
pub open spec fn ds_lang_from_name(s: Seq<char>, l: int) -> Option<crate::ds::Language>
    decreases 25 - l,
    when 0 <= l <= 25
{
    if l >= 25 {
        None
    } else if name_eq(s, crate::ds::Language::spec_from_code(l).spec_name()) {
        Some(crate::ds::Language::spec_from_code(l))
    } else {
        ds_lang_from_name(s, l + 1)
    }
}

/// The views of a list of names.
pub open spec fn name_views(ss: Seq<String>) -> Seq<Seq<char>> {
    ss.map_values(|s: String| s@)
}

/// True when some name is the word for "every language".
pub open spec fn any_all(ns: Seq<Seq<char>>) -> bool {
    exists|i: int| 0 <= i < ns.len() && name_eq(#[trigger] ns[i], "all"@)
}

/// The recognized languages among the names, in input order.
pub open spec fn spec_parse_hzd(ns: Seq<Seq<char>>) -> Seq<crate::hzd::Language>
    decreases ns.len(),
{
    if ns.len() == 0 {
        Seq::empty()
    } else {
        match hzd_lang_from_name(ns[0], 0) {
            Some(l) => seq![l] + spec_parse_hzd(ns.skip(1)),
            None => spec_parse_hzd(ns.skip(1)),
        }
    }
}

/// The recognized languages among the names, in input order.
pub open spec fn spec_parse_ds(ns: Seq<Seq<char>>) -> Seq<crate::ds::Language>
    decreases ns.len(),
{
    if ns.len() == 0 {
        Seq::empty()
    } else {
        match ds_lang_from_name(ns[0], 0) {
            Some(l) => seq![l] + spec_parse_ds(ns.skip(1)),
            None => spec_parse_ds(ns.skip(1)),
        }
    }
}

/// Parses language names for Horizon Zero Dawn, case-insensitively; the
/// word for "every language" selects all of them, an unrecognized name
/// is warned about and skipped.
pub fn parse_hzd_languages<L: Logger>(languages: Vec<String>, logger: &mut L) -> (r: Vec<
    crate::hzd::Language,
>)
    ensures
        any_all(name_views(languages@)) ==> r@.len() == 21 && (forall|i: int|
            0 <= i < r@.len() ==> (#[trigger] r@[i]).spec_code() == i),
        !any_all(name_views(languages@)) ==> r@ == spec_parse_hzd(name_views(languages@)),
{
    let ghost ns = name_views(languages@);
    let mut saw_all = false;
    let mut i: usize = 0;
    while i < languages.len()
        invariant
            i <= languages@.len(),
            ns == name_views(languages@),
            saw_all ==> any_all(ns),
            !saw_all ==> forall|j: int| 0 <= j < i ==> !name_eq(#[trigger] ns[j], "all"@),
        decreases languages@.len() - i,
    {
        proof {
            assert(ns[i as int] == languages@[i as int]@);
        }
        if name_eq_exec(languages[i].as_str(), "all") {
            saw_all = true;
        }
        i = i + 1;
    }
    if saw_all {
        return crate::hzd::Language::all_variants();
    }
    let mut out: Vec<crate::hzd::Language> = Vec::new();
    let mut k: usize = 0;
    proof {
        assert(ns.skip(0) =~= ns);
        assert(Seq::<crate::hzd::Language>::empty() + spec_parse_hzd(ns) =~= spec_parse_hzd(ns));
    }
    while k < languages.len()
        invariant
            k <= languages@.len(),
            ns == name_views(languages@),
            spec_parse_hzd(ns) == out@ + spec_parse_hzd(ns.skip(k as int)),
        decreases languages@.len() - k,
    {
        proof {
            assert(ns.skip(k as int)[0] == ns[k as int]);
            assert(ns.skip(k as int).skip(1) =~= ns.skip(k + 1));
            assert(ns[k as int] == languages@[k as int]@);
        }
        let name = &languages[k];
        let mut found = false;
        let mut l: usize = 0;
        while l < 21
            invariant
                l <= 21,
                ns == name_views(languages@),
                k < languages@.len(),
                ns[k as int] == languages@[k as int]@,
                name@ == ns[k as int],
                !found ==> hzd_lang_from_name(ns[k as int], 0) == hzd_lang_from_name(
                    ns[k as int],
                    l as int,
                ),
                found ==> (hzd_lang_from_name(ns[k as int], 0) matches Some(lg) && out@.len() > 0
                    && out@.last() == lg && spec_parse_hzd(ns) == out@.subrange(
                    0,
                    out@.len() - 1,
                ) + spec_parse_hzd(ns.skip(k as int))),
                !found ==> spec_parse_hzd(ns) == out@ + spec_parse_hzd(ns.skip(k as int)),
            decreases 21 - l,
        {
            if !found {
                let lang = crate::hzd::Language::from_code(l);
                proof {
                    crate::hzd::lemma_from_code_matches_spec(l as int);
                    crate::hzd::lemma_lang_code_injective(
                        lang,
                        crate::hzd::Language::spec_from_code(l as int),
                    );
                }
                if name_eq_exec(name.as_str(), lang.name()) {
                    let ghost prev = out@;
                    out.push(lang);
                    found = true;
                    proof {
                        assert(name_eq(ns[k as int], crate::hzd::Language::spec_from_code(
                            l as int,
                        ).spec_name()));
                        assert(hzd_lang_from_name(ns[k as int], l as int) == Some(lang));
                        assert(out@.subrange(0, out@.len() - 1) =~= prev);
                        assert(out@.last() == lang);
                    }
                } else {
                    proof {
                        assert(!name_eq(ns[k as int], crate::hzd::Language::spec_from_code(
                            l as int,
                        ).spec_name()));
                        assert(hzd_lang_from_name(ns[k as int], l as int)
                            == hzd_lang_from_name(ns[k as int], l + 1));
                    }
                }
            }
            l = l + 1;
        }
        proof {
            if found {
                let lg = hzd_lang_from_name(ns[k as int], 0)->Some_0;
                assert(spec_parse_hzd(ns.skip(k as int)) == seq![lg] + spec_parse_hzd(
                    ns.skip(k + 1),
                ));
                assert(out@.subrange(0, out@.len() - 1) + (seq![lg] + spec_parse_hzd(
                    ns.skip(k + 1),
                )) =~= (out@.subrange(0, out@.len() - 1) + seq![lg]) + spec_parse_hzd(
                    ns.skip(k + 1),
                ));
                assert(out@.subrange(0, out@.len() - 1) + seq![lg] =~= out@);
            } else {
                assert(spec_parse_hzd(ns.skip(k as int)) == spec_parse_hzd(ns.skip(k + 1)));
            }
        }
        if !found {
            logger.warn("Invalid language name");
        }
        k = k + 1;
    }
    proof {
        assert(ns.skip(k as int) =~= Seq::<Seq<char>>::empty());
        assert(out@ + Seq::<crate::hzd::Language>::empty() =~= out@);
    }
    out
}

/// Parses language names for Death Stranding, case-insensitively; the
/// word for "every language" selects all of them, an unrecognized name
/// is warned about and skipped.
pub fn parse_ds_languages<L: Logger>(languages: Vec<String>, logger: &mut L) -> (r: Vec<
    crate::ds::Language,
>)
    ensures
        any_all(name_views(languages@)) ==> r@.len() == 25 && (forall|i: int|
            0 <= i < r@.len() ==> (#[trigger] r@[i]).spec_code() == i),
        !any_all(name_views(languages@)) ==> r@ == spec_parse_ds(name_views(languages@)),
{
    let ghost ns = name_views(languages@);
    let mut saw_all = false;
    let mut i: usize = 0;
    while i < languages.len()
        invariant
            i <= languages@.len(),
            ns == name_views(languages@),
            saw_all ==> any_all(ns),
            !saw_all ==> forall|j: int| 0 <= j < i ==> !name_eq(#[trigger] ns[j], "all"@),
        decreases languages@.len() - i,
    {
        proof {
            assert(ns[i as int] == languages@[i as int]@);
        }
        if name_eq_exec(languages[i].as_str(), "all") {
            saw_all = true;
        }
        i = i + 1;
    }
    if saw_all {
        return crate::ds::Language::all_variants();
    }
    let mut out: Vec<crate::ds::Language> = Vec::new();
    let mut k: usize = 0;
    proof {
        assert(ns.skip(0) =~= ns);
        assert(Seq::<crate::ds::Language>::empty() + spec_parse_ds(ns) =~= spec_parse_ds(ns));
    }
    while k < languages.len()
        invariant
            k <= languages@.len(),
            ns == name_views(languages@),
            spec_parse_ds(ns) == out@ + spec_parse_ds(ns.skip(k as int)),
        decreases languages@.len() - k,
    {
        proof {
            assert(ns.skip(k as int)[0] == ns[k as int]);
            assert(ns.skip(k as int).skip(1) =~= ns.skip(k + 1));
            assert(ns[k as int] == languages@[k as int]@);
        }
        let name = &languages[k];
        let mut found = false;
        let mut l: usize = 0;
        while l < 25
            invariant
                l <= 25,
                ns == name_views(languages@),
                k < languages@.len(),
                ns[k as int] == languages@[k as int]@,
                name@ == ns[k as int],
                !found ==> ds_lang_from_name(ns[k as int], 0) == ds_lang_from_name(
                    ns[k as int],
                    l as int,
                ),
                found ==> (ds_lang_from_name(ns[k as int], 0) matches Some(lg) && out@.len() > 0
                    && out@.last() == lg && spec_parse_ds(ns) == out@.subrange(
                    0,
                    out@.len() - 1,
                ) + spec_parse_ds(ns.skip(k as int))),
                !found ==> spec_parse_ds(ns) == out@ + spec_parse_ds(ns.skip(k as int)),
            decreases 25 - l,
        {
            if !found {
                let lang = crate::ds::Language::from_code(l);
                proof {
                    crate::ds::lemma_from_code_matches_spec(l as int);
                    crate::ds::lemma_lang_code_injective(
                        lang,
                        crate::ds::Language::spec_from_code(l as int),
                    );
                }
                if name_eq_exec(name.as_str(), lang.name()) {
                    let ghost prev = out@;
                    out.push(lang);
                    found = true;
                    proof {
                        assert(name_eq(ns[k as int], crate::ds::Language::spec_from_code(
                            l as int,
                        ).spec_name()));
                        assert(ds_lang_from_name(ns[k as int], l as int) == Some(lang));
                        assert(out@.subrange(0, out@.len() - 1) =~= prev);
                        assert(out@.last() == lang);
                    }
                } else {
                    proof {
                        assert(!name_eq(ns[k as int], crate::ds::Language::spec_from_code(
                            l as int,
                        ).spec_name()));
                        assert(ds_lang_from_name(ns[k as int], l as int)
                            == ds_lang_from_name(ns[k as int], l + 1));
                    }
                }
            }
            l = l + 1;
        }
        proof {
            if found {
                let lg = ds_lang_from_name(ns[k as int], 0)->Some_0;
                assert(spec_parse_ds(ns.skip(k as int)) == seq![lg] + spec_parse_ds(
                    ns.skip(k + 1),
                ));
                assert(out@.subrange(0, out@.len() - 1) + (seq![lg] + spec_parse_ds(
                    ns.skip(k + 1),
                )) =~= (out@.subrange(0, out@.len() - 1) + seq![lg]) + spec_parse_ds(
                    ns.skip(k + 1),
                ));
                assert(out@.subrange(0, out@.len() - 1) + seq![lg] =~= out@);
            } else {
                assert(spec_parse_ds(ns.skip(k as int)) == spec_parse_ds(ns.skip(k + 1)));
            }
        }
        if !found {
            logger.warn("Invalid language name");
        }
        k = k + 1;
    }
    proof {
        assert(ns.skip(k as int) =~= Seq::<Seq<char>>::empty());
        assert(out@ + Seq::<crate::ds::Language>::empty() =~= out@);
    }
    out
}

} // verus!
