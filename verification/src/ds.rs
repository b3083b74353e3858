//! Death Stranding: its language enumeration, container structures and
//! localization API.

pub mod error;
pub mod local;
pub mod serialize;
pub mod structures;

pub use error::DSError;
pub use local::{DSLocal, LocalResource};
pub use structures::LOCALIZED_MAGIC;

use crate::fixed_map::EnumKey;
use vstd::prelude::*;

verus! {

/// The number of languages the title ships.
pub const LANG_COUNT: usize = 25;

/// The languages of the title, in canonical numeric order.
#[derive(Clone, Copy, Debug, PartialEq, Eq, Structural, Hash)]
pub enum Language {
    English,
    French,
    Spanish,
    German,
    Italian,
    Dutch,
    Portuguese,
    ChineseTraditional,
    Korean,
    Russian,
    Polish,
    Danish,
    Finnish,
    Norwegian,
    Swedish,
    Japanese,
    LATAMSP,
    LATAMPOR,
    Turkish,
    Arabic,
    ChineseSimplified,
    EnglishUk,
    Greek,
    Czech,
    Hungarian,
}

impl Language {
    /// The canonical numeric code of the language.
    pub open spec fn spec_code(self) -> int {
        match self {
            Language::English => 0,
            Language::French => 1,
            Language::Spanish => 2,
            Language::German => 3,
            Language::Italian => 4,
            Language::Dutch => 5,
            Language::Portuguese => 6,
            Language::ChineseTraditional => 7,
            Language::Korean => 8,
            Language::Russian => 9,
            Language::Polish => 10,
            Language::Danish => 11,
            Language::Finnish => 12,
            Language::Norwegian => 13,
            Language::Swedish => 14,
            Language::Japanese => 15,
            Language::LATAMSP => 16,
            Language::LATAMPOR => 17,
            Language::Turkish => 18,
            Language::Arabic => 19,
            Language::ChineseSimplified => 20,
            Language::EnglishUk => 21,
            Language::Greek => 22,
            Language::Czech => 23,
            Language::Hungarian => 24,
        }
    }

    /// The language with the given code; meaningful for codes in range.
    pub open spec fn spec_from_code(c: int) -> Language {
        if c == 0 {
            Language::English
        } else if c == 1 {
            Language::French
        } else if c == 2 {
            Language::Spanish
        } else if c == 3 {
            Language::German
        } else if c == 4 {
            Language::Italian
        } else if c == 5 {
            Language::Dutch
        } else if c == 6 {
            Language::Portuguese
        } else if c == 7 {
            Language::ChineseTraditional
        } else if c == 8 {
            Language::Korean
        } else if c == 9 {
            Language::Russian
        } else if c == 10 {
            Language::Polish
        } else if c == 11 {
            Language::Danish
        } else if c == 12 {
            Language::Finnish
        } else if c == 13 {
            Language::Norwegian
        } else if c == 14 {
            Language::Swedish
        } else if c == 15 {
            Language::Japanese
        } else if c == 16 {
            Language::LATAMSP
        } else if c == 17 {
            Language::LATAMPOR
        } else if c == 18 {
            Language::Turkish
        } else if c == 19 {
            Language::Arabic
        } else if c == 20 {
            Language::ChineseSimplified
        } else if c == 21 {
            Language::EnglishUk
        } else if c == 22 {
            Language::Greek
        } else if c == 23 {
            Language::Czech
        } else if c == 24 {
            Language::Hungarian
        } else {
            Language::English
        }
    }

    /// The display name of the language.
    pub open spec fn spec_name(self) -> Seq<char> {
        match self {
            Language::English => "English"@,
            Language::French => "French"@,
            Language::Spanish => "Spanish"@,
            Language::German => "German"@,
            Language::Italian => "Italian"@,
            Language::Dutch => "Dutch"@,
            Language::Portuguese => "Portuguese"@,
            Language::ChineseTraditional => "ChineseTraditional"@,
            Language::Korean => "Korean"@,
            Language::Russian => "Russian"@,
            Language::Polish => "Polish"@,
            Language::Danish => "Danish"@,
            Language::Finnish => "Finnish"@,
            Language::Norwegian => "Norwegian"@,
            Language::Swedish => "Swedish"@,
            Language::Japanese => "Japanese"@,
            Language::LATAMSP => "LATAMSP"@,
            Language::LATAMPOR => "LATAMPOR"@,
            Language::Turkish => "Turkish"@,
            Language::Arabic => "Arabic"@,
            Language::ChineseSimplified => "ChineseSimplified"@,
            Language::EnglishUk => "EnglishUk"@,
            Language::Greek => "Greek"@,
            Language::Czech => "Czech"@,
            Language::Hungarian => "Hungarian"@,
        }
    }

    /// The display name of the language.
    pub fn name(&self) -> (r: &'static str)
        ensures
            r@ == self.spec_name(),
    {
        match self {
            Language::English => "English",
            Language::French => "French",
            Language::Spanish => "Spanish",
            Language::German => "German",
            Language::Italian => "Italian",
            Language::Dutch => "Dutch",
            Language::Portuguese => "Portuguese",
            Language::ChineseTraditional => "ChineseTraditional",
            Language::Korean => "Korean",
            Language::Russian => "Russian",
            Language::Polish => "Polish",
            Language::Danish => "Danish",
            Language::Finnish => "Finnish",
            Language::Norwegian => "Norwegian",
            Language::Swedish => "Swedish",
            Language::Japanese => "Japanese",
            Language::LATAMSP => "LATAMSP",
            Language::LATAMPOR => "LATAMPOR",
            Language::Turkish => "Turkish",
            Language::Arabic => "Arabic",
            Language::ChineseSimplified => "ChineseSimplified",
            Language::EnglishUk => "EnglishUk",
            Language::Greek => "Greek",
            Language::Czech => "Czech",
            Language::Hungarian => "Hungarian",
        }
    }

    /// Every language in canonical order.
    pub fn all_variants() -> (r: Vec<Language>)
        ensures
            r@.len() == LANG_COUNT,
            forall|i: int| 0 <= i < r@.len() ==> (#[trigger] r@[i]).spec_code() == i,
    {
        let mut out: Vec<Language> = Vec::new();
        let mut i: usize = 0;
        while i < 25
            invariant
                i <= 25,
                out@.len() == i,
                forall|j: int| 0 <= j < i ==> (#[trigger] out@[j]).spec_code() == j,
            decreases 25 - i,
        {
            out.push(Language::from_code(i));
            i = i + 1;
        }
        out
    }
}

impl EnumKey for Language {
    fn count() -> (r: usize)
        ensures
            r == LANG_COUNT,
    {
        25
    }

    fn code(self) -> (r: usize)
        ensures
            r == self.spec_code(),
            r < LANG_COUNT,
    {
        match self {
            Language::English => 0,
            Language::French => 1,
            Language::Spanish => 2,
            Language::German => 3,
            Language::Italian => 4,
            Language::Dutch => 5,
            Language::Portuguese => 6,
            Language::ChineseTraditional => 7,
            Language::Korean => 8,
            Language::Russian => 9,
            Language::Polish => 10,
            Language::Danish => 11,
            Language::Finnish => 12,
            Language::Norwegian => 13,
            Language::Swedish => 14,
            Language::Japanese => 15,
            Language::LATAMSP => 16,
            Language::LATAMPOR => 17,
            Language::Turkish => 18,
            Language::Arabic => 19,
            Language::ChineseSimplified => 20,
            Language::EnglishUk => 21,
            Language::Greek => 22,
            Language::Czech => 23,
            Language::Hungarian => 24,
        }
    }

    fn from_code(code: usize) -> (r: Self)
        ensures
            code < LANG_COUNT ==> r.spec_code() == code,
            code >= LANG_COUNT ==> r == Language::English,
    {
        match code {
            0 => Language::English,
            1 => Language::French,
            2 => Language::Spanish,
            3 => Language::German,
            4 => Language::Italian,
            5 => Language::Dutch,
            6 => Language::Portuguese,
            7 => Language::ChineseTraditional,
            8 => Language::Korean,
            9 => Language::Russian,
            10 => Language::Polish,
            11 => Language::Danish,
            12 => Language::Finnish,
            13 => Language::Norwegian,
            14 => Language::Swedish,
            15 => Language::Japanese,
            16 => Language::LATAMSP,
            17 => Language::LATAMPOR,
            18 => Language::Turkish,
            19 => Language::Arabic,
            20 => Language::ChineseSimplified,
            21 => Language::EnglishUk,
            22 => Language::Greek,
            23 => Language::Czech,
            24 => Language::Hungarian,
            _ => Language::English,
        }
    }
}

/// Two languages with the same code are the same language.
pub proof fn lemma_lang_code_injective(a: Language, b: Language)
    requires
        a.spec_code() == b.spec_code(),
    ensures
        a == b,
{
}

/// `spec_from_code` inverts `spec_code` on the language range.
pub proof fn lemma_from_code_matches_spec(c: int)
    requires
        0 <= c < 25,
    ensures
        Language::spec_from_code(c).spec_code() == c,
{
}

/// A fixed map with one entry per language of this title.
pub type LangMap<V> = crate::fixed_map::FixedMap<25, Language, V>;

} // verus!
