//! Languages of dictionary content and of users.
use vstd::prelude::*;

verus! {

/// A language that glosses, suggestions and indexes can be in.
#[derive(Clone, Copy, Debug, PartialEq, Eq, Structural, Hash)]
pub enum Language {
    English,
    German,
    Russian,
    Spanish,
    Swedish,
    French,
    Dutch,
    Hungarian,
    Slovenian,
    Japanese,
}

/// The three-letter code of each language.
pub open spec fn code_language(c: Seq<char>) -> Option<Language> {
    if c == "eng"@ {
        Some(Language::English)
    } else if c == "ger"@ {
        Some(Language::German)
    } else if c == "rus"@ {
        Some(Language::Russian)
    } else if c == "spa"@ {
        Some(Language::Spanish)
    } else if c == "swe"@ {
        Some(Language::Swedish)
    } else if c == "fre"@ {
        Some(Language::French)
    } else if c == "dut"@ {
        Some(Language::Dutch)
    } else if c == "hun"@ {
        Some(Language::Hungarian)
    } else if c == "slv"@ {
        Some(Language::Slovenian)
    } else if c == "jpn"@ {
        Some(Language::Japanese)
    } else {
        None
    }
}

fn is_code(s: &String, code: &str) -> (r: bool)
    ensures
        r == (s@ == code@),
{
    *s == code.to_owned()
}

/// The language with the three-letter code `code`, such as `eng` or `ger`.
pub fn language_from_code(code: &str) -> (r: Option<Language>)
    ensures
        r == code_language(code@),
{
    let c = code.to_owned();
    if is_code(&c, "eng") {
        Some(Language::English)
    } else if is_code(&c, "ger") {
        Some(Language::German)
    } else if is_code(&c, "rus") {
        Some(Language::Russian)
    } else if is_code(&c, "spa") {
        Some(Language::Spanish)
    } else if is_code(&c, "swe") {
        Some(Language::Swedish)
    } else if is_code(&c, "fre") {
        Some(Language::French)
    } else if is_code(&c, "dut") {
        Some(Language::Dutch)
    } else if is_code(&c, "hun") {
        Some(Language::Hungarian)
    } else if is_code(&c, "slv") {
        Some(Language::Slovenian)
    } else if is_code(&c, "jpn") {
        Some(Language::Japanese)
    } else {
        None
    }
}

} // verus!
