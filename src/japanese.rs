//! Script classes of characters and strings.
use vstd::prelude::*;

verus! {

pub open spec fn is_hiragana_char(c: char) -> bool {
    0x3041 <= c as u32 <= 0x309F
}

pub open spec fn is_katakana_char(c: char) -> bool {
    0x30A0 <= c as u32 <= 0x30FF
}

pub open spec fn is_kanji_char(c: char) -> bool {
    (0x4E00 <= c as u32 <= 0x9FFF) || (0x3400 <= c as u32 <= 0x4DBF)
}

pub open spec fn is_japanese_char(c: char) -> bool {
    is_hiragana_char(c) || is_katakana_char(c) || is_kanji_char(c) || c as u32 == 0x3005
}

pub open spec fn is_roman_letter_char(c: char) -> bool {
    ('a' as u32 <= c as u32 <= 'z' as u32) || ('A' as u32 <= c as u32 <= 'Z' as u32)
}

/// Every character of a non-empty `s` satisfies `p`.
pub open spec fn all_chars(s: Seq<char>, p: spec_fn(char) -> bool) -> bool {
    s.len() > 0 && forall|i: int| 0 <= i < s.len() ==> p(#[trigger] s[i])
}

pub open spec fn spec_is_hiragana(s: Seq<char>) -> bool {
    all_chars(s, |c: char| is_hiragana_char(c))
}

pub open spec fn spec_is_katakana(s: Seq<char>) -> bool {
    all_chars(s, |c: char| is_katakana_char(c))
}

pub fn hiragana_char(c: char) -> (r: bool)
    ensures
        r == is_hiragana_char(c),
{
    0x3041 <= c as u32 && c as u32 <= 0x309F
}

pub fn katakana_char(c: char) -> (r: bool)
    ensures
        r == is_katakana_char(c),
{
    0x30A0 <= c as u32 && c as u32 <= 0x30FF
}

pub fn kanji_char(c: char) -> (r: bool)
    ensures
        r == is_kanji_char(c),
{
    (0x4E00 <= c as u32 && c as u32 <= 0x9FFF) || (0x3400 <= c as u32 && c as u32 <= 0x4DBF)
}

pub fn japanese_char(c: char) -> (r: bool)
    ensures
        r == is_japanese_char(c),
{
    hiragana_char(c) || katakana_char(c) || kanji_char(c) || c as u32 == 0x3005
}

pub fn roman_letter(c: char) -> (r: bool)
    ensures
        r == is_roman_letter_char(c),
{
    ('a' as u32 <= c as u32 && c as u32 <= 'z' as u32) || ('A' as u32 <= c as u32 && c as u32
        <= 'Z' as u32)
}

/// Whether `s` is non-empty and all hiragana.
pub fn is_hiragana(s: &[char]) -> (r: bool)
    ensures
        r == spec_is_hiragana(s@),
{
    if s.len() == 0 {
        return false;
    }
    let mut i: usize = 0;
    while i < s.len()
        invariant
            i <= s@.len(),
            forall|j: int| 0 <= j < i ==> is_hiragana_char(#[trigger] s@[j]),
        decreases s@.len() - i,
    {
        if !hiragana_char(s[i]) {
            return false;
        }
        i += 1;
    }
    true
}

/// Whether `s` is non-empty and all katakana.
pub fn is_katakana(s: &[char]) -> (r: bool)
    ensures
        r == spec_is_katakana(s@),
{
    if s.len() == 0 {
        return false;
    }
    let mut i: usize = 0;
    while i < s.len()
        invariant
            i <= s@.len(),
            forall|j: int| 0 <= j < i ==> is_katakana_char(#[trigger] s@[j]),
        decreases s@.len() - i,
    {
        if !katakana_char(s[i]) {
            return false;
        }
        i += 1;
    }
    true
}

/// Whether some character of `s` is Japanese.
pub fn has_japanese(s: &[char]) -> (r: bool)
    ensures
        r == exists|i: int| 0 <= i < s@.len() && is_japanese_char(#[trigger] s@[i]),
{
    let mut i: usize = 0;
    while i < s.len()
        invariant
            i <= s@.len(),
            forall|j: int| 0 <= j < i ==> !is_japanese_char(#[trigger] s@[j]),
        decreases s@.len() - i,
    {
        if japanese_char(s[i]) {
            return true;
        }
        i += 1;
    }
    false
}

} // verus!
