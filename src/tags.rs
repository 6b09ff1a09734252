//! Inline `#directive` tags of a query: the tag grammar, the parser of a
//! single tag and the extraction of all tags from a query.
use vstd::prelude::*;
use crate::text::{
    chars_of, is_whitespace, is_ws, rtrim, rtrim_chars, string_of, ci_eq, ci_eq_char, ci_matches, ci_matches_from, ci_matches_range, is_ascii_digit,
};

verus! {

/// What a search looks for.
#[derive(Clone, Copy, Debug, PartialEq, Eq, Structural, Hash)]
pub enum SearchTarget {
    Words,
    Kanji,
    Sentences,
    Names,
}

/// Miscellaneous word information that a tag can ask for.
#[derive(Clone, Copy, Debug, PartialEq, Eq, Structural, Hash)]
pub enum Misc {
    Abbreviation,
}

/// Coarse part of speech.
#[derive(Clone, Copy, Debug, PartialEq, Eq, Structural, Hash)]
pub enum PosSimple {
    Adjective,
    Adverb,
    Auxilary,
    Conjungation,
    Counter,
    Expr,
    Interjection,
    Noun,
    Numeric,
    Pronoun,
    Particle,
    Prefix,
    Suffix,
    Verb,
}

/// A directive given inside a query.
#[derive(Clone, Copy, Debug, PartialEq, Eq, Structural, Hash)]
pub enum Tag {
    SearchType(SearchTarget),
    PartOfSpeech(PosSimple),
    Misc(Misc),
    Jlpt(u8),
    GenkiLesson(u8),
    Hidden,
    IrregularIruEru,
}

/// The value of a string of decimal digits.
pub open spec fn digits_value(d: Seq<char>) -> nat
    decreases d.len(),
{
    if d.len() == 0 {
        0
    } else {
        digits_value(d.drop_last()) * 10 + (d.last() as u32 - '0' as u32) as nat
    }
}

pub open spec fn all_digits(d: Seq<char>) -> bool {
    forall|i: int| 0 <= i < d.len() ==> is_ascii_digit(#[trigger] d[i])
}

/// `d` without one leading `+`.
pub open spec fn unsigned_digits(d: Seq<char>) -> Seq<char> {
    if d.len() > 0 && d[0] == '+' {
        d.drop_first()
    } else {
        d
    }
}

/// A `u8` written in decimal, with an optional leading `+` and leading zeros.
pub open spec fn u8_value(s: Seq<char>) -> Option<u8> {
    let d = unsigned_digits(s);
    if d.len() > 0 && all_digits(d) && digits_value(d) <= 255 {
        Some(digits_value(d) as u8)
    } else {
        None
    }
}

/// The tag that a plain keyword (without its `#`) stands for.
pub open spec fn keyword_tag(b: Seq<char>) -> Option<Tag> {
    if ci_matches(b, "hidden"@) || ci_matches(b, "hide"@) {
        Some(Tag::Hidden)
    } else if ci_matches(b, "irrichidan"@) || ci_matches(b, "irregularichidan"@) || ci_matches(
        b,
        "irregular-ichidan"@,
    ) {
        Some(Tag::IrregularIruEru)
    } else {
        None
    }
}

/// `genkiN` with `3 <= N <= 23`.
pub open spec fn genki_tag(b: Seq<char>) -> Option<Tag> {
    if b.len() >= 5 && ci_matches(b.subrange(0, 5), "genki"@) {
        match u8_value(b.subrange(5, b.len() as int)) {
            Some(n) => if 3 <= n <= 23 {
                Some(Tag::GenkiLesson(n))
            } else {
                None
            },
            None => None,
        }
    } else {
        None
    }
}

/// `nN` with `1 <= N <= 5`.
pub open spec fn jlpt_tag(b: Seq<char>) -> Option<Tag> {
    if b.len() >= 1 && ci_eq(b[0], 'n') {
        match u8_value(b.subrange(1, b.len() as int)) {
            Some(n) => if 1 <= n <= 5 {
                Some(Tag::Jlpt(n))
            } else {
                None
            },
            None => None,
        }
    } else {
        None
    }
}

/// A search target keyword, or the abbreviation marker.
pub open spec fn search_type_tag(b: Seq<char>) -> Option<Tag> {
    if ci_matches(b, "kanji"@) {
        Some(Tag::SearchType(SearchTarget::Kanji))
    } else if ci_matches(b, "sentence"@) || ci_matches(b, "sentences"@) {
        Some(Tag::SearchType(SearchTarget::Sentences))
    } else if ci_matches(b, "name"@) || ci_matches(b, "names"@) {
        Some(Tag::SearchType(SearchTarget::Names))
    } else if ci_matches(b, "word"@) || ci_matches(b, "words"@) {
        Some(Tag::SearchType(SearchTarget::Words))
    } else if ci_matches(b, "abbreviation"@) || ci_matches(b, "abbrev"@) {
        Some(Tag::Misc(Misc::Abbreviation))
    } else {
        None
    }
}

/// A part-of-speech keyword.
pub open spec fn pos_of(b: Seq<char>) -> Option<PosSimple> {
    if ci_matches(b, "adjective"@) || ci_matches(b, "adj"@) {
        Some(PosSimple::Adjective)
    } else if ci_matches(b, "adverb"@) || ci_matches(b, "adv"@) {
        Some(PosSimple::Adverb)
    } else if ci_matches(b, "auxilary"@) || ci_matches(b, "aux"@) {
        Some(PosSimple::Auxilary)
    } else if ci_matches(b, "conjungation"@) || ci_matches(b, "conj"@) {
        Some(PosSimple::Conjungation)
    } else if ci_matches(b, "counter"@) {
        Some(PosSimple::Counter)
    } else if ci_matches(b, "expression"@) || ci_matches(b, "expr"@) {
        Some(PosSimple::Expr)
    } else if ci_matches(b, "interjection"@) || ci_matches(b, "interj"@) {
        Some(PosSimple::Interjection)
    } else if ci_matches(b, "noun"@) {
        Some(PosSimple::Noun)
    } else if ci_matches(b, "numeric"@) || ci_matches(b, "num"@) {
        Some(PosSimple::Numeric)
    } else if ci_matches(b, "pronoun"@) {
        Some(PosSimple::Pronoun)
    } else if ci_matches(b, "particle"@) {
        Some(PosSimple::Particle)
    } else if ci_matches(b, "prefix"@) {
        Some(PosSimple::Prefix)
    } else if ci_matches(b, "suffix"@) {
        Some(PosSimple::Suffix)
    } else if ci_matches(b, "verb"@) {
        Some(PosSimple::Verb)
    } else {
        None
    }
}

/// `s` is `#` followed by a body.
pub open spec fn is_hash_token(s: Seq<char>) -> bool {
    s.len() >= 1 && s[0] == '#'
}

/// The tag written by `s`; the parsers are tried in a fixed order.
pub open spec fn tag_of(s: Seq<char>) -> Option<Tag> {
    if !is_hash_token(s) {
        None
    } else {
        let b = s.drop_first();
        if keyword_tag(b) is Some {
            keyword_tag(b)
        } else if genki_tag(b) is Some {
            genki_tag(b)
        } else if jlpt_tag(b) is Some {
            jlpt_tag(b)
        } else if search_type_tag(b) is Some {
            search_type_tag(b)
        } else {
            match pos_of(b) {
                Some(p) => Some(Tag::PartOfSpeech(p)),
                None => None,
            }
        }
    }
}

pub proof fn lemma_digits_value_prefix(d: Seq<char>, i: int, j: int)
    requires
        0 <= i <= j <= d.len(),
    ensures
        digits_value(d.subrange(0, i)) <= digits_value(d.subrange(0, j)),
    decreases j - i,
{
    if i < j {
        lemma_digits_value_prefix(d, i, j - 1);
        assert(d.subrange(0, j).drop_last() =~= d.subrange(0, j - 1));
    }
}

/// Reads `s[from..]` as a `u8` the way `u8::from_str` does.
fn parse_u8_from(s: &Vec<char>, from: usize) -> (r: Option<u8>)
    requires
        from <= s@.len(),
    ensures
        r == u8_value(s@.subrange(from as int, s@.len() as int)),
{
    let ghost t = s@.subrange(from as int, s@.len() as int);
    let mut start = from;
    if start < s.len() && s[start] == '+' {
        start += 1;
    }
    let ghost d = s@.subrange(start as int, s@.len() as int);
    assert(d =~= unsigned_digits(t));
    if start == s.len() {
        return None;
    }
    let mut acc: u32 = 0;
    let mut i = start;
    while i < s.len()
        invariant
            start <= i <= s@.len(),
            t == s@.subrange(from as int, s@.len() as int),
            d == unsigned_digits(t),
            d == s@.subrange(start as int, s@.len() as int),
            all_digits(s@.subrange(start as int, i as int)),
            acc as nat == digits_value(s@.subrange(start as int, i as int)),
            acc <= 255,
        decreases s@.len() - i,
    {
        let c = s[i];
        assert(s@.subrange(start as int, i + 1).drop_last() =~= s@.subrange(start as int, i as int));
        if !('0' as u32 <= c as u32 && c as u32 <= '9' as u32) {
            assert(d[i - start] == c);
            assert(!all_digits(d));
            return None;
        }
        acc = acc * 10 + (c as u32 - '0' as u32);
        if acc > 255 {
            assert(d.subrange(0, i + 1 - start) =~= s@.subrange(start as int, i + 1));
            proof {
                assert(d.subrange(0, d.len() as int) =~= d);
                lemma_digits_value_prefix(d, i + 1 - start, d.len() as int);
            }
            return None;
        }
        i += 1;
    }
    assert(s@.subrange(start as int, i as int) =~= d);
    Some(acc as u8)
}

fn keyword_tag_exec(s: &Vec<char>) -> (r: Option<Tag>)
    requires
        s@.len() >= 1,
    ensures
        r == keyword_tag(s@.drop_first()),
{
    assert(s@.subrange(1, s@.len() as int) =~= s@.drop_first());
    if ci_matches_from(s, 1, "hidden") || ci_matches_from(s, 1, "hide") {
        Some(Tag::Hidden)
    } else if ci_matches_from(s, 1, "irrichidan") || ci_matches_from(s, 1, "irregularichidan")
        || ci_matches_from(s, 1, "irregular-ichidan") {
        Some(Tag::IrregularIruEru)
    } else {
        None
    }
}

/// Returns the lesson tag if `s` is `#genkiN` with `3 <= N <= 23`.
pub fn parse_genki_tag(s: &str) -> (r: Option<Tag>)
    ensures
        is_hash_token(s@) ==> r == genki_tag(s@.drop_first()),
        !is_hash_token(s@) ==> r is None,
{
    let v = chars_of(s);
    if v.len() == 0 || v[0] != '#' {
        return None;
    }
    genki_tag_exec(&v)
}

fn genki_tag_exec(s: &Vec<char>) -> (r: Option<Tag>)
    requires
        s@.len() >= 1,
    ensures
        r == genki_tag(s@.drop_first()),
{
    let ghost b = s@.drop_first();
    if s.len() < 6 {
        return None;
    }
    if !ci_matches_range(s, 1, 6, "genki") {
        assert(s@.subrange(1, 6) =~= b.subrange(0, 5));
        return None;
    }
    assert(s@.subrange(1, 6) =~= b.subrange(0, 5));
    let n = parse_u8_from(s, 6);
    assert(s@.subrange(6, s@.len() as int) =~= b.subrange(5, b.len() as int));
    match n {
        Some(n) => if 3 <= n && n <= 23 {
            Some(Tag::GenkiLesson(n))
        } else {
            None
        },
        None => None,
    }
}

/// Returns the JLPT tag if `s` is `#nN` with `1 <= N <= 5`.
pub fn parse_jlpt_tag(s: &str) -> (r: Option<Tag>)
    ensures
        is_hash_token(s@) ==> r == jlpt_tag(s@.drop_first()),
        !is_hash_token(s@) ==> r is None,
{
    let v = chars_of(s);
    if v.len() == 0 || v[0] != '#' {
        return None;
    }
    jlpt_tag_exec(&v)
}

fn jlpt_tag_exec(s: &Vec<char>) -> (r: Option<Tag>)
    requires
        s@.len() >= 1,
    ensures
        r == jlpt_tag(s@.drop_first()),
{
    if s.len() < 2 || !ci_eq_char(s[1], 'n') {
        return None;
    }
    let n = parse_u8_from(s, 2);
    assert(s@.subrange(2, s@.len() as int) =~= s@.drop_first().subrange(1, s@.len() - 1));
    match n {
        Some(n) => if 1 <= n && n <= 5 {
            Some(Tag::Jlpt(n))
        } else {
            None
        },
        None => None,
    }
}

/// Returns the search-type tag if `s` is `#` and a search target keyword.
pub fn parse_search_type(s: &str) -> (r: Option<Tag>)
    ensures
        is_hash_token(s@) ==> r == search_type_tag(s@.drop_first()),
        !is_hash_token(s@) ==> r is None,
{
    let v = chars_of(s);
    if v.len() == 0 || v[0] != '#' {
        return None;
    }
    search_type_exec(&v)
}

fn search_type_exec(s: &Vec<char>) -> (r: Option<Tag>)
    requires
        s@.len() >= 1,
    ensures
        r == search_type_tag(s@.drop_first()),
{
    assert(s@.subrange(1, s@.len() as int) =~= s@.drop_first());
    if ci_matches_from(s, 1, "kanji") {
        Some(Tag::SearchType(SearchTarget::Kanji))
    } else if ci_matches_from(s, 1, "sentence") || ci_matches_from(s, 1, "sentences") {
        Some(Tag::SearchType(SearchTarget::Sentences))
    } else if ci_matches_from(s, 1, "name") || ci_matches_from(s, 1, "names") {
        Some(Tag::SearchType(SearchTarget::Names))
    } else if ci_matches_from(s, 1, "word") || ci_matches_from(s, 1, "words") {
        Some(Tag::SearchType(SearchTarget::Words))
    } else if ci_matches_from(s, 1, "abbreviation") || ci_matches_from(s, 1, "abbrev") {
        Some(Tag::Misc(Misc::Abbreviation))
    } else {
        None
    }
}

fn pos_exec(s: &Vec<char>) -> (r: Option<PosSimple>)
    requires
        s@.len() >= 1,
    ensures
        r == pos_of(s@.drop_first()),
{
    assert(s@.subrange(1, s@.len() as int) =~= s@.drop_first());
    if ci_matches_from(s, 1, "adjective") || ci_matches_from(s, 1, "adj") {
        Some(PosSimple::Adjective)
    } else if ci_matches_from(s, 1, "adverb") || ci_matches_from(s, 1, "adv") {
        Some(PosSimple::Adverb)
    } else if ci_matches_from(s, 1, "auxilary") || ci_matches_from(s, 1, "aux") {
        Some(PosSimple::Auxilary)
    } else if ci_matches_from(s, 1, "conjungation") || ci_matches_from(s, 1, "conj") {
        Some(PosSimple::Conjungation)
    } else if ci_matches_from(s, 1, "counter") {
        Some(PosSimple::Counter)
    } else if ci_matches_from(s, 1, "expression") || ci_matches_from(s, 1, "expr") {
        Some(PosSimple::Expr)
    } else if ci_matches_from(s, 1, "interjection") || ci_matches_from(s, 1, "interj") {
        Some(PosSimple::Interjection)
    } else if ci_matches_from(s, 1, "noun") {
        Some(PosSimple::Noun)
    } else if ci_matches_from(s, 1, "numeric") || ci_matches_from(s, 1, "num") {
        Some(PosSimple::Numeric)
    } else if ci_matches_from(s, 1, "pronoun") {
        Some(PosSimple::Pronoun)
    } else if ci_matches_from(s, 1, "particle") {
        Some(PosSimple::Particle)
    } else if ci_matches_from(s, 1, "prefix") {
        Some(PosSimple::Prefix)
    } else if ci_matches_from(s, 1, "suffix") {
        Some(PosSimple::Suffix)
    } else if ci_matches_from(s, 1, "verb") {
        Some(PosSimple::Verb)
    } else {
        None
    }
}

/// The tag written by the characters `s`.
pub fn parse_chars(s: &Vec<char>) -> (r: Option<Tag>)
    ensures
        r == tag_of(s@),
{
    if s.len() == 0 || s[0] != '#' {
        return None;
    }
    let k = keyword_tag_exec(s);
    if k.is_some() {
        return k;
    }
    let g = genki_tag_exec(s);
    if g.is_some() {
        return g;
    }
    let j = jlpt_tag_exec(s);
    if j.is_some() {
        return j;
    }
    let t = search_type_exec(s);
    if t.is_some() {
        return t;
    }
    match pos_exec(s) {
        Some(p) => Some(Tag::PartOfSpeech(p)),
        None => None,
    }
}

/// Parses a tag such as `#n4` or `#kanji`; case is ignored. Unknown text gives `None`.
pub fn parse(s: &str) -> (r: Option<Tag>)
    ensures
        r == tag_of(s@),
{
    let v = chars_of(s);
    parse_chars(&v)
}

/// A character that may continue a tag token after its `#`.
pub open spec fn is_tag_char(c: char) -> bool {
    ('a' as u32 <= c as u32 <= 'z' as u32) || ('A' as u32 <= c as u32 <= 'Z' as u32) || (
    '0' as u32 <= c as u32 <= '9' as u32) || c == '-'
}

/// The end of the run of tag characters that starts at `i`.
pub open spec fn token_end(s: Seq<char>, i: int) -> int
    decreases s.len() - i,
{
    if 0 <= i < s.len() && is_tag_char(s[i]) {
        token_end(s, i + 1)
    } else {
        i
    }
}

pub proof fn lemma_token_end_bounds(s: Seq<char>, i: int)
    requires
        0 <= i <= s.len(),
    ensures
        i <= token_end(s, i) <= s.len(),
        token_end(s, i) < s.len() ==> !is_tag_char(s[token_end(s, i)]),
        forall|j: int| i <= j < token_end(s, i) ==> is_tag_char(#[trigger] s[j]),
    decreases s.len() - i,
{
    if i < s.len() && is_tag_char(s[i]) {
        lemma_token_end_bounds(s, i + 1);
    }
}

/// Where the scan resumes after a removed token that ends at `e`: one
/// following space goes with the token.
pub open spec fn skip_space(s: Seq<char>, e: int) -> int {
    if 0 <= e < s.len() && s[e] == ' ' {
        e + 1
    } else {
        e
    }
}

/// Scans `s` from `i`: every `#` starts a token, which `p` maps to an
/// optional tag and whether to remove it. A tag is collected; a removed token
/// goes with one following space; everything else is kept.
pub open spec fn scan(s: Seq<char>, i: int, p: spec_fn(Seq<char>) -> (Option<Tag>, bool)) -> (Seq<char>, Seq<Tag>)
    decreases s.len() - i, 1int,
    via scan_decreases
{
    if i < 0 || i >= s.len() {
        (Seq::empty(), Seq::empty())
    } else if s[i] == '#' {
        let e = token_end(s, i + 1);
        let t = s.subrange(i, e);
        let found = match p(t).0 {
            Some(tag) => seq![tag],
            None => Seq::empty(),
        };
        if p(t).1 {
            let rest = scan(s, skip_space(s, e), p);
            (rest.0, found + rest.1)
        } else {
            let rest = scan(s, e, p);
            (t + rest.0, found + rest.1)
        }
    } else {
        let rest = scan(s, i + 1, p);
        (seq![s[i]] + rest.0, rest.1)
    }
}

#[via_fn]
proof fn scan_decreases(s: Seq<char>, i: int, p: spec_fn(Seq<char>) -> (Option<Tag>, bool)) {
    if 0 <= i < s.len() && s[i] == '#' {
        lemma_token_end_bounds(s, i + 1);
    }
}

/// The query without the removed tokens, right-trimmed, and the tags in
/// order of appearance.
pub open spec fn extraction(s: Seq<char>, p: spec_fn(Seq<char>) -> (Option<Tag>, bool)) -> (Seq<char>, Seq<Tag>) {
    (rtrim(scan(s, 0, p).0), scan(s, 0, p).1)
}

/// The usual rule: a token that names a tag is removed; others stay.
pub open spec fn standard_rule() -> spec_fn(Seq<char>) -> (Option<Tag>, bool) {
    |t: Seq<char>| (tag_of(t), tag_of(t) is Some)
}

/// Calls `parse` on every `#` token of `inp` in order: collects the tags it
/// gives and removes (with one following space) the tokens it asks to remove.
/// The rest is returned right-trimmed. `p` is what `parse` computes.
pub fn extract_parse<F: Fn(&str) -> (Option<Tag>, bool)>(
    inp: &str,
    parse: F,
    Ghost(p): Ghost<spec_fn(Seq<char>) -> (Option<Tag>, bool)>,
) -> (r: (String, Vec<Tag>))
    requires
        forall|t: &str| parse.requires((t,)),
        forall|t: &str, x: (Option<Tag>, bool)| parse.ensures((t,), x) ==> x == p(t@),
    ensures
        r.0@ == extraction(inp@, p).0,
        r.1@ == extraction(inp@, p).1,
{
    let s = chars_of(inp);
    let mut out: Vec<char> = Vec::new();
    let mut tags: Vec<Tag> = Vec::new();
    let mut i: usize = 0;
    while i < s.len()
        invariant
            s@ == inp@,
            i <= s@.len(),
            forall|t: &str| parse.requires((t,)),
            forall|t: &str, x: (Option<Tag>, bool)| parse.ensures((t,), x) ==> x == p(t@),
            out@ + scan(s@, i as int, p).0 == scan(s@, 0, p).0,
            tags@ + scan(s@, i as int, p).1 == scan(s@, 0, p).1,
        decreases s@.len() - i,
    {
        let ghost old_out = out@;
        let ghost old_tags = tags@;
        if s[i] == '#' {
            proof {
                lemma_token_end_bounds(s@, i + 1);
            }
            let mut e = i + 1;
            while e < s.len() && is_tag_char_exec(s[e])
                invariant
                    i + 1 <= e <= s@.len(),
                    token_end(s@, e as int) == token_end(s@, i + 1),
                decreases s@.len() - e,
            {
                e += 1;
            }
            let mut t: Vec<char> = Vec::new();
            let mut j = i;
            while j < e
                invariant
                    i <= j <= e <= s@.len(),
                    t@ =~= s@.subrange(i as int, j as int),
                decreases e - j,
            {
                t.push(s[j]);
                j += 1;
            }
            let token = string_of(&t);
            let (tag, remove) = parse(token.as_str());
            let ghost found = match tag {
                Some(x) => seq![x],
                None => Seq::<Tag>::empty(),
            };
            match tag {
                Some(x) => tags.push(x),
                None => {},
            }
            assert(tags@ =~= old_tags + found);
            if remove {
                if e < s.len() && s[e] == ' ' {
                    e += 1;
                }
                proof {
                    assert((old_tags + found) + scan(s@, e as int, p).1 =~= old_tags + (found + scan(s@, e as int, p).1));
                }
                i = e;
            } else {
                let mut j: usize = 0;
                while j < t.len()
                    invariant
                        j <= t@.len(),
                        out@ =~= old_out + t@.subrange(0, j as int),
                    decreases t@.len() - j,
                {
                    out.push(t[j]);
                    j += 1;
                }
                proof {
                    assert(out@ =~= old_out + t@);
                    assert((old_out + t@) + scan(s@, e as int, p).0 =~= old_out + (t@ + scan(s@, e as int, p).0));
                    assert((old_tags + found) + scan(s@, e as int, p).1 =~= old_tags + (found + scan(s@, e as int, p).1));
                }
                i = e;
            }
        } else {
            out.push(s[i]);
            proof {
                assert((old_out + seq![s@[i as int]]) + scan(s@, i + 1, p).0 =~= old_out + (seq![
                    s@[i as int],
                ] + scan(s@, i + 1, p).0));
            }
            i += 1;
        }
    }
    proof {
        assert(out@ + Seq::<char>::empty() =~= out@);
        assert(tags@ + Seq::<Tag>::empty() =~= tags@);
    }
    let trimmed = rtrim_chars(&out);
    (string_of(&trimmed), tags)
}

/// Extracts the tags of `inp` by the usual rule: tokens that name a tag are
/// removed with one following space, others stay.
pub fn extract_tags(inp: &str) -> (r: (String, Vec<Tag>))
    ensures
        r.0@ == extraction(inp@, standard_rule()).0,
        r.1@ == extraction(inp@, standard_rule()).1,
{
    let rule = |t: &str| -> (x: (Option<Tag>, bool))
        ensures
            x == (tag_of(t@), tag_of(t@) is Some),
        {
            let tag = parse(t);
            (tag, tag.is_some())
        };
    extract_parse(inp, rule, Ghost(standard_rule()))
}

/// `p` neither removes a `#` token of `t` from position `i` on nor finds a tag in it.
pub open spec fn keeps_from(t: Seq<char>, i: int, p: spec_fn(Seq<char>) -> (Option<Tag>, bool)) -> bool {
    forall|j: int|
        i <= j < t.len() && #[trigger] t[j] == '#' ==> !p(t.subrange(j, token_end(t, j + 1))).1
}

/// `p` finds no tag in a `#` token of `t` from position `i` on.
pub open spec fn tagless_from(t: Seq<char>, i: int, p: spec_fn(Seq<char>) -> (Option<Tag>, bool)) -> bool {
    forall|j: int|
        i <= j < t.len() && #[trigger] t[j] == '#' ==> p(t.subrange(j, token_end(t, j + 1))).0 is None
}

/// No `#` token of `t` names a tag.
pub open spec fn no_tags(t: Seq<char>) -> bool {
    tagless_from(t, 0, standard_rule())
}

proof fn lemma_scan_keeps(t: Seq<char>, i: int, p: spec_fn(Seq<char>) -> (Option<Tag>, bool))
    requires
        0 <= i <= t.len(),
        keeps_from(t, i, p),
    ensures
        scan(t, i, p).0 == t.subrange(i, t.len() as int),
    decreases t.len() - i,
{
    if i < t.len() {
        if t[i] == '#' {
            let e = token_end(t, i + 1);
            lemma_token_end_bounds(t, i + 1);
            lemma_scan_keeps(t, e, p);
            assert(t.subrange(i, e) + t.subrange(e, t.len() as int) =~= t.subrange(i, t.len() as int));
        } else {
            lemma_scan_keeps(t, i + 1, p);
            assert(seq![t[i]] + t.subrange(i + 1, t.len() as int) =~= t.subrange(i, t.len() as int));
        }
    } else {
        assert(t.subrange(i, t.len() as int) =~= Seq::<char>::empty());
    }
}

proof fn lemma_scan_tagless(t: Seq<char>, i: int, p: spec_fn(Seq<char>) -> (Option<Tag>, bool))
    requires
        0 <= i <= t.len(),
        tagless_from(t, i, p),
    ensures
        scan(t, i, p).1 == Seq::<Tag>::empty(),
    decreases t.len() - i,
{
    if i < t.len() {
        if t[i] == '#' {
            let e = token_end(t, i + 1);
            lemma_token_end_bounds(t, i + 1);
            let k = if p(t.subrange(i, e)).1 { skip_space(t, e) } else { e };
            assert forall|j: int| k <= j < t.len() && #[trigger] t[j] == '#' implies p(t.subrange(j, token_end(t, j + 1))).0 is None by {}
            lemma_scan_tagless(t, k, p);
            assert(Seq::<Tag>::empty() + Seq::<Tag>::empty() =~= Seq::<Tag>::empty());
        } else {
            lemma_scan_tagless(t, i + 1, p);
        }
    }
}

proof fn lemma_scan_finds_tags(t: Seq<char>, i: int, p: spec_fn(Seq<char>) -> (Option<Tag>, bool))
    requires
        0 <= i <= t.len(),
        scan(t, i, p).1.len() == 0,
    ensures
        tagless_from(t, i, p),
    decreases t.len() - i,
{
    if i < t.len() {
        if t[i] == '#' {
            let e = token_end(t, i + 1);
            lemma_token_end_bounds(t, i + 1);
            let k = if p(t.subrange(i, e)).1 { skip_space(t, e) } else { e };
            lemma_scan_finds_tags(t, k, p);
            assert forall|j: int| i <= j < t.len() && #[trigger] t[j] == '#' implies p(
                t.subrange(j, token_end(t, j + 1)),
            ).0 is None by {
                if i < j < e {
                    assert(is_tag_char(t[j]));
                }
            }
        } else {
            lemma_scan_finds_tags(t, i + 1, p);
        }
    }
}

pub proof fn lemma_rtrim_idempotent(s: Seq<char>)
    ensures
        rtrim(rtrim(s)) == rtrim(s),
    decreases s.len(),
{
    if s.len() > 0 && is_ws(s.last()) {
        lemma_rtrim_idempotent(s.drop_last());
    }
}

/// A parse function that asks to remove no token leaves the text as it is,
/// only right-trimmed; one that finds no tag yields no tags.
pub proof fn lemma_extraction_keeps_text(s: Seq<char>, p: spec_fn(Seq<char>) -> (Option<Tag>, bool))
    ensures
        (forall|t: Seq<char>| !(#[trigger] p(t)).1) ==> extraction(s, p).0 == rtrim(s),
        (forall|t: Seq<char>| (#[trigger] p(t)).0 is None) ==> extraction(s, p).1 == Seq::<Tag>::empty(),
{
    if forall|t: Seq<char>| !(#[trigger] p(t)).1 {
        lemma_scan_keeps(s, 0, p);
        assert(s.subrange(0, s.len() as int) =~= s);
    }
    if forall|t: Seq<char>| (#[trigger] p(t)).0 is None {
        lemma_scan_tagless(s, 0, p);
    }
}

/// Extraction by the usual rule is idempotent exactly when the extracted text
/// holds no tag token: then extracting again finds no tags and leaves the text
/// as it is; otherwise it finds a tag.
pub proof fn lemma_extraction_idempotent(s: Seq<char>)
    ensures
        extraction(extraction(s, standard_rule()).0, standard_rule()).1 == Seq::<Tag>::empty()
            <==> no_tags(extraction(s, standard_rule()).0),
        no_tags(extraction(s, standard_rule()).0) ==> extraction(
            extraction(s, standard_rule()).0,
            standard_rule(),
        ).0 == extraction(s, standard_rule()).0,
{
    let p = standard_rule();
    let t = extraction(s, p).0;
    if !no_tags(t) {
        if scan(t, 0, p).1.len() == 0 {
            lemma_scan_finds_tags(t, 0, p);
        }
    } else {
        lemma_scan_tagless(t, 0, p);
        assert(keeps_from(t, 0, p));
        lemma_scan_keeps(t, 0, p);
        assert(t.subrange(0, t.len() as int) =~= t);
        lemma_rtrim_idempotent(scan(s, 0, p).0);
    }
}

fn is_tag_char_exec(c: char) -> (r: bool)
    ensures
        r == is_tag_char(c),
{
    let u = c as u32;
    ('a' as u32 <= u && u <= 'z' as u32) || ('A' as u32 <= u && u <= 'Z' as u32) || ('0' as u32
        <= u && u <= '9' as u32) || c == '-'
}

} // verus!
