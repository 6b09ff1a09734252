//! Autocomplete suggestions: the source-file format, prefix lookup per
//! language, pairing of kana and kanji readings, promotion of exact matches
//! and the bound on the number of entries.
use vstd::prelude::*;
use crate::language::Language;
use crate::text::{chars_of, string_of, is_ascii_digit};
use crate::tags::{all_digits, digits_value, lemma_digits_value_prefix};
use crate::japanese::{is_japanese_char, is_roman_letter_char, spec_is_hiragana, is_hiragana, roman_letter};
use crate::query::{lang_of, parse_language, Query, QueryLang};
use crate::kanji::starts_with;
use romaji::RomajiExt;

verus! {

/// The largest number of suggestions returned.
pub const MAX_RESULTS: usize = 10;

/// The longest input, in characters, that a suggestion is searched for.
pub const MAX_INPUT_LEN: usize = 37;

/// A request for suggestions.
#[derive(Clone, Debug)]
pub struct SuggestionRequest {
    pub input: String,
    pub lang: String,
}

/// The suggestions found.
#[derive(Clone, Debug)]
pub struct SuggestionResponse {
    pub suggestions: Vec<WordPair>,
}

/// A word with its kana and, if it has one, its kanji form.
#[derive(Clone, Debug)]
pub struct WordPair {
    pub primary: String,
    pub secondary: Option<String>,
}

/// One line of a suggestion source: a text and the sequence of its entry.
#[derive(Clone, Debug)]
pub struct SuggestionItem {
    pub text: String,
    pub sequence: i32,
}

/// Why suggestions could not be given.
#[derive(Clone, Copy, Debug, PartialEq, Eq, Structural)]
pub enum SuggestionError {
    BadRequest,
    Timeout,
}

/// The pair reads or is written exactly as `reading`.
pub open spec fn pair_has_reading(p: WordPair, reading: Seq<char>) -> bool {
    p.primary@ == reading || (p.secondary matches Some(s) && s@ == reading)
}

impl WordPair {
    /// Returns true if the pair reads or is written exactly as `reading`.
    pub fn has_reading(&self, reading: &str) -> (r: bool)
        ensures
            r == pair_has_reading(*self, reading@),
    {
        let owned = reading.to_owned();
        if self.primary == owned {
            return true;
        }
        match &self.secondary {
            Some(s) => *s == owned,
            None => false,
        }
    }
}

impl SuggestionItem {
    pub fn get_text(&self) -> (r: &str)
        ensures
            r@ == self.text@,
    {
        self.text.as_str()
    }
}

/// The pairs of `s` that have the reading `q`, in order.
pub open spec fn exact_part(s: Seq<WordPair>, q: Seq<char>) -> Seq<WordPair>
    decreases s.len(),
{
    if s.len() == 0 {
        Seq::empty()
    } else if pair_has_reading(s[0], q) {
        seq![s[0]] + exact_part(s.drop_first(), q)
    } else {
        exact_part(s.drop_first(), q)
    }
}

/// The pairs of `s` that do not have the reading `q`, in order.
pub open spec fn other_part(s: Seq<WordPair>, q: Seq<char>) -> Seq<WordPair>
    decreases s.len(),
{
    if s.len() == 0 {
        Seq::empty()
    } else if pair_has_reading(s[0], q) {
        other_part(s.drop_first(), q)
    } else {
        seq![s[0]] + other_part(s.drop_first(), q)
    }
}

/// Exact matches of `q` first; the order is kept otherwise.
pub open spec fn exact_first(s: Seq<WordPair>, q: Seq<char>) -> Seq<WordPair> {
    exact_part(s, q) + other_part(s, q)
}

proof fn lemma_parts(s: Seq<WordPair>, q: Seq<char>)
    ensures
        forall|i: int| 0 <= i < exact_part(s, q).len() ==> pair_has_reading(#[trigger] exact_part(s, q)[i], q),
        forall|i: int| 0 <= i < other_part(s, q).len() ==> !pair_has_reading(#[trigger] other_part(s, q)[i], q),
        exact_part(s, q).len() + other_part(s, q).len() == s.len(),
    decreases s.len(),
{
    if s.len() > 0 {
        lemma_parts(s.drop_first(), q);
        let e = exact_part(s.drop_first(), q);
        let o = other_part(s.drop_first(), q);
        if pair_has_reading(s[0], q) {
            assert forall|i: int| 0 <= i < exact_part(s, q).len() implies pair_has_reading(#[trigger] exact_part(s, q)[i], q) by {
                if i > 0 {
                    assert(exact_part(s, q)[i] == e[i - 1]);
                }
            }
        } else {
            assert forall|i: int| 0 <= i < other_part(s, q).len() implies !pair_has_reading(#[trigger] other_part(s, q)[i], q) by {
                if i > 0 {
                    assert(other_part(s, q)[i] == o[i - 1]);
                }
            }
        }
    }
}

/// Puts the pairs that have the reading `query` first, keeping the order otherwise.
pub fn order_exact_first(pairs: Vec<WordPair>, query: &str) -> (r: Vec<WordPair>)
    ensures
        r@ == exact_first(pairs@, query@),
{
    let mut rest = pairs;
    let mut front: Vec<WordPair> = Vec::new();
    let mut back: Vec<WordPair> = Vec::new();
    let ghost all = rest@;
    while rest.len() > 0
        invariant
            front@ + exact_part(rest@, query@) == exact_part(all, query@),
            back@ + other_part(rest@, query@) == other_part(all, query@),
        decreases rest@.len(),
    {
        let ghost prev = rest@;
        let p = rest.remove(0);
        assert(prev.drop_first() =~= rest@);
        if p.has_reading(query) {
            let ghost f = front@;
            front.push(p);
            assert(f.push(p) + exact_part(rest@, query@) =~= f + (seq![p] + exact_part(rest@, query@)));
        } else {
            let ghost b = back@;
            back.push(p);
            assert(b.push(p) + other_part(rest@, query@) =~= b + (seq![p] + other_part(rest@, query@)));
        }
    }
    assert(front@ + Seq::<WordPair>::empty() =~= front@);
    assert(back@ + Seq::<WordPair>::empty() =~= back@);
    front.append(&mut back);
    front
}

/// The response for the pairs found for `query`: at most ten of them, exact
/// matches of `query` first.
pub fn suggestion_response(pairs: Vec<WordPair>, query: &str) -> (r: SuggestionResponse)
    ensures
        r.suggestions@ == exact_first(pairs@.take(if pairs@.len() > 10 { 10 } else { pairs@.len() as int }), query@),
        r.suggestions@.len() <= MAX_RESULTS,
        forall|i: int, j: int|
            0 <= i < j < r.suggestions@.len() && pair_has_reading(#[trigger] r.suggestions@[j], query@)
                ==> pair_has_reading(#[trigger] r.suggestions@[i], query@),
{
    let mut p = pairs;
    let ghost all = p@;
    p.truncate(MAX_RESULTS);
    assert(p@ =~= all.take(if all.len() > 10 { 10 } else { all.len() as int }));
    let ordered = order_exact_first(p, query);
    proof {
        let s = all.take(if all.len() > 10 { 10 } else { all.len() as int });
        lemma_parts(s, query@);
        let e = exact_part(s, query@);
        let o = other_part(s, query@);
        assert forall|i: int, j: int|
            0 <= i < j < ordered@.len() && pair_has_reading(#[trigger] ordered@[j], query@)
                implies pair_has_reading(#[trigger] ordered@[i], query@) by {
            if j >= e.len() {
                assert(ordered@[j] == o[j - e.len()]);
            }
            assert(ordered@[i] == e[i]);
        }
    }
    SuggestionResponse { suggestions: ordered }
}

/// An `i32` written in decimal with an optional sign, as `i32::from_str` reads it.
pub open spec fn i32_value(s: Seq<char>) -> Option<i32> {
    let neg = s.len() > 0 && s[0] == '-';
    let d = if s.len() > 0 && (s[0] == '-' || s[0] == '+') { s.drop_first() } else { s };
    if d.len() > 0 && all_digits(d) && (if neg { digits_value(d) <= 2147483648 } else { digits_value(d) <= 2147483647 }) {
        Some((if neg { -(digits_value(d) as int) } else { digits_value(d) as int }) as i32)
    } else {
        None
    }
}

fn parse_i32(s: &Vec<char>, from: usize, to: usize) -> (r: Option<i32>)
    requires
        from <= to <= s@.len(),
    ensures
        r == i32_value(s@.subrange(from as int, to as int)),
{
    let ghost t = s@.subrange(from as int, to as int);
    let neg = from < to && s[from] == '-';
    let mut start = from;
    if from < to && (s[from] == '-' || s[from] == '+') {
        start += 1;
    }
    let ghost d = s@.subrange(start as int, to as int);
    assert(d =~= (if t.len() > 0 && (t[0] == '-' || t[0] == '+') { t.drop_first() } else { t }));
    if start == to {
        return None;
    }
    let bound: u64 = if neg { 2147483648 } else { 2147483647 };
    let mut acc: u64 = 0;
    let mut i = start;
    while i < to
        invariant
            start <= i <= to <= s@.len(),
            t == s@.subrange(from as int, to as int),
            d == s@.subrange(start as int, to as int),
            d == (if t.len() > 0 && (t[0] == '-' || t[0] == '+') { t.drop_first() } else { t }),
            neg == (t.len() > 0 && t[0] == '-'),
            bound == (if neg { 2147483648u64 } else { 2147483647u64 }),
            all_digits(s@.subrange(start as int, i as int)),
            acc as nat == digits_value(s@.subrange(start as int, i as int)),
            acc <= bound,
            bound <= 2147483648,
        decreases to - i,
    {
        let c = s[i];
        assert(s@.subrange(start as int, i + 1).drop_last() =~= s@.subrange(start as int, i as int));
        if !('0' as u32 <= c as u32 && c as u32 <= '9' as u32) {
            assert(d[i - start] == c);
            assert(!is_ascii_digit(d[i - start]));
            return None;
        }
        acc = acc * 10 + (c as u32 - '0' as u32) as u64;
        if acc > bound {
            proof {
                assert(d.subrange(0, i + 1 - start) =~= s@.subrange(start as int, i + 1));
                assert(d.subrange(0, d.len() as int) =~= d);
                lemma_digits_value_prefix(d, i + 1 - start, d.len() as int);
            }
            return None;
        }
        i += 1;
    }
    assert(s@.subrange(start as int, i as int) =~= d);
    if neg {
        Some((0 - (acc as i64)) as i32)
    } else {
        Some(acc as i32)
    }
}

/// The position of the last `,` in `s`.
pub open spec fn last_comma(s: Seq<char>) -> Option<int>
    decreases s.len(),
{
    if s.len() == 0 {
        None
    } else if s.last() == ',' {
        Some(s.len() - 1)
    } else {
        last_comma(s.drop_last())
    }
}

proof fn lemma_last_comma(s: Seq<char>)
    ensures
        last_comma(s) matches Some(c) ==> 0 <= c < s.len() && s[c] == ',',
    decreases s.len(),
{
    if s.len() > 0 && s.last() != ',' {
        lemma_last_comma(s.drop_last());
    }
}

/// A source line: free text, a comma and the sequence; the sequence is the
/// last comma-separated field. A line without a comma is a sequence alone.
pub open spec fn line_entry(s: Seq<char>) -> Option<(Seq<char>, i32)> {
    let (text, number) = match last_comma(s) {
        Some(c) => (s.subrange(0, c), s.subrange(c + 1, s.len() as int)),
        None => (Seq::empty(), s),
    };
    match i32_value(number) {
        Some(n) => Some((text, n)),
        None => None,
    }
}

/// Parses one line of a suggestion source.
pub fn parse_suggestion_line(line: &str) -> (r: Option<SuggestionItem>)
    ensures
        r is Some <==> line_entry(line@) is Some,
        r matches Some(item) ==> line_entry(line@) == Some((item.text@, item.sequence)),
{
    let v = chars_of(line);
    let mut c = v.len();
    assert(v@.subrange(0, v@.len() as int) =~= v@);
    while c > 0 && v[c - 1] != ','
        invariant
            c <= v@.len(),
            last_comma(v@.subrange(0, c as int)) == last_comma(v@),
        decreases c,
    {
        assert(v@.subrange(0, c as int).drop_last() =~= v@.subrange(0, c - 1));
        c -= 1;
    }
    proof {
        assert(v@.subrange(0, v@.len() as int) =~= v@);
    }
    if c == 0 {
        assert(last_comma(v@.subrange(0, 0)) is None);
        match parse_i32(&v, 0, v.len()) {
            Some(n) => Some(SuggestionItem { text: String::new(), sequence: n }),
            None => None,
        }
    } else {
        assert(last_comma(v@.subrange(0, c as int)) == Some(c - 1));
        match parse_i32(&v, c, v.len()) {
            Some(n) => {
                let mut t: Vec<char> = Vec::new();
                let mut i: usize = 0;
                while i < c - 1
                    invariant
                        i <= c - 1,
                        c <= v@.len(),
                        t@ =~= v@.subrange(0, i as int),
                    decreases c - 1 - i,
                {
                    t.push(v[i]);
                    i += 1;
                }
                Some(SuggestionItem { text: string_of(&t), sequence: n })
            },
            None => None,
        }
    }
}

/// Parses a whole suggestion source; one malformed line fails the source.
pub fn parse_suggestion_lines(lines: &Vec<String>) -> (r: Option<Vec<SuggestionItem>>)
    ensures
        r is Some <==> forall|i: int| 0 <= i < lines@.len() ==> line_entry(#[trigger] lines@[i]@) is Some,
        r matches Some(items) ==> items@.len() == lines@.len() && forall|i: int|
            0 <= i < lines@.len() ==> line_entry(#[trigger] lines@[i]@) == Some((items@[i].text@, items@[i].sequence)),
{
    let mut items: Vec<SuggestionItem> = Vec::new();
    let mut i: usize = 0;
    while i < lines.len()
        invariant
            i <= lines@.len(),
            items@.len() == i,
            forall|j: int| 0 <= j < i ==> line_entry(#[trigger] lines@[j]@) == Some((items@[j].text@, items@[j].sequence)),
        decreases lines@.len() - i,
    {
        match parse_suggestion_line(lines[i].as_str()) {
            Some(item) => items.push(item),
            None => {
                return None;
            },
        }
        i += 1;
    }
    Some(items)
}

/// The pairs for the items from position `i` on whose text starts with `q`,
/// at most `budget` of them.
pub open spec fn prefix_pairs(items: Seq<SuggestionItem>, q: Seq<char>, i: int, budget: nat) -> Seq<Seq<char>>
    decreases items.len() - i,
{
    if i < 0 || i >= items.len() || budget == 0 {
        Seq::empty()
    } else if starts_with(items[i].text@, q) {
        seq![items[i].text@] + prefix_pairs(items, q, i + 1, (budget - 1) as nat)
    } else {
        prefix_pairs(items, q, i + 1, budget)
    }
}

/// The texts of the first ten items that start with `query`, as pairs without
/// a secondary form.
pub fn prefix_search(items: &Vec<SuggestionItem>, query: &str) -> (r: Vec<WordPair>)
    ensures
        r@.len() <= MAX_RESULTS,
        r@.map_values(|p: WordPair| p.primary@) == prefix_pairs(items@, query@, 0, 10),
        forall|k: int| 0 <= k < r@.len() ==> (#[trigger] r@[k]).secondary is None,
{
    let q = chars_of(query);
    let mut out: Vec<WordPair> = Vec::new();
    let mut i: usize = 0;
    let ghost all = prefix_pairs(items@, query@, 0, 10);
    while i < items.len() && out.len() < MAX_RESULTS
        invariant
            i <= items@.len(),
            q@ == query@,
            out@.len() <= MAX_RESULTS,
            all == prefix_pairs(items@, query@, 0, 10),
            out@.map_values(|p: WordPair| p.primary@) + prefix_pairs(items@, query@, i as int, (10 - out@.len()) as nat) == all,
            forall|k: int| 0 <= k < out@.len() ==> (#[trigger] out@[k]).secondary is None,
        decreases items@.len() - i,
    {
        let t = chars_of(items[i].text.as_str());
        let ghost prev = out@.map_values(|p: WordPair| p.primary@);
        if text_starts_with(&t, &q) {
            let text = items[i].text.clone();
            out.push(WordPair { primary: text, secondary: None });
            assert(out@.map_values(|p: WordPair| p.primary@) =~= prev.push(items@[i as int].text@));
            assert(prev.push(items@[i as int].text@) + prefix_pairs(items@, query@, i + 1, (10 - out@.len()) as nat) =~= prev + (seq![items@[i as int].text@] + prefix_pairs(items@, query@, i + 1, (10 - out@.len()) as nat)));
        }
        i += 1;
    }
    assert(prefix_pairs(items@, query@, i as int, (10 - out@.len()) as nat) == Seq::<Seq<char>>::empty());
    assert(out@.map_values(|p: WordPair| p.primary@) + Seq::<Seq<char>>::empty() =~= out@.map_values(|p: WordPair| p.primary@));
    out
}

fn text_starts_with(t: &Vec<char>, q: &Vec<char>) -> (r: bool)
    ensures
        r == starts_with(t@, q@),
{
    if q.len() > t.len() {
        return false;
    }
    let mut k: usize = 0;
    while k < q.len()
        invariant
            k <= q@.len() <= t@.len(),
            forall|j: int| 0 <= j < k ==> t@[j] == q@[j],
        decreases q@.len() - k,
    {
        if t[k] != q[k] {
            assert(t@.subrange(0, q@.len() as int)[k as int] != q@[k as int]);
            return false;
        }
        k += 1;
    }
    assert(t@.subrange(0, q@.len() as int) =~= q@);
    true
}

/// The suggestion sources of each loaded language.
#[derive(Clone, Debug)]
pub struct SuggestionRegistry {
    pub languages: Vec<(Language, Vec<SuggestionItem>)>,
}

/// The first source loaded for `lang`, from position `i` on.
pub open spec fn registry_for(r: Seq<(Language, Vec<SuggestionItem>)>, lang: Language, i: int) -> Option<int>
    decreases r.len() - i,
{
    if i < 0 || i >= r.len() {
        None
    } else if r[i].0 == lang {
        Some(i)
    } else {
        registry_for(r, lang, i + 1)
    }
}

impl SuggestionRegistry {
    /// Prefix search in the source of `lang`; `None` if no source was loaded for it.
    pub fn search(&self, query: &str, lang: Language) -> (r: Option<Vec<WordPair>>)
        ensures
            registry_for(self.languages@, lang, 0) is None ==> r is None,
            registry_for(self.languages@, lang, 0) matches Some(i) ==> (r matches Some(v) && v@.len() <= MAX_RESULTS
                && v@.map_values(|p: WordPair| p.primary@) == prefix_pairs(self.languages@[i].1@, query@, 0, 10)
                && forall|k: int| 0 <= k < v@.len() ==> (#[trigger] v@[k]).secondary is None),
    {
        let mut i: usize = 0;
        while i < self.languages.len()
            invariant
                i <= self.languages@.len(),
                registry_for(self.languages@, lang, i as int) == registry_for(self.languages@, lang, 0),
            decreases self.languages@.len() - i,
        {
            if self.languages[i].0 == lang {
                return Some(prefix_search(&self.languages[i].1, query));
            }
            i += 1;
        }
        None
    }
}

/// The pair built from the readings of one entry: its first kana reading and
/// its first kanji reading; none without a kana reading.
pub open spec fn rows_pair(rows: Seq<(String, bool)>) -> Option<(Seq<char>, Option<Seq<char>>)> {
    let kana = first_row(rows, false, 0);
    let kanji = first_row(rows, true, 0);
    match kana {
        Some(a) => Some((rows[a].0@, match kanji {
            Some(b) => Some(rows[b].0@),
            None => None,
        })),
        None => None,
    }
}

/// The first row from `i` on whose kanji flag is `kanji`.
pub open spec fn first_row(rows: Seq<(String, bool)>, kanji: bool, i: int) -> Option<int>
    decreases rows.len() - i,
{
    if i < 0 || i >= rows.len() {
        None
    } else if rows[i].1 == kanji {
        Some(i)
    } else {
        first_row(rows, kanji, i + 1)
    }
}

fn find_row(rows: &Vec<(String, bool)>, kanji: bool) -> (r: Option<usize>)
    ensures
        r matches Some(i) ==> first_row(rows@, kanji, 0) == Some(i as int) && i < rows@.len(),
        r is None ==> first_row(rows@, kanji, 0) is None,
{
    let mut i: usize = 0;
    while i < rows.len()
        invariant
            i <= rows@.len(),
            first_row(rows@, kanji, i as int) == first_row(rows@, kanji, 0),
        decreases rows@.len() - i,
    {
        if rows[i].1 == kanji {
            return Some(i);
        }
        i += 1;
    }
    None
}

/// Pairs the kana reading of an entry with its kanji reading.
pub fn word_pair_from_rows(rows: &Vec<(String, bool)>) -> (r: Option<WordPair>)
    ensures
        r is Some <==> rows_pair(rows@) is Some,
        r matches Some(p) ==> rows_pair(rows@) == Some((p.primary@, match p.secondary {
            Some(s) => Some(s@),
            None => None,
        })),
{
    match find_row(rows, false) {
        Some(a) => {
            let secondary = match find_row(rows, true) {
                Some(b) => Some(rows[b].0.clone()),
                None => None,
            };
            Some(WordPair { primary: rows[a].0.clone(), secondary })
        },
        None => None,
    }
}

/// `s` with each run of equal neighbours reduced to one.
pub open spec fn dedup_runs(s: Seq<i32>) -> Seq<i32>
    decreases s.len(),
{
    if s.len() <= 1 {
        s
    } else if s[s.len() - 1] == s[s.len() - 2] {
        dedup_runs(s.drop_last())
    } else {
        dedup_runs(s.drop_last()).push(s.last())
    }
}

proof fn lemma_dedup_runs_last(s: Seq<i32>)
    requires
        s.len() > 0,
    ensures
        dedup_runs(s).len() > 0,
        dedup_runs(s).last() == s.last(),
    decreases s.len(),
{
    if s.len() > 1 && s[s.len() - 1] == s[s.len() - 2] {
        lemma_dedup_runs_last(s.drop_last());
    }
}

/// Removes consecutive repeated sequences.
pub fn dedup_sequences(v: &Vec<i32>) -> (r: Vec<i32>)
    ensures
        r@ == dedup_runs(v@),
{
    let mut out: Vec<i32> = Vec::new();
    let mut i: usize = 0;
    while i < v.len()
        invariant
            i <= v@.len(),
            out@ == dedup_runs(v@.subrange(0, i as int)),
        decreases v@.len() - i,
    {
        let ghost pre = v@.subrange(0, i + 1);
        assert(pre.drop_last() =~= v@.subrange(0, i as int));
        if i > 0 {
            proof {
                lemma_dedup_runs_last(v@.subrange(0, i as int));
            }
            let last = out[out.len() - 1];
            if last != v[i] {
                out.push(v[i]);
            }
        } else {
            out.push(v[i]);
            assert(out@ =~= pre);
        }
        i += 1;
    }
    assert(v@.subrange(0, v@.len() as int) =~= v@);
    out
}

/// The query searched for an input of suggestions: the input without a trailing
/// roman letter if it is Japanese and longer than one character.
pub open spec fn prepared_input(s: Seq<char>) -> Seq<char> {
    if lang_of(s) == QueryLang::Japanese && s.len() > 1 && is_roman_letter_char(s.last()) {
        s.drop_last()
    } else {
        s
    }
}

/// Checks the length of an input (1 to 37 characters) and strips the roman
/// letter that romanised typing leaves after Japanese text.
pub fn prepare_input(input: &str) -> (r: Result<String, SuggestionError>)
    ensures
        (input@.len() < 1 || input@.len() > MAX_INPUT_LEN) ==> r == Err::<String, SuggestionError>(SuggestionError::BadRequest),
        (1 <= input@.len() <= MAX_INPUT_LEN) ==> (r matches Ok(q) && q@ == prepared_input(input@)),
{
    let v = chars_of(input);
    let n = v.len();
    if n < 1 || n > MAX_INPUT_LEN {
        return Err(SuggestionError::BadRequest);
    }
    if parse_language(input) == QueryLang::Japanese && n > 1 && roman_letter(v[n - 1]) {
        let mut t: Vec<char> = Vec::new();
        let mut i: usize = 0;
        while i < n - 1
            invariant
                i <= n - 1,
                n == v@.len(),
                t@ =~= v@.subrange(0, i as int),
            decreases n - 1 - i,
        {
            t.push(v[i]);
            i += 1;
        }
        assert(t@ =~= v@.drop_last());
        Ok(string_of(&t))
    } else {
        Ok(input.to_owned())
    }
}

/// What `romaji` turns a text into when asked for katakana.
pub uninterp spec fn katakana_of(s: Seq<char>) -> Seq<char>;

/// Relies on `romaji::RomajiExt::to_katakana`: the result depends on the text alone.
#[verifier::external_body]
fn to_katakana(s: &str) -> (r: String)
    ensures
        r@ == katakana_of(s@),
{
    s.to_katakana()
}

/// The query to retry with when a search found nothing: the katakana form of
/// an all-hiragana query; no retry otherwise.
pub fn katakana_retry(query: &str, found: usize) -> (r: Option<String>)
    ensures
        (found == 0 && spec_is_hiragana(query@)) ==> (r matches Some(k) && k@ == katakana_of(query@)),
        !(found == 0 && spec_is_hiragana(query@)) ==> r is None,
{
    if found == 0 && is_hiragana(&chars_of(query)) {
        Some(to_katakana(query))
    } else {
        None
    }
}

/// The primary forms of the pairs.
pub open spec fn primaries(s: Seq<WordPair>) -> Seq<Seq<char>> {
    s.map_values(|p: WordPair| p.primary@)
}

/// Suggestions for a foreign (or undetected) query: prefix matches in the
/// source of the user's language, none if that language has no source.
pub fn foreign_suggestions(registry: &SuggestionRegistry, query: &Query) -> (r: SuggestionResponse)
    ensures
        registry_for(registry.languages@, query.settings.user_lang, 0) is None ==> r.suggestions@.len() == 0,
        registry_for(registry.languages@, query.settings.user_lang, 0) matches Some(i) ==> exists|found: Seq<WordPair>|
            #[trigger] primaries(found) == prefix_pairs(registry.languages@[i].1@, query.query@, 0, 10)
                && (forall|k: int| 0 <= k < found.len() ==> (#[trigger] found[k]).secondary is None)
                && r.suggestions@ == exact_first(found.take(if found.len() > 10 { 10 } else { found.len() as int }), query.query@),
        r.suggestions@.len() <= MAX_RESULTS,
        forall|i: int, j: int|
            0 <= i < j < r.suggestions@.len() && pair_has_reading(#[trigger] r.suggestions@[j], query.query@)
                ==> pair_has_reading(#[trigger] r.suggestions@[i], query.query@),
{
    let found = match registry.search(query.query.as_str(), query.settings.user_lang) {
        Some(v) => v,
        None => Vec::new(),
    };
    let ghost f = found@;
    let r = suggestion_response(found, query.query.as_str());
    proof {
        assert(primaries(f) == f.map_values(|p: WordPair| p.primary@));
        if registry_for(registry.languages@, query.settings.user_lang, 0) is Some {
            assert(primaries(f) == prefix_pairs(registry.languages@[registry_for(registry.languages@, query.settings.user_lang, 0)->0].1@, query.query@, 0, 10));
        }
        if registry_for(registry.languages@, query.settings.user_lang, 0) is None {
            assert(f.take(0) =~= Seq::<WordPair>::empty());
            assert(exact_part(Seq::<WordPair>::empty(), query.query@) =~= Seq::<WordPair>::empty());
            assert(other_part(Seq::<WordPair>::empty(), query.query@) =~= Seq::<WordPair>::empty());
        }
    }
    r
}

} // verus!
