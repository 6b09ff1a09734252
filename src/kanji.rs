//! Kun readings of kanji: normalising reading notation, matching a compound's
//! kana reading against a kun reading, and ranking the compounds found.
//!
//! In reading notation `.` separates the stem from its okurigana and `-`
//! marks that more may follow (at the end) or precede (at the start).
use vstd::prelude::*;
use crate::text::{chars_of, string_of};
use crate::dict::Dict;

verus! {

/// `s` without any `c`.
pub open spec fn without(s: Seq<char>, c: char) -> Seq<char>
    decreases s.len(),
{
    if s.len() == 0 {
        s
    } else if s.last() == c {
        without(s.drop_last(), c)
    } else {
        without(s.drop_last(), c).push(s.last())
    }
}

/// `s` up to its first `c`, or all of `s`.
pub open spec fn before_first(s: Seq<char>, c: char) -> Seq<char>
    decreases s.len(),
{
    if s.len() == 0 || s[0] == c {
        Seq::empty()
    } else {
        seq![s[0]] + before_first(s.drop_first(), c)
    }
}

pub open spec fn starts_with(a: Seq<char>, b: Seq<char>) -> bool {
    b.len() <= a.len() && a.subrange(0, b.len() as int) == b
}

pub open spec fn ends_with(a: Seq<char>, b: Seq<char>) -> bool {
    b.len() <= a.len() && a.subrange(a.len() - b.len(), a.len() as int) == b
}

/// `s[i..]` with every occurrence of `from` replaced by `to`, scanning left to
/// right without overlaps.
pub open spec fn replace_from(s: Seq<char>, from: Seq<char>, to: Seq<char>, i: int) -> Seq<char>
    decreases s.len() - i,
{
    if i < 0 || i >= s.len() || from.len() == 0 {
        if 0 <= i < s.len() {
            s.subrange(i, s.len() as int)
        } else {
            Seq::empty()
        }
    } else if i + from.len() <= s.len() && s.subrange(i, i + from.len()) == from {
        to + replace_from(s, from, to, i + from.len())
    } else {
        seq![s[i]] + replace_from(s, from, to, i + 1)
    }
}

pub open spec fn replace_all(s: Seq<char>, from: Seq<char>, to: Seq<char>) -> Seq<char> {
    replace_from(s, from, to, 0)
}

/// The kana entry written by a reading: the reading without `-` and `.`.
pub open spec fn formatted_reading(r: Seq<char>) -> Seq<char> {
    without(without(r, '-'), '.')
}

/// The part of a kun reading that the kanji itself is read as.
pub open spec fn literal_reading(kun: Seq<char>) -> Seq<char> {
    before_first(without(kun, '-'), '.')
}

/// How a kana reading is compared with the expected reading.
#[derive(Clone, Copy, Debug, PartialEq, Eq, Structural)]
pub enum MatchMode {
    Exact,
    /// The kana reading may continue after the expected reading.
    LeftVariable,
    /// The kana reading may start before the expected reading.
    RightVariable,
}

pub open spec fn mode_of(literal: Seq<char>, kun: Seq<char>, kanji_reading: Seq<char>) -> MatchMode {
    if kun.len() > 0 && kun[0] == '-' {
        MatchMode::RightVariable
    } else if (kun.len() > 0 && kun.last() == '-') || starts_with(kanji_reading, literal) {
        MatchMode::LeftVariable
    } else {
        MatchMode::Exact
    }
}

pub open spec fn mode_matches(mode: MatchMode, a: Seq<char>, b: Seq<char>) -> bool {
    match mode {
        MatchMode::Exact => a == b,
        MatchMode::LeftVariable => starts_with(a, b),
        MatchMode::RightVariable => ends_with(a, b),
    }
}

/// The kana that a compound starting with `literal` is expected to be read
/// with, by the kun reading `kun`.
pub open spec fn expected_kana(literal: Seq<char>, kun: Seq<char>) -> Seq<char> {
    let stem_written = if kun.contains('.') {
        replace_all(without(kun, '-'), before_first(kun, '.').push('.'), literal)
    } else {
        literal
    };
    replace_all(stem_written, literal, literal_reading(kun))
}

pub open spec fn kun_matches(
    literal: Seq<char>,
    kun: Seq<char>,
    kana_reading: Seq<char>,
    kanji_reading: Seq<char>,
) -> bool {
    mode_matches(
        mode_of(literal, kun, kanji_reading),
        kana_reading,
        expected_kana(literal, kun),
    )
}

fn without_exec(s: &Vec<char>, c: char) -> (r: Vec<char>)
    ensures
        r@ == without(s@, c),
{
    let mut r: Vec<char> = Vec::new();
    let mut i: usize = 0;
    while i < s.len()
        invariant
            i <= s@.len(),
            r@ == without(s@.subrange(0, i as int), c),
        decreases s@.len() - i,
    {
        assert(s@.subrange(0, i + 1).drop_last() =~= s@.subrange(0, i as int));
        if s[i] != c {
            r.push(s[i]);
        }
        i += 1;
    }
    assert(s@.subrange(0, s@.len() as int) =~= s@);
    r
}

fn before_first_exec(s: &Vec<char>, c: char) -> (r: Vec<char>)
    ensures
        r@ == before_first(s@, c),
{
    let mut r: Vec<char> = Vec::new();
    let mut i: usize = 0;
    assert(s@.subrange(0, s@.len() as int) =~= s@);
    assert(Seq::<char>::empty() + before_first(s@, c) =~= before_first(s@, c));
    while i < s.len() && s[i] != c
        invariant
            i <= s@.len(),
            r@ + before_first(s@.subrange(i as int, s@.len() as int), c) == before_first(s@, c),
        decreases s@.len() - i,
    {
        let ghost sub = s@.subrange(i as int, s@.len() as int);
        assert(sub.drop_first() =~= s@.subrange(i + 1, s@.len() as int));
        let ghost prev = r@;
        r.push(s[i]);
        assert(prev.push(s@[i as int]) + before_first(sub.drop_first(), c) =~= prev + (seq![s@[i as int]] + before_first(sub.drop_first(), c)));
        i += 1;
    }
    assert(s@.subrange(0, s@.len() as int) =~= s@);
    assert(r@ + Seq::<char>::empty() =~= r@);
    r
}

fn contains_exec(s: &Vec<char>, c: char) -> (r: bool)
    ensures
        r == s@.contains(c),
{
    let mut i: usize = 0;
    while i < s.len()
        invariant
            i <= s@.len(),
            forall|j: int| 0 <= j < i ==> s@[j] != c,
        decreases s@.len() - i,
    {
        if s[i] == c {
            return true;
        }
        i += 1;
    }
    false
}

fn slice_eq_at(s: &Vec<char>, i: usize, from: &Vec<char>) -> (r: bool)
    requires
        i + from@.len() <= s@.len(),
    ensures
        r == (s@.subrange(i as int, i + from@.len()) == from@),
{
    let n = s.len();
    let mut k: usize = 0;
    while k < from.len()
        invariant
            k <= from@.len(),
            n == s@.len(),
            i + from@.len() <= n,
            forall|j: int| 0 <= j < k ==> s@[i + j] == from@[j],
        decreases from@.len() - k,
    {
        if s[i + k] != from[k] {
            assert(s@.subrange(i as int, i + from@.len())[k as int] != from@[k as int]);
            return false;
        }
        k += 1;
    }
    assert(s@.subrange(i as int, i + from@.len()) =~= from@);
    true
}

fn replace_all_exec(s: &Vec<char>, from: &Vec<char>, to: &Vec<char>) -> (r: Vec<char>)
    requires
        from@.len() > 0,
    ensures
        r@ == replace_all(s@, from@, to@),
{
    let mut r: Vec<char> = Vec::new();
    let mut i: usize = 0;
    while i < s.len()
        invariant
            i <= s@.len(),
            from@.len() > 0,
            r@ + replace_from(s@, from@, to@, i as int) == replace_all(s@, from@, to@),
        decreases s@.len() - i,
    {
        let ghost prev = r@;
        if from.len() <= s.len() - i && slice_eq_at(s, i, from) {
            let mut k: usize = 0;
            while k < to.len()
                invariant
                    k <= to@.len(),
                    r@ =~= prev + to@.subrange(0, k as int),
                decreases to@.len() - k,
            {
                r.push(to[k]);
                k += 1;
            }
            assert(to@.subrange(0, to@.len() as int) =~= to@);
            assert(prev + to@ + replace_from(s@, from@, to@, i + from@.len()) =~= prev + (to@ + replace_from(s@, from@, to@, i + from@.len())));
            i += from.len();
        } else {
            r.push(s[i]);
            assert(prev.push(s@[i as int]) + replace_from(s@, from@, to@, i + 1) =~= prev + (seq![s@[i as int]] + replace_from(s@, from@, to@, i + 1)));
            i += 1;
        }
    }
    assert(r@ + Seq::<char>::empty() =~= r@);
    r
}

fn starts_with_exec(a: &Vec<char>, b: &Vec<char>) -> (r: bool)
    ensures
        r == starts_with(a@, b@),
{
    if b.len() > a.len() {
        return false;
    }
    slice_eq_at(a, 0, b)
}

fn ends_with_exec(a: &Vec<char>, b: &Vec<char>) -> (r: bool)
    ensures
        r == ends_with(a@, b@),
{
    if b.len() > a.len() {
        return false;
    }
    slice_eq_at(a, a.len() - b.len(), b)
}

fn literal_reading_exec(kun: &Vec<char>) -> (r: Vec<char>)
    ensures
        r@ == literal_reading(kun@),
{
    let k = without_exec(kun, '-');
    before_first_exec(&k, '.')
}

/// A reading without its `-` and `.` markers.
pub fn format_reading(reading: &str) -> (r: String)
    ensures
        r@ == formatted_reading(reading@),
{
    let v = chars_of(reading);
    let a = without_exec(&v, '-');
    let b = without_exec(&a, '.');
    string_of(&b)
}

/// The reading of the kanji itself in the kun reading `kun`.
pub fn kun_literal_reading(kun: &str) -> (r: String)
    ensures
        r@ == literal_reading(kun@),
{
    let v = chars_of(kun);
    let r = literal_reading_exec(&v);
    string_of(&r)
}

/// The length in characters of the kana that a kun reading writes.
pub fn kun_len(kun: &str) -> (r: usize)
    ensures
        r == formatted_reading(kun@).len(),
{
    let v = chars_of(kun);
    let a = without_exec(&v, '-');
    let b = without_exec(&a, '.');
    b.len()
}

/// Whether a compound written `kanji_reading` and read `kana_reading` uses the
/// kanji `literal` with the kun reading `kun`.
pub fn kun_matches_kanji(literal: &str, kun: &str, kana_reading: &str, kanji_reading: &str) -> (r: bool)
    requires
        literal@.len() > 0,
    ensures
        r == kun_matches(literal@, kun@, kana_reading@, kanji_reading@),
{
    let lit = chars_of(literal);
    let k = chars_of(kun);
    let kana = chars_of(kana_reading);
    let kanji = chars_of(kanji_reading);
    let mode = if k.len() > 0 && k[0] == '-' {
        MatchMode::RightVariable
    } else if (k.len() > 0 && k[k.len() - 1] == '-') || starts_with_exec(&kanji, &lit) {
        MatchMode::LeftVariable
    } else {
        MatchMode::Exact
    };
    let stem_written = if contains_exec(&k, '.') {
        let mut stem = before_first_exec(&k, '.');
        stem.push('.');
        let unmarked = without_exec(&k, '-');
        replace_all_exec(&unmarked, &stem, &lit)
    } else {
        lit.clone()
    };
    let reading = literal_reading_exec(&k);
    let expected = replace_all_exec(&stem_written, &lit, &reading);
    match mode {
        MatchMode::Exact => {
            if kana.len() != expected.len() {
                return false;
            }
            let r = slice_eq_at(&kana, 0, &expected);
            assert(kana@.subrange(0, expected@.len() as int) =~= kana@);
            r
        },
        MatchMode::LeftVariable => starts_with_exec(&kana, &expected),
        MatchMode::RightVariable => ends_with_exec(&kana, &expected),
    }
}

/// A compound qualifies for `kun` if the kun reading matches it and the
/// compound's kana reading is no longer than the kun reading as written.
pub open spec fn kun_fits(literal: Seq<char>, kun: Seq<char>, kana: Dict, kanji: Dict) -> bool {
    kun_matches(literal, kun, kana.reading@, kanji.reading@) && kana.reading@.len() <= kun.len()
}

pub open spec fn any_kun_fits(literal: Seq<char>, kuns: Seq<Seq<char>>, kana: Dict, kanji: Dict) -> bool {
    exists|k: int| 0 <= k < kuns.len() && kun_fits(literal, #[trigger] kuns[k], kana, kanji)
}

/// The end of the run of entries with the sequence of `s[i]`.
pub open spec fn group_end(s: Seq<Dict>, i: int, j: int) -> int
    decreases s.len() - j,
{
    if 0 <= i && i < j < s.len() && s[j].sequence == s[i].sequence {
        group_end(s, i, j + 1)
    } else {
        j
    }
}

/// The first entry of `s[i..e]` whose `kanji` flag is `kanji`.
pub open spec fn first_of_kind(s: Seq<Dict>, i: int, e: int, kanji: bool) -> Option<int>
    decreases e - i,
{
    if i >= e || i < 0 || i >= s.len() {
        None
    } else if s[i].kanji == kanji {
        Some(i)
    } else {
        first_of_kind(s, i + 1, e, kanji)
    }
}

proof fn lemma_group_end(s: Seq<Dict>, i: int, j: int)
    requires
        0 <= i < j <= s.len(),
    ensures
        j <= group_end(s, i, j) <= s.len(),
    decreases s.len() - j,
{
    if j < s.len() && s[j].sequence == s[i].sequence {
        lemma_group_end(s, i, j + 1);
    }
}

proof fn lemma_first_of_kind(s: Seq<Dict>, i: int, e: int, kanji: bool)
    ensures
        first_of_kind(s, i, e, kanji) matches Some(p) ==> i <= p < e && 0 <= p < s.len() && s[p].kanji == kanji,
    decreases e - i,
{
    if !(i >= e || i < 0 || i >= s.len()) && s[i].kanji != kanji {
        lemma_first_of_kind(s, i + 1, e, kanji);
    }
}

/// The positions of the kanji entries, one per run of equal sequences from `i`
/// on, whose run has a kana and a kanji reading that some kun reading fits.
pub open spec fn select_compounds(literal: Seq<char>, kuns: Seq<Seq<char>>, s: Seq<Dict>, i: int) -> Seq<int>
    decreases s.len() - i, 1int,
    via select_compounds_decreases
{
    if i < 0 || i >= s.len() {
        Seq::empty()
    } else {
        let e = group_end(s, i, i + 1);
        let here = match (first_of_kind(s, i, e, false), first_of_kind(s, i, e, true)) {
            (Some(a), Some(b)) => if any_kun_fits(literal, kuns, s[a], s[b]) {
                seq![b]
            } else {
                Seq::empty()
            },
            _ => Seq::empty(),
        };
        here + select_compounds(literal, kuns, s, e)
    }
}

#[via_fn]
proof fn select_compounds_decreases(literal: Seq<char>, kuns: Seq<Seq<char>>, s: Seq<Dict>, i: int) {
    if 0 <= i < s.len() {
        lemma_group_end(s, i, i + 1);
    }
}

/// The position of the first `x` in `s` (the length if there is none).
pub open spec fn first_index(s: Seq<Seq<char>>, x: Seq<char>) -> int
    decreases s.len(),
{
    if s.len() == 0 || s[0] == x {
        0
    } else {
        1 + first_index(s.drop_first(), x)
    }
}

/// The sort key of a compound: compounds read exactly as a kun reading come
/// first, in the order of the kun readings; then those with a priority marker;
/// then those with a JLPT level, higher levels first.
pub open spec fn kun_key(cleans: Seq<Seq<char>>, d: Dict) -> (int, int, int, int, int) {
    if cleans.contains(d.reading@) {
        (0, first_index(cleans, d.reading@), 0, 0, 0)
    } else {
        (
            1,
            0,
            if d.priority_count() > 0 { 0 } else { 1 },
            if d.jlpt_lvl is Some { 0 } else { 1 },
            match d.jlpt_lvl {
                Some(l) => -l,
                None => 0,
            },
        )
    }
}

pub open spec fn key_lt(a: (int, int, int, int, int), b: (int, int, int, int, int)) -> bool {
    a.0 < b.0 || (a.0 == b.0 && (a.1 < b.1 || (a.1 == b.1 && (a.2 < b.2 || (a.2 == b.2 && (a.3
        < b.3 || (a.3 == b.3 && a.4 < b.4)))))))
}

/// The position `x` placed into the positions `t` before the first one that
/// it ranks strictly before.
pub open spec fn insert_by_key(cleans: Seq<Seq<char>>, s: Seq<Dict>, t: Seq<int>, x: int) -> Seq<int>
    decreases t.len(),
{
    if t.len() == 0 {
        seq![x]
    } else if key_lt(kun_key(cleans, s[x]), kun_key(cleans, s[t[0]])) {
        seq![x] + t
    } else {
        seq![t[0]] + insert_by_key(cleans, s, t.drop_first(), x)
    }
}

/// The positions `t` stably sorted by the [`kun_key`] of their entries.
pub open spec fn sort_by_key(cleans: Seq<Seq<char>>, s: Seq<Dict>, t: Seq<int>) -> Seq<int>
    decreases t.len(),
{
    if t.len() == 0 {
        Seq::empty()
    } else {
        insert_by_key(cleans, s, sort_by_key(cleans, s, t.drop_last()), t.last())
    }
}

/// The compounds kept: all of them if at most ten, else the ten that rank first.
pub open spec fn kept_compounds(cleans: Seq<Seq<char>>, s: Seq<Dict>, t: Seq<int>) -> Seq<int> {
    if t.len() > 10 {
        sort_by_key(cleans, s, t).take(10)
    } else {
        t
    }
}

/// The views of `v`.
pub open spec fn string_views(v: Seq<String>) -> Seq<Seq<char>> {
    v.map_values(|x: String| x@)
}

fn any_kun_fits_exec(literal: &str, kuns: &Vec<String>, kana: &Dict, kanji: &Dict) -> (r: bool)
    requires
        literal@.len() > 0,
    ensures
        r == any_kun_fits(literal@, string_views(kuns@), *kana, *kanji),
{
    let mut k: usize = 0;
    while k < kuns.len()
        invariant
            k <= kuns@.len(),
            literal@.len() > 0,
            forall|j: int| 0 <= j < k ==> !kun_fits(literal@, #[trigger] string_views(kuns@)[j], *kana, *kanji),
        decreases kuns@.len() - k,
    {
        let ku = kuns[k].as_str();
        if kun_matches_kanji(literal, ku, kana.reading.as_str(), kanji.reading.as_str())
            && kana.len() <= ku.unicode_len() {
            assert(kun_fits(literal@, string_views(kuns@)[k as int], *kana, *kanji));
            return true;
        }
        assert(!kun_fits(literal@, string_views(kuns@)[k as int], *kana, *kanji));
        k += 1;
    }
    false
}

/// The first kanji entries of the runs of equal sequences whose run has a
/// kana and a kanji reading that one of the kun readings fits.
pub fn select_kun_compounds(literal: &str, kuns: &Vec<String>, dicts: &Vec<Dict>) -> (r: Vec<usize>)
    requires
        literal@.len() > 0,
    ensures
        r@.map_values(|p: usize| p as int) == select_compounds(literal@, string_views(kuns@), dicts@, 0),
{
    let ghost all = select_compounds(literal@, string_views(kuns@), dicts@, 0);
    let mut out: Vec<usize> = Vec::new();
    let mut i: usize = 0;
    while i < dicts.len()
        invariant
            i <= dicts@.len(),
            literal@.len() > 0,
            all == select_compounds(literal@, string_views(kuns@), dicts@, 0),
            out@.map_values(|p: usize| p as int) + select_compounds(literal@, string_views(kuns@), dicts@, i as int) == all,
        decreases dicts@.len() - i,
    {
        let mut e = i + 1;
        while e < dicts.len() && dicts[e].sequence == dicts[i].sequence
            invariant
                i < e <= dicts@.len(),
                group_end(dicts@, i as int, e as int) == group_end(dicts@, i as int, i + 1),
            decreases dicts@.len() - e,
        {
            e += 1;
        }
        let mut kana: Option<usize> = None;
        let mut kanji: Option<usize> = None;
        let mut j = e;
        proof {
            lemma_first_of_kind(dicts@, i as int, e as int, false);
            lemma_first_of_kind(dicts@, i as int, e as int, true);
        }
        while j > i
            invariant
                i <= j <= e <= dicts@.len(),
                j == e ==> kana is None && kanji is None,
                j < e ==> match first_of_kind(dicts@, j as int, e as int, false) {
                    Some(x) => kana == Some(x as usize),
                    None => kana is None,
                },
                j < e ==> match first_of_kind(dicts@, j as int, e as int, true) {
                    Some(x) => kanji == Some(x as usize),
                    None => kanji is None,
                },
            decreases j,
        {
            j -= 1;
            proof {
                lemma_first_of_kind(dicts@, j + 1, e as int, false);
                lemma_first_of_kind(dicts@, j + 1, e as int, true);
            }
            if dicts[j].kanji {
                kanji = Some(j);
            } else {
                kana = Some(j);
            }
        }
        let ghost here = match (first_of_kind(dicts@, i as int, e as int, false), first_of_kind(dicts@, i as int, e as int, true)) {
            (Some(a), Some(b)) => if any_kun_fits(literal@, string_views(kuns@), dicts@[a], dicts@[b]) {
                seq![b]
            } else {
                Seq::empty()
            },
            _ => Seq::empty(),
        };
        let ghost prev = out@.map_values(|p: usize| p as int);
        match (kana, kanji) {
            (Some(a), Some(b)) => {
                if any_kun_fits_exec(literal, kuns, &dicts[a], &dicts[b]) {
                    out.push(b);
                }
            },
            _ => {},
        }
        assert(out@.map_values(|p: usize| p as int) =~= prev + here);
        assert(prev + here + select_compounds(literal@, string_views(kuns@), dicts@, e as int) =~= prev + (here + select_compounds(literal@, string_views(kuns@), dicts@, e as int)));
        i = e;
    }
    assert(out@.map_values(|p: usize| p as int) + Seq::<int>::empty() =~= out@.map_values(|p: usize| p as int));
    out
}

fn first_index_exec(cleans: &Vec<String>, x: &String) -> (r: usize)
    ensures
        r == first_index(string_views(cleans@), x@),
{
    let ghost v = string_views(cleans@);
    let mut i: usize = 0;
    assert(v.subrange(0, v.len() as int) =~= v);
    while i < cleans.len() && cleans[i] != *x
        invariant
            i <= cleans@.len(),
            v == string_views(cleans@),
            i + first_index(v.subrange(i as int, v.len() as int), x@) == first_index(v, x@),
        decreases cleans@.len() - i,
    {
        assert(v.subrange(i as int, v.len() as int).drop_first() =~= v.subrange(i + 1, v.len() as int));
        i += 1;
    }
    proof {
        if i < cleans@.len() {
            assert(v.subrange(i as int, v.len() as int)[0] == x@);
        }
    }
    i
}

fn kun_key_exec(cleans: &Vec<String>, d: &Dict) -> (r: (u8, usize, u8, u8, i64))
    ensures
        (r.0 as int, r.1 as int, r.2 as int, r.3 as int, r.4 as int) == kun_key(string_views(cleans@), *d),
{
    let p = first_index_exec(cleans, &d.reading);
    proof {
        lemma_first_index(string_views(cleans@), d.reading@);
    }
    if p < cleans.len() {
        (0, p, 0, 0, 0)
    } else {
        let prio: u8 = if d.priority_len() > 0 { 0 } else { 1 };
        match d.jlpt_lvl {
            Some(l) => (1, 0, prio, 0, -(l as i64)),
            None => (1, 0, prio, 1, 0),
        }
    }
}

proof fn lemma_first_index(s: Seq<Seq<char>>, x: Seq<char>)
    ensures
        0 <= first_index(s, x) <= s.len(),
        first_index(s, x) < s.len() <==> s.contains(x),
        first_index(s, x) < s.len() ==> s[first_index(s, x)] == x,
    decreases s.len(),
{
    if s.len() > 0 && s[0] != x {
        lemma_first_index(s.drop_first(), x);
        if s.contains(x) {
            let j = choose|j: int| 0 <= j < s.len() && s[j] == x;
            assert(s.drop_first()[j - 1] == x);
        }
        if s.drop_first().contains(x) {
            let j = choose|j: int| 0 <= j < s.drop_first().len() && s.drop_first()[j] == x;
            assert(s[j + 1] == x);
        }
    } else if s.len() > 0 {
        assert(s[0] == x);
    }
}

fn key_lt_exec(a: (u8, usize, u8, u8, i64), b: (u8, usize, u8, u8, i64)) -> (r: bool)
    ensures
        r == key_lt((a.0 as int, a.1 as int, a.2 as int, a.3 as int, a.4 as int), (b.0 as int, b.1 as int, b.2 as int, b.3 as int, b.4 as int)),
{
    a.0 < b.0 || (a.0 == b.0 && (a.1 < b.1 || (a.1 == b.1 && (a.2 < b.2 || (a.2 == b.2 && (a.3
        < b.3 || (a.3 == b.3 && a.4 < b.4)))))))
}

proof fn lemma_insert_by_key_at(cleans: Seq<Seq<char>>, s: Seq<Dict>, t: Seq<int>, x: int, p: int)
    requires
        0 <= p <= t.len(),
        forall|k: int| 0 <= k < p ==> !key_lt(kun_key(cleans, s[x]), kun_key(cleans, s[#[trigger] t[k]])),
        p < t.len() ==> key_lt(kun_key(cleans, s[x]), kun_key(cleans, s[t[p]])),
    ensures
        insert_by_key(cleans, s, t, x) == t.subrange(0, p) + seq![x] + t.subrange(p, t.len() as int),
    decreases p,
{
    if t.len() == 0 {
        assert(seq![x] =~= t.subrange(0, p) + seq![x] + t.subrange(p, t.len() as int));
    } else if p == 0 {
        assert(seq![x] + t =~= t.subrange(0, p) + seq![x] + t.subrange(p, t.len() as int));
    } else {
        assert(!key_lt(kun_key(cleans, s[x]), kun_key(cleans, s[t[0]])));
        assert forall|k: int| 0 <= k < p - 1 implies !key_lt(kun_key(cleans, s[x]), kun_key(cleans, s[#[trigger] t.drop_first()[k]])) by {
            assert(t.drop_first()[k] == t[k + 1]);
        }
        lemma_insert_by_key_at(cleans, s, t.drop_first(), x, p - 1);
        assert(seq![t[0]] + (t.drop_first().subrange(0, p - 1) + seq![x] + t.drop_first().subrange(
            p - 1,
            t.len() - 1,
        )) =~= t.subrange(0, p) + seq![x] + t.subrange(p, t.len() as int));
    }
}

/// The sequences of the compounds, among `dicts`, that use the kanji `literal`
/// with one of its kun readings `kun`: one per run of entries with equal
/// sequence; if more than ten qualify, the ten that rank first.
pub fn get_kun_by_literal(literal: &str, kun: &Vec<String>, dicts: &Vec<Dict>) -> (r: Vec<i32>)
    requires
        literal@.len() > 0,
    ensures
        r@ == kept_compounds(
            string_views(kun@).map_values(|k: Seq<char>| literal_reading(k)),
            dicts@,
            select_compounds(literal@, string_views(kun@), dicts@, 0),
        ).map_values(|p: int| dicts@[p].sequence),
{
    let ghost cleans_spec = string_views(kun@).map_values(|k: Seq<char>| literal_reading(k));
    let mut cleans: Vec<String> = Vec::new();
    let mut i: usize = 0;
    while i < kun.len()
        invariant
            i <= kun@.len(),
            string_views(cleans@) =~= cleans_spec.subrange(0, i as int),
            cleans_spec == string_views(kun@).map_values(|k: Seq<char>| literal_reading(k)),
        decreases kun@.len() - i,
    {
        let c = kun_literal_reading(kun[i].as_str());
        assert(string_views(kun@)[i as int] == kun@[i as int]@);
        assert(cleans_spec[i as int] == c@);
        let ghost before = cleans@;
        cleans.push(c);
        assert(string_views(cleans@) =~= string_views(before).push(c@)) by {
            assert(forall|m: int| 0 <= m < cleans@.len() ==> string_views(cleans@)[m] == cleans@[m]@);
        }
        i += 1;
    }
    assert(string_views(cleans@) =~= cleans_spec);
    let found = select_kun_compounds(literal, kun, dicts);
    let ghost sel = select_compounds(literal@, string_views(kun@), dicts@, 0);
    assert(found@.map_values(|p: usize| p as int) == sel);
    proof {
        lemma_select_in_range(literal@, string_views(kun@), dicts@, 0);
    }
    let mut kept: Vec<usize> = Vec::new();
    if found.len() > 10 {
        let mut k: usize = 0;
        while k < found.len()
            invariant
                k <= found@.len(),
                found@.map_values(|p: usize| p as int) == sel,
                forall|j: int| 0 <= j < sel.len() ==> 0 <= #[trigger] sel[j] < dicts@.len(),
                string_views(cleans@) == cleans_spec,
                kept@.map_values(|p: usize| p as int) == sort_by_key(cleans_spec, dicts@, sel.subrange(0, k as int)),
                forall|j: int| 0 <= j < kept@.len() ==> #[trigger] kept@[j] < dicts@.len(),
            decreases found@.len() - k,
        {
            let x = found[k];
            assert(sel[k as int] == x as int);
            let kx = kun_key_exec(&cleans, &dicts[x]);
            let mut p: usize = 0;
            while p < kept.len() && !key_lt_exec(kx, kun_key_exec(&cleans, &dicts[kept[p]]))
                invariant
                    p <= kept@.len(),
                    x < dicts@.len(),
                    forall|j: int| 0 <= j < kept@.len() ==> #[trigger] kept@[j] < dicts@.len(),
                    (kx.0 as int, kx.1 as int, kx.2 as int, kx.3 as int, kx.4 as int) == kun_key(cleans_spec, dicts@[x as int]),
                    string_views(cleans@) == cleans_spec,
                    forall|j: int| 0 <= j < p ==> !key_lt(kun_key(cleans_spec, dicts@[x as int]), kun_key(cleans_spec, dicts@[(#[trigger] kept@[j]) as int])),
                decreases kept@.len() - p,
            {
                p += 1;
            }
            let ghost prev = kept@.map_values(|q: usize| q as int);
            proof {
                if p < kept@.len() {
                    assert(prev[p as int] == kept@[p as int] as int);
                }
                assert forall|j: int| 0 <= j < p implies !key_lt(kun_key(cleans_spec, dicts@[x as int]), kun_key(cleans_spec, dicts@[#[trigger] prev[j]])) by {
                    assert(prev[j] == kept@[j] as int);
                }
                lemma_insert_by_key_at(cleans_spec, dicts@, prev, x as int, p as int);
                assert(sel.subrange(0, k + 1).drop_last() =~= sel.subrange(0, k as int));
            }
            kept.insert(p, x);
            assert(kept@.map_values(|q: usize| q as int) =~= prev.subrange(0, p as int) + seq![x as int] + prev.subrange(p as int, prev.len() as int));
            k += 1;
        }
        assert(sel.subrange(0, found@.len() as int) =~= sel);
        let ghost full = kept@;
        proof {
            lemma_sort_by_key_len(cleans_spec, dicts@, sel);
            assert(full.len() == full.map_values(|p: usize| p as int).len());
        }
        kept.truncate(10);
        assert(kept@.map_values(|p: usize| p as int) =~= full.map_values(|p: usize| p as int).take(10));
    } else {
        kept = found;
        assert forall|m: int| 0 <= m < kept@.len() implies #[trigger] kept@[m] < dicts@.len() by {
            assert(sel[m] == kept@[m] as int);
        }
    }
    let ghost kept_spec = kept_compounds(cleans_spec, dicts@, sel);
    assert(kept@.map_values(|p: usize| p as int) =~= kept_spec);
    let mut out: Vec<i32> = Vec::new();
    let mut j: usize = 0;
    while j < kept.len()
        invariant
            j <= kept@.len(),
            kept@.map_values(|p: usize| p as int) == kept_spec,
            forall|m: int| 0 <= m < kept@.len() ==> #[trigger] kept@[m] < dicts@.len(),
            out@ =~= kept_spec.subrange(0, j as int).map_values(|p: int| dicts@[p].sequence),
        decreases kept@.len() - j,
    {
        assert(kept_spec[j as int] == kept@[j as int] as int);
        out.push(dicts[kept[j]].sequence);
        j += 1;
    }
    assert(kept_spec.subrange(0, kept@.len() as int) =~= kept_spec);
    out
}

proof fn lemma_insert_by_key_len(cleans: Seq<Seq<char>>, s: Seq<Dict>, t: Seq<int>, x: int)
    ensures
        insert_by_key(cleans, s, t, x).len() == t.len() + 1,
    decreases t.len(),
{
    if t.len() > 0 {
        lemma_insert_by_key_len(cleans, s, t.drop_first(), x);
    }
}

proof fn lemma_sort_by_key_len(cleans: Seq<Seq<char>>, s: Seq<Dict>, t: Seq<int>)
    ensures
        sort_by_key(cleans, s, t).len() == t.len(),
    decreases t.len(),
{
    if t.len() > 0 {
        lemma_sort_by_key_len(cleans, s, t.drop_last());
        lemma_insert_by_key_len(cleans, s, sort_by_key(cleans, s, t.drop_last()), t.last());
    }
}

proof fn lemma_select_in_range(literal: Seq<char>, kuns: Seq<Seq<char>>, s: Seq<Dict>, i: int)
    ensures
        forall|j: int| 0 <= j < select_compounds(literal, kuns, s, i).len() ==> 0 <= #[trigger] select_compounds(literal, kuns, s, i)[j] < s.len(),
    decreases s.len() - i,
{
    if 0 <= i < s.len() {
        let e = group_end(s, i, i + 1);
        lemma_group_end(s, i, i + 1);
        lemma_select_in_range(literal, kuns, s, e);
        lemma_first_of_kind(s, i, e, true);
        let all = select_compounds(literal, kuns, s, i);
        let rest = select_compounds(literal, kuns, s, e);
        let here = all.subrange(0, all.len() - rest.len());
        assert forall|j: int| 0 <= j < all.len() implies 0 <= #[trigger] all[j] < s.len() by {
            if j >= all.len() - rest.len() {
                assert(all[j] == rest[j - (all.len() - rest.len())]);
            }
        }
    }
}

/// Whether a reading is a kun or an on reading.
#[derive(Clone, Copy, Debug, PartialEq, Eq, Structural)]
pub enum ReadingType {
    Kunyomi,
    Onyomi,
}

/// A kanji and its readings.
#[derive(Clone, Debug)]
pub struct Kanji {
    pub id: i32,
    pub literal: String,
    pub meaning: Vec<String>,
    pub grade: Option<i32>,
    pub radical: Option<i32>,
    pub stroke_count: i32,
    pub frequency: Option<i32>,
    pub jlpt: Option<i32>,
    pub variant: Option<Vec<String>>,
    pub onyomi: Option<Vec<String>>,
    pub kunyomi: Option<Vec<String>>,
    pub chinese: Option<Vec<String>>,
    pub korean_r: Option<Vec<String>>,
    pub korean_h: Option<Vec<String>>,
    pub natori: Option<Vec<String>>,
    pub kun_dicts: Option<Vec<i32>>,
}

/// `list` is present and holds `reading`.
pub open spec fn listed(list: Option<Vec<String>>, reading: Seq<char>) -> bool {
    match list {
        Some(v) => string_views(v@).contains(reading),
        None => false,
    }
}

/// `s` after its first `c`; empty if there is none.
pub open spec fn after_first(s: Seq<char>, c: char) -> Seq<char>
    decreases s.len(),
{
    if s.len() == 0 {
        s
    } else if s[0] == c {
        s.drop_first()
    } else {
        after_first(s.drop_first(), c)
    }
}

fn listed_exec(list: &Option<Vec<String>>, reading: &String) -> (r: bool)
    ensures
        r == listed(*list, reading@),
{
    match list {
        Some(v) => {
            assert(*list == Some(*v));
            let mut i: usize = 0;
            while i < v.len()
                invariant
                    *list == Some(*v),
                    i <= v@.len(),
                    forall|j: int| 0 <= j < i ==> v@[j]@ != reading@,
                decreases v@.len() - i,
            {
                if v[i] == *reading {
                    assert(string_views(v@)[i as int] == reading@);
                    assert(string_views(v@).contains(reading@));
                    return true;
                }
                i += 1;
            }
            proof {
                if string_views(v@).contains(reading@) {
                    let j = choose|j: int| 0 <= j < string_views(v@).len() && string_views(v@)[j] == reading@;
                    assert(v@[j]@ == reading@);
                }
            }
            false
        },
        None => false,
    }
}

fn after_first_exec(s: &Vec<char>, c: char) -> (r: Vec<char>)
    ensures
        r@ == after_first(s@, c),
{
    let mut i: usize = 0;
    assert(s@.subrange(0, s@.len() as int) =~= s@);
    while i < s.len() && s[i] != c
        invariant
            i <= s@.len(),
            after_first(s@.subrange(i as int, s@.len() as int), c) == after_first(s@, c),
        decreases s@.len() - i,
    {
        assert(s@.subrange(i as int, s@.len() as int).drop_first() =~= s@.subrange(i + 1, s@.len() as int));
        i += 1;
    }
    let mut r: Vec<char> = Vec::new();
    if i < s.len() {
        assert(s@.subrange(i as int, s@.len() as int).drop_first() =~= s@.subrange(i + 1, s@.len() as int));
        let mut j = i + 1;
        while j < s.len()
            invariant
                i < j <= s@.len(),
                r@ =~= s@.subrange(i + 1, j as int),
            decreases s@.len() - j,
        {
            r.push(s[j]);
            j += 1;
        }
    } else {
        assert(s@.subrange(i as int, s@.len() as int) =~= Seq::<char>::empty());
    }
    r
}

impl Kanji {
    /// Returns `true` if `reading` is one of the kun readings.
    pub fn in_kun_reading(&self, reading: &String) -> (r: bool)
        ensures
            r == listed(self.kunyomi, reading@),
    {
        listed_exec(&self.kunyomi, reading)
    }

    /// Returns `true` if `reading` is one of the on readings.
    pub fn in_on_reading(&self, reading: &String) -> (r: bool)
        ensures
            r == listed(self.onyomi, reading@),
    {
        listed_exec(&self.onyomi, reading)
    }

    /// Returns `true` if the kanji has the reading, kun or on.
    pub fn has_reading(&self, reading: &String) -> (r: bool)
        ensures
            r == (listed(self.kunyomi, reading@) || listed(self.onyomi, reading@)),
    {
        self.in_kun_reading(reading) || self.in_on_reading(reading)
    }

    /// Whether `reading` is an on or a kun reading; `None` if it is both or neither.
    pub fn get_reading_type(&self, reading: &String) -> (r: Option<ReadingType>)
        ensures
            r == (if listed(self.onyomi, reading@) && !listed(self.kunyomi, reading@) {
                Some(ReadingType::Onyomi)
            } else if !listed(self.onyomi, reading@) && listed(self.kunyomi, reading@) {
                Some(ReadingType::Kunyomi)
            } else {
                None
            }),
    {
        let in_on = self.in_on_reading(reading);
        let in_kun = self.in_kun_reading(reading);
        if in_on && !in_kun {
            Some(ReadingType::Onyomi)
        } else if !in_on && in_kun {
            Some(ReadingType::Kunyomi)
        } else {
            None
        }
    }

    /// How a reading is written with the kanji: for a kun reading the literal
    /// followed by the okurigana (the part after the first `.`), without `-`;
    /// for an on reading the literal.
    pub fn format_reading(&self, reading: &str, r_type: ReadingType) -> (r: String)
        ensures
            r_type == ReadingType::Onyomi ==> r@ == self.literal@,
            r_type == ReadingType::Kunyomi ==> r@ == without(
                if reading@.contains('.') {
                    self.literal@ + before_first(after_first(reading@, '.'), '.')
                } else {
                    self.literal@
                },
                '-',
            ),
    {
        match r_type {
            ReadingType::Kunyomi => {
                let v = chars_of(reading);
                let mut w = chars_of(self.literal.as_str());
                if contains_exec(&v, '.') {
                    let rest = after_first_exec(&v, '.');
                    let mut right = before_first_exec(&rest, '.');
                    w.append(&mut right);
                }
                let out = without_exec(&w, '-');
                string_of(&out)
            },
            ReadingType::Onyomi => self.literal.clone(),
        }
    }
}

} // verus!
