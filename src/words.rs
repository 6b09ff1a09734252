//! Dictionary words: readings, senses and what is shown of them.
use vstd::prelude::*;
use crate::dict::{Dict, Priority};
use crate::language::Language;
use crate::tags::PosSimple;
use crate::text::{chars_of, string_of};
use crate::japanese::{is_katakana, spec_is_katakana};
use itertools::Itertools;

verus! {

/// One gloss of a sense.
#[derive(Clone, Debug)]
pub struct Gloss {
    pub gloss: String,
}

/// One sense of a word, in one language.
#[derive(Clone, Debug)]
pub struct Sense {
    pub language: Language,
    pub glosses: Vec<Gloss>,
    pub part_of_speech: Vec<PosSimple>,
}

pub open spec fn gloss_views(g: Seq<Gloss>) -> Seq<Seq<char>> {
    g.map_values(|x: Gloss| x.gloss@)
}

impl View for Sense {
    type V = (Language, Seq<Seq<char>>, Seq<PosSimple>);

    open spec fn view(&self) -> Self::V {
        (self.language, gloss_views(self.glosses@), self.part_of_speech@)
    }
}

pub open spec fn sense_views(s: Seq<Sense>) -> Seq<(Language, Seq<Seq<char>>, Seq<PosSimple>)> {
    s.map_values(|x: Sense| x@)
}

impl Sense {
    /// A copy of the sense.
    pub fn duplicate(&self) -> (r: Sense)
        ensures
            r@ == self@,
    {
        let mut glosses: Vec<Gloss> = Vec::new();
        let mut i: usize = 0;
        while i < self.glosses.len()
            invariant
                i <= self.glosses@.len(),
                gloss_views(glosses@) =~= gloss_views(self.glosses@).subrange(0, i as int),
            decreases self.glosses@.len() - i,
        {
            let g = Gloss { gloss: self.glosses[i].gloss.clone() };
            let ghost before = glosses@;
            glosses.push(g);
            assert(gloss_views(glosses@) =~= gloss_views(before).push(g.gloss@));
            i += 1;
        }
        let mut pos: Vec<PosSimple> = Vec::new();
        let mut j: usize = 0;
        while j < self.part_of_speech.len()
            invariant
                j <= self.part_of_speech@.len(),
                pos@ =~= self.part_of_speech@.subrange(0, j as int),
            decreases self.part_of_speech@.len() - j,
        {
            pos.push(self.part_of_speech[j]);
            j += 1;
        }
        Sense { language: self.language, glosses, part_of_speech: pos }
    }
}

/// Various readings of a word.
#[derive(Clone, Debug)]
pub struct Reading {
    pub kana: Dict,
    pub kanji: Option<Dict>,
    pub alternative: Vec<Dict>,
}

/// A single word.
#[derive(Clone, Debug)]
pub struct Word {
    pub sequence: u32,
    pub priorities: Option<Vec<Priority>>,
    pub reading: Reading,
    pub senses: Vec<Sense>,
    pub accents: Option<Vec<u8>>,
    pub furigana: Option<String>,
    pub jlpt_lvl: Option<u8>,
    /// The sequence of the transitive form of the word, if it has one.
    pub transive_version: Option<u32>,
    /// The sequence of the intransitive form of the word, if it has one.
    pub intransive_version: Option<u32>,
}

/// The position of the first word of `words` with sequence `seq`, from `i` on.
pub open spec fn word_by_sequence(words: Seq<Word>, seq: u32, i: int) -> Option<int>
    decreases words.len() - i,
{
    if i < 0 || i >= words.len() {
        None
    } else if words[i].sequence == seq {
        Some(i)
    } else {
        word_by_sequence(words, seq, i + 1)
    }
}

/// The word with sequence `seq` in `words`, the first if there are several.
pub fn by_sequence<'a>(words: &'a Vec<Word>, seq: u32) -> (r: Option<&'a Word>)
    ensures
        word_by_sequence(words@, seq, 0) is None ==> r is None,
        word_by_sequence(words@, seq, 0) matches Some(i) ==> (r matches Some(w) && *w == words@[i]),
{
    let mut i: usize = 0;
    while i < words.len()
        invariant
            i <= words@.len(),
            word_by_sequence(words@, seq, i as int) == word_by_sequence(words@, seq, 0),
        decreases words@.len() - i,
    {
        if words[i].sequence == seq {
            return Some(&words[i]);
        }
        i += 1;
    }
    None
}

/// The word that `link` points to in `words`.
pub open spec fn linked_word(words: Seq<Word>, link: Option<u32>) -> Option<Word> {
    match link {
        Some(seq) => match word_by_sequence(words, seq, 0) {
            Some(i) => Some(words[i]),
            None => None,
        },
        None => None,
    }
}

/// Returns the transitive version of `word` among `words`.
pub fn get_transitive_counterpart<'a>(word: &Word, words: &'a Vec<Word>) -> (r: Option<&'a Word>)
    ensures
        linked_word(words@, word.transive_version) is None ==> r is None,
        linked_word(words@, word.transive_version) matches Some(w) ==> (r matches Some(x) && *x == w),
{
    match word.transive_version {
        Some(seq) => by_sequence(words, seq),
        None => None,
    }
}

/// Returns the intransitive version of `word` among `words`.
pub fn get_intransitive_counterpart<'a>(word: &Word, words: &'a Vec<Word>) -> (r: Option<&'a Word>)
    ensures
        linked_word(words@, word.intransive_version) is None ==> r is None,
        linked_word(words@, word.intransive_version) matches Some(w) ==> (r matches Some(x) && *x == w),
{
    match word.intransive_version {
        Some(seq) => by_sequence(words, seq),
        None => None,
    }
}

impl Reading {
    /// The preferred reading: the kanji one if there is one.
    pub open spec fn spec_reading(&self) -> Dict {
        match self.kanji {
            Some(k) => k,
            None => self.kana,
        }
    }

    /// Returns the preferred reading of a `Reading`.
    pub fn get_reading(&self) -> (r: &Dict)
        ensures
            *r == self.spec_reading(),
    {
        match &self.kanji {
            Some(k) => k,
            None => &self.kana,
        }
    }

    /// Returns `true` if the reading is a katakana-only word.
    pub fn is_katakana(&self) -> (r: bool)
        ensures
            r == (spec_is_katakana(self.kana.reading@) && self.kanji is None),
    {
        is_katakana(&chars_of(self.kana.reading.as_str())) && self.kanji.is_none()
    }
}

/// The parts joined with `sep` between neighbours.
pub open spec fn joined(parts: Seq<Seq<char>>, sep: Seq<char>) -> Seq<char>
    decreases parts.len(),
{
    if parts.len() == 0 {
        Seq::empty()
    } else if parts.len() == 1 {
        parts[0]
    } else {
        joined(parts.drop_last(), sep) + sep + parts.last()
    }
}

pub open spec fn string_views(v: Seq<String>) -> Seq<Seq<char>> {
    v.map_values(|x: String| x@)
}

/// Relies on `Itertools::join`: the parts in order with `sep` between neighbours.
#[verifier::external_body]
fn join_strings(parts: &Vec<String>, sep: &str) -> (r: String)
    ensures
        r@ == joined(string_views(parts@), sep@),
{
    parts.iter().join(sep)
}

/// The senses in language `english` (or not), in order.
pub open spec fn senses_in(s: Seq<Sense>, english: bool) -> Seq<Sense>
    decreases s.len(),
{
    if s.len() == 0 {
        Seq::empty()
    } else if (s.last().language == Language::English) == english {
        senses_in(s.drop_last(), english).push(s.last())
    } else {
        senses_in(s.drop_last(), english)
    }
}

/// The senses in `language`, in order.
pub open spec fn senses_of(s: Seq<Sense>, language: Language) -> Seq<Sense>
    decreases s.len(),
{
    if s.len() == 0 {
        Seq::empty()
    } else if s.last().language == language {
        senses_of(s.drop_last(), language).push(s.last())
    } else {
        senses_of(s.drop_last(), language)
    }
}

/// All glosses of the senses, in order.
pub open spec fn all_glosses(s: Seq<Sense>) -> Seq<Seq<char>>
    decreases s.len(),
{
    if s.len() == 0 {
        Seq::empty()
    } else {
        all_glosses(s.drop_last()) + gloss_views(s.last().glosses@)
    }
}

/// All parts of speech of the senses, in order.
pub open spec fn all_pos(s: Seq<Sense>) -> Seq<PosSimple>
    decreases s.len(),
{
    if s.len() == 0 {
        Seq::empty()
    } else {
        all_pos(s.drop_last()) + s.last().part_of_speech@
    }
}

/// The copies of the senses whose language is English (or not), in order.
fn partition_senses(senses: &Vec<Sense>, english: bool) -> (r: Vec<Sense>)
    ensures
        sense_views(r@) == sense_views(senses_in(senses@, english)),
{
    let mut out: Vec<Sense> = Vec::new();
    let mut i: usize = 0;
    while i < senses.len()
        invariant
            i <= senses@.len(),
            sense_views(out@) =~= sense_views(senses_in(senses@.subrange(0, i as int), english)),
        decreases senses@.len() - i,
    {
        assert(senses@.subrange(0, i + 1).drop_last() =~= senses@.subrange(0, i as int));
        if (senses[i].language == Language::English) == english {
            let c = senses[i].duplicate();
            let ghost before = out@;
            out.push(c);
            assert(sense_views(out@) =~= sense_views(before).push(c@));
            assert(sense_views(senses_in(senses@.subrange(0, i + 1), english)) =~= sense_views(senses_in(senses@.subrange(0, i as int), english)).push(senses@[i as int]@));
        }
        i += 1;
    }
    assert(senses@.subrange(0, senses@.len() as int) =~= senses@);
    out
}

/// The glosses of `senses` joined with `", "`.
fn pretty_print_senses(senses: &Vec<Sense>) -> (r: String)
    ensures
        r@ == joined(all_glosses(senses@), ", "@),
{
    let mut parts: Vec<String> = Vec::new();
    let mut i: usize = 0;
    while i < senses.len()
        invariant
            i <= senses@.len(),
            string_views(parts@) =~= all_glosses(senses@.subrange(0, i as int)),
        decreases senses@.len() - i,
    {
        assert(senses@.subrange(0, i + 1).drop_last() =~= senses@.subrange(0, i as int));
        let mut j: usize = 0;
        let ghost base = string_views(parts@);
        while j < senses[i].glosses.len()
            invariant
                i < senses@.len(),
                j <= senses@[i as int].glosses@.len(),
                string_views(parts@) =~= base + gloss_views(senses@[i as int].glosses@).subrange(0, j as int),
            decreases senses@[i as int].glosses@.len() - j,
        {
            let g = senses[i].glosses[j].gloss.clone();
            let ghost before = parts@;
            parts.push(g);
            assert(string_views(parts@) =~= string_views(before).push(g@));
            j += 1;
        }
        assert(gloss_views(senses@[i as int].glosses@).subrange(0, j as int) =~= gloss_views(senses@[i as int].glosses@));
        i += 1;
    }
    assert(senses@.subrange(0, senses@.len() as int) =~= senses@);
    join_strings(&parts, ", ")
}

impl Word {
    /// Returns true if the word's preferred reading has priority markers.
    pub fn is_common(&self) -> (r: bool)
        ensures
            r == (self.reading.spec_reading().priorities is Some),
    {
        self.reading.get_reading().priorities.is_some()
    }

    /// The JLPT level of the word, if it has one.
    pub fn get_jlpt_lvl(&self) -> (r: Option<u8>)
        ensures
            r == self.jlpt_lvl,
    {
        self.jlpt_lvl
    }

    /// The preferred reading of the word.
    pub fn get_reading(&self) -> (r: &Dict)
        ensures
            *r == self.reading.spec_reading(),
    {
        self.reading.get_reading()
    }

    /// Returns `true` if the word is a katakana word.
    pub fn is_katakana_word(&self) -> (r: bool)
        ensures
            r == (spec_is_katakana(self.reading.kana.reading@) && self.reading.kanji is None),
    {
        self.reading.is_katakana()
    }

    /// The senses in `language`; `None` if there are none.
    pub fn senses_by_lang(&self, language: Language) -> (r: Option<Vec<Sense>>)
        ensures
            senses_of(self.senses@, language).len() == 0 ==> r is None,
            senses_of(self.senses@, language).len() > 0 ==> (r matches Some(v) && sense_views(v@)
                == sense_views(senses_of(self.senses@, language))),
    {
        let mut out: Vec<Sense> = Vec::new();
        let mut i: usize = 0;
        while i < self.senses.len()
            invariant
                i <= self.senses@.len(),
                sense_views(out@) =~= sense_views(senses_of(self.senses@.subrange(0, i as int), language)),
            decreases self.senses@.len() - i,
        {
            assert(self.senses@.subrange(0, i + 1).drop_last() =~= self.senses@.subrange(0, i as int));
            if self.senses[i].language == language {
                let c = self.senses[i].duplicate();
                let ghost before = out@;
                out.push(c);
                assert(sense_views(out@) =~= sense_views(before).push(c@));
                assert(sense_views(senses_of(self.senses@.subrange(0, i + 1), language)) =~= sense_views(senses_of(self.senses@.subrange(0, i as int), language)).push(self.senses@[i as int]@));
            }
            i += 1;
        }
        assert(self.senses@.subrange(0, self.senses@.len() as int) =~= self.senses@);
        assert(sense_views(out@).len() == out@.len());
        assert(sense_views(senses_of(self.senses@, language)).len() == senses_of(self.senses@, language).len());
        if out.len() == 0 {
            None
        } else {
            Some(out)
        }
    }

    /// The senses in two groups, English and the others; English first if asked.
    pub fn get_senses_orderd(&self, english_on_top: bool, _language: Language) -> (r: Vec<Vec<Sense>>)
        ensures
            r@.len() == 2,
            sense_views(r@[0]@) == sense_views(senses_in(self.senses@, english_on_top)),
            sense_views(r@[1]@) == sense_views(senses_in(self.senses@, !english_on_top)),
    {
        let english = partition_senses(&self.senses, true);
        let other = partition_senses(&self.senses, false);
        let mut r: Vec<Vec<Sense>> = Vec::new();
        if english_on_top {
            r.push(english);
            r.push(other);
        } else {
            r.push(other);
            r.push(english);
        }
        r
    }

    /// The senses in two groups: the non-English ones, then the English ones.
    pub fn get_senses(&self) -> (r: Vec<Vec<Sense>>)
        ensures
            r@.len() == 2,
            sense_views(r@[0]@) == sense_views(senses_in(self.senses@, false)),
            sense_views(r@[1]@) == sense_views(senses_in(self.senses@, true)),
    {
        let other = partition_senses(&self.senses, false);
        let english = partition_senses(&self.senses, true);
        let mut r: Vec<Vec<Sense>> = Vec::new();
        r.push(other);
        r.push(english);
        r
    }

    /// The number of tags shown below the reading: common, and JLPT level.
    pub fn get_word_tag_count(&self) -> (r: u8)
        ensures
            r == (if self.reading.spec_reading().priorities is Some { 1u8 } else { 0u8 }) + (if self.jlpt_lvl is Some { 1u8 } else { 0u8 }),
    {
        let mut n: u8 = 0;
        if self.is_common() {
            n += 1;
        }
        if self.jlpt_lvl.is_some() {
            n += 1;
        }
        n
    }

    /// The name of the word's audio file, `<kanji>【<kana>】.ogg`, if it has a
    /// kanji reading; whether the file exists is for the caller to check.
    pub fn audio_file(&self) -> (r: Option<String>)
        ensures
            self.reading.kanji is None ==> r is None,
            self.reading.kanji matches Some(k) ==> (r matches Some(f) && f@ == k.reading@ + seq!['【'] + self.reading.kana.reading@ + "】.ogg"@),
    {
        match &self.reading.kanji {
            Some(kanji) => {
                let mut v = chars_of(kanji.reading.as_str());
                v.push('【');
                let kana = chars_of(self.reading.kana.reading.as_str());
                let mut k = kana;
                v.append(&mut k);
                let mut tail = chars_of("】.ogg");
                v.append(&mut tail);
                Some(string_of(&v))
            },
            None => None,
        }
    }

    /// The alternative readings joined with `", "`.
    pub fn alt_readings_beautified(&self) -> (r: String)
        ensures
            r@ == joined(self.reading.alternative@.map_values(|d: Dict| d.reading@), ", "@),
    {
        let mut parts: Vec<String> = Vec::new();
        let mut i: usize = 0;
        while i < self.reading.alternative.len()
            invariant
                i <= self.reading.alternative@.len(),
                string_views(parts@) =~= self.reading.alternative@.map_values(|d: Dict| d.reading@).subrange(0, i as int),
            decreases self.reading.alternative@.len() - i,
        {
            let g = self.reading.alternative[i].reading.clone();
            let ghost before = parts@;
            parts.push(g);
            assert(string_views(parts@) =~= string_views(before).push(g@));
            i += 1;
        }
        assert(string_views(parts@) =~= self.reading.alternative@.map_values(|d: Dict| d.reading@));
        join_strings(&parts, ", ")
    }

    /// The glosses in the user's languages, or the English ones if there are none.
    pub fn glosses_pretty(&self) -> (r: String)
        ensures
            senses_in(self.senses@, false).len() > 0 ==> r@ == joined(all_glosses(senses_in(self.senses@, false)), ", "@),
            senses_in(self.senses@, false).len() == 0 ==> r@ == joined(all_glosses(senses_in(self.senses@, true)), ", "@),
    {
        let senses = self.get_senses();
        proof {
            lemma_all_glosses_views(senses@[0]@, senses_in(self.senses@, false));
            lemma_all_glosses_views(senses@[1]@, senses_in(self.senses@, true));
        }
        if senses[0].len() > 0 {
            pretty_print_senses(&senses[0])
        } else {
            pretty_print_senses(&senses[1])
        }
    }

    /// All parts of speech of the word's senses, in order.
    pub fn get_pos(&self) -> (r: Vec<PosSimple>)
        ensures
            r@ == all_pos(self.senses@),
    {
        let mut out: Vec<PosSimple> = Vec::new();
        let mut i: usize = 0;
        while i < self.senses.len()
            invariant
                i <= self.senses@.len(),
                out@ =~= all_pos(self.senses@.subrange(0, i as int)),
            decreases self.senses@.len() - i,
        {
            assert(self.senses@.subrange(0, i + 1).drop_last() =~= self.senses@.subrange(0, i as int));
            let mut j: usize = 0;
            let ghost base = out@;
            while j < self.senses[i].part_of_speech.len()
                invariant
                    i < self.senses@.len(),
                    j <= self.senses@[i as int].part_of_speech@.len(),
                    out@ =~= base + self.senses@[i as int].part_of_speech@.subrange(0, j as int),
                decreases self.senses@[i as int].part_of_speech@.len() - j,
            {
                out.push(self.senses[i].part_of_speech[j]);
                j += 1;
            }
            i += 1;
        }
        assert(self.senses@.subrange(0, self.senses@.len() as int) =~= self.senses@);
        out
    }
}

/// Two sense lists with the same views have the same glosses.
proof fn lemma_all_glosses_views(a: Seq<Sense>, b: Seq<Sense>)
    requires
        sense_views(a) == sense_views(b),
    ensures
        all_glosses(a) == all_glosses(b),
        a.len() == b.len(),
    decreases a.len(),
{
    assert(sense_views(a).len() == a.len());
    assert(sense_views(b).len() == b.len());
    if a.len() > 0 {
        assert(sense_views(a.drop_last()) =~= sense_views(a).drop_last());
        assert(sense_views(b.drop_last()) =~= sense_views(b).drop_last());
        lemma_all_glosses_views(a.drop_last(), b.drop_last());
        assert(a.last()@ == sense_views(a)[a.len() - 1]);
        assert(b.last()@ == sense_views(b)[b.len() - 1]);
    }
}

} // verus!
