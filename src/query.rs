//! Structured queries: the raw input, its language, its form, its tags and
//! the text left once the tags are removed.
use vstd::prelude::*;
use crate::language::Language;
use crate::tags::{extract_tags, extraction, standard_rule, Tag};
use crate::text::{chars_of, is_ws};
use crate::japanese::{has_japanese, is_japanese_char};

verus! {

/// The script a query is written in.
#[derive(Clone, Copy, Debug, PartialEq, Eq, Structural, Hash)]
pub enum QueryLang {
    Japanese,
    Foreign,
    Undetected,
}

/// Whether a query is a single word or several.
#[derive(Clone, Copy, Debug, PartialEq, Eq, Structural, Hash)]
pub enum Form {
    SingleWord,
    MultiWords,
}

/// What a user chose.
#[derive(Clone, Copy, Debug, PartialEq, Eq, Structural)]
pub struct UserSettings {
    pub user_lang: Language,
    pub show_english: bool,
}

/// A parsed query.
#[derive(Clone, Debug)]
pub struct Query {
    pub raw_query: String,
    pub query: String,
    pub language: QueryLang,
    pub form: Form,
    pub tags: Vec<Tag>,
    pub settings: UserSettings,
}

/// Japanese if any character is Japanese; undetected if there is nothing but
/// whitespace; foreign otherwise.
pub open spec fn lang_of(s: Seq<char>) -> QueryLang {
    if exists|i: int| 0 <= i < s.len() && is_japanese_char(#[trigger] s[i]) {
        QueryLang::Japanese
    } else if forall|i: int| 0 <= i < s.len() ==> is_ws(#[trigger] s[i]) {
        QueryLang::Undetected
    } else {
        QueryLang::Foreign
    }
}

pub open spec fn form_of(s: Seq<char>) -> Form {
    if exists|i: int| 0 <= i < s.len() && is_ws(#[trigger] s[i]) {
        Form::MultiWords
    } else {
        Form::SingleWord
    }
}

/// Detects the language of a query text.
pub fn parse_language(s: &str) -> (r: QueryLang)
    ensures
        r == lang_of(s@),
{
    let v = chars_of(s);
    if has_japanese(&v) {
        return QueryLang::Japanese;
    }
    let mut i: usize = 0;
    while i < v.len()
        invariant
            i <= v@.len(),
            v@ == s@,
            !(exists|j: int| 0 <= j < v@.len() && is_japanese_char(#[trigger] v@[j])),
            forall|j: int| 0 <= j < i ==> is_ws(#[trigger] v@[j]),
        decreases v@.len() - i,
    {
        if !crate::text::is_whitespace(v[i]) {
            assert(!is_ws(v@[i as int]));
            return QueryLang::Foreign;
        }
        i += 1;
    }
    QueryLang::Undetected
}

fn parse_form(v: &Vec<char>) -> (r: Form)
    ensures
        r == form_of(v@),
{
    let mut i: usize = 0;
    while i < v.len()
        invariant
            i <= v@.len(),
            forall|j: int| 0 <= j < i ==> !is_ws(#[trigger] v@[j]),
        decreases v@.len() - i,
    {
        if crate::text::is_whitespace(v[i]) {
            return Form::MultiWords;
        }
        i += 1;
    }
    Form::SingleWord
}

/// Turns raw input and user settings into a [`Query`].
pub struct QueryParser {
    pub raw_query: String,
    pub settings: UserSettings,
}

impl QueryParser {
    pub fn new(raw_query: String, settings: UserSettings) -> (r: Self)
        ensures
            r.raw_query == raw_query,
            r.settings == settings,
    {
        QueryParser { raw_query, settings }
    }

    /// Extracts the tags and classifies the rest; `None` if no text is left.
    pub fn parse(&self) -> (r: Option<Query>)
        ensures
            extraction(self.raw_query@, standard_rule()).0.len() == 0 ==> r is None,
            extraction(self.raw_query@, standard_rule()).0.len() > 0 ==> (r matches Some(q) && q.raw_query@
                == self.raw_query@ && q.query@ == extraction(self.raw_query@, standard_rule()).0 && q.tags@
                == extraction(self.raw_query@, standard_rule()).1 && q.language == lang_of(q.query@) && q.form
                == form_of(q.query@) && q.settings == self.settings),
    {
        let (text, tags) = extract_tags(self.raw_query.as_str());
        let v = chars_of(text.as_str());
        if v.len() == 0 {
            return None;
        }
        let language = parse_language(text.as_str());
        let form = parse_form(&v);
        Some(
            Query {
                raw_query: self.raw_query.clone(),
                query: text,
                language,
                form,
                tags,
                settings: self.settings,
            },
        )
    }
}

} // verus!
