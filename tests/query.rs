use jotoba::language::Language;
use jotoba::query::{parse_language, Form, QueryLang, QueryParser, UserSettings};
use jotoba::tags::Tag;

fn settings() -> UserSettings {
    UserSettings { user_lang: Language::English, show_english: true }
}

#[test]
fn parser_extracts_jlpt_tag() {
    let q = QueryParser::new("#n4 食べる".to_string(), settings()).parse().unwrap();
    assert_eq!(q.query, "食べる");
    assert_eq!(q.tags, vec![Tag::Jlpt(4)]);
    assert_eq!(q.language, QueryLang::Japanese);
    assert_eq!(q.form, Form::SingleWord);
    assert_eq!(q.raw_query, "#n4 食べる");
}

#[test]
fn parser_rejects_tag_only_query() {
    assert!(QueryParser::new("#kanji".to_string(), settings()).parse().is_none());
}

#[test]
fn parser_classifies_foreign_sentence() {
    let q = QueryParser::new("to eat".to_string(), settings()).parse().unwrap();
    assert_eq!(q.language, QueryLang::Foreign);
    assert_eq!(q.form, Form::MultiWords);
}

#[test]
fn language_detection() {
    assert_eq!(parse_language("たべr"), QueryLang::Japanese);
    assert_eq!(parse_language("house"), QueryLang::Foreign);
    assert_eq!(parse_language("  "), QueryLang::Undetected);
}
