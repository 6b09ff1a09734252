use jotoba::tags::{
    extract_tags, parse, parse_genki_tag, parse_jlpt_tag, parse_search_type, Misc, PosSimple,
    SearchTarget, Tag,
};

#[test]
fn test_parse_jlpt_tag_parsing() {
    assert_eq!(parse_jlpt_tag("#n4"), Some(Tag::Jlpt(4)));
}

#[test]
fn test_parse_genki_tag_parsing() {
    assert_eq!(parse_genki_tag("#genki3"), Some(Tag::GenkiLesson(3)));
    assert_eq!(parse_genki_tag("#genki23"), Some(Tag::GenkiLesson(23)));
}

#[test]
fn jlpt_levels_out_of_range() {
    assert_eq!(parse_jlpt_tag("#n0"), None);
    assert_eq!(parse_jlpt_tag("#n6"), None);
    assert_eq!(parse("#n0"), None);
    assert_eq!(parse("#n6"), None);
    assert_eq!(parse("#n4"), Some(Tag::Jlpt(4)));
    assert_eq!(parse("#N1"), Some(Tag::Jlpt(1)));
}

#[test]
fn genki_lessons_out_of_range() {
    assert_eq!(parse_genki_tag("#genki2"), None);
    assert_eq!(parse_genki_tag("#genki24"), None);
    assert_eq!(parse("#GENKI12"), Some(Tag::GenkiLesson(12)));
    assert_eq!(parse("#genki"), None);
}

#[test]
fn keywords_and_search_types() {
    assert_eq!(parse("#hidden"), Some(Tag::Hidden));
    assert_eq!(parse("#Hide"), Some(Tag::Hidden));
    assert_eq!(parse("#irregular-ichidan"), Some(Tag::IrregularIruEru));
    assert_eq!(parse("#kanji"), Some(Tag::SearchType(SearchTarget::Kanji)));
    assert_eq!(parse("#sentences"), Some(Tag::SearchType(SearchTarget::Sentences)));
    assert_eq!(parse("#names"), Some(Tag::SearchType(SearchTarget::Names)));
    assert_eq!(parse("#word"), Some(Tag::SearchType(SearchTarget::Words)));
    assert_eq!(parse("#abbrev"), Some(Tag::Misc(Misc::Abbreviation)));
    assert_eq!(parse_search_type("#Kanji"), Some(Tag::SearchType(SearchTarget::Kanji)));
    assert_eq!(parse_search_type("kanji"), None);
    assert_eq!(parse("#noun"), Some(Tag::PartOfSpeech(PosSimple::Noun)));
    assert_eq!(parse("#adj"), Some(Tag::PartOfSpeech(PosSimple::Adjective)));
    assert_eq!(parse("#unknown"), None);
    assert_eq!(parse("n4"), None);
}

#[test]
fn jlpt_number_forms() {
    assert_eq!(parse_jlpt_tag("#n04"), Some(Tag::Jlpt(4)));
    assert_eq!(parse_jlpt_tag("#n+3"), Some(Tag::Jlpt(3)));
    assert_eq!(parse_jlpt_tag("#n256"), None);
    assert_eq!(parse_jlpt_tag("#n"), None);
}

#[test]
fn extract_removes_tag_and_space() {
    let (text, tags) = extract_tags("#n4 食べる");
    assert_eq!(text, "食べる");
    assert_eq!(tags, vec![Tag::Jlpt(4)]);
}

#[test]
fn extract_keeps_unknown_tokens() {
    let (text, tags) = extract_tags("#foo bar #kanji");
    assert_eq!(text, "#foo bar");
    assert_eq!(tags, vec![Tag::SearchType(SearchTarget::Kanji)]);
}

#[test]
fn extract_several_tags_in_order() {
    let (text, tags) = extract_tags("a #n5 b #genki7 c  ");
    assert_eq!(text, "a b c");
    assert_eq!(tags, vec![Tag::Jlpt(5), Tag::GenkiLesson(7)]);
}

#[test]
fn extract_is_idempotent_on_example() {
    let (text, tags) = extract_tags("  #hidden 猫 #noun #xyz ");
    assert_eq!(text, "  猫 #xyz");
    assert_eq!(tags, vec![Tag::Hidden, Tag::PartOfSpeech(PosSimple::Noun)]);
    let (again, tags2) = extract_tags(&text);
    assert_eq!(again, text);
    assert!(tags2.is_empty());
}

#[test]
fn extract_can_join_tokens() {
    // Removing `#n4 ` joins `#hi` and `dden` into a new tag token.
    let (text, tags) = extract_tags("#hi#n4 dden");
    assert_eq!(text, "#hidden");
    assert_eq!(tags, vec![Tag::Jlpt(4)]);
    let (_, tags2) = extract_tags(&text);
    assert_eq!(tags2, vec![Tag::Hidden]);
}
