use jotoba::language::Language;
use jotoba::suggestion::{
    dedup_sequences, katakana_retry, order_exact_first, parse_suggestion_line,
    parse_suggestion_lines, prefix_search, prepare_input, suggestion_response, word_pair_from_rows,
    SuggestionError, SuggestionItem, SuggestionRegistry, WordPair,
};

fn pair(primary: &str, secondary: Option<&str>) -> WordPair {
    WordPair { primary: primary.to_string(), secondary: secondary.map(|s| s.to_string()) }
}

#[test]
fn has_reading_checks_both_forms() {
    let p = pair("たべる", Some("食べる"));
    assert!(p.has_reading("たべる"));
    assert!(p.has_reading("食べる"));
    assert!(!p.has_reading("たべ"));
    assert!(!pair("x", None).has_reading("y"));
}

#[test]
fn exact_matches_come_first() {
    let pairs = vec![pair("たべもの", None), pair("たべる", Some("食べる")), pair("たべかた", None), pair("x", Some("たべる"))];
    let r = order_exact_first(pairs, "たべる");
    let prim: Vec<&str> = r.iter().map(|p| p.primary.as_str()).collect();
    assert_eq!(prim, vec!["たべる", "x", "たべもの", "たべかた"]);
}

#[test]
fn response_has_at_most_ten_entries() {
    let pairs: Vec<WordPair> = (0..15).map(|i| pair(&format!("w{}", i), None)).collect();
    let r = suggestion_response(pairs, "w12");
    assert_eq!(r.suggestions.len(), 10);
    assert_eq!(r.suggestions[0].primary, "w0");
    let mut pairs: Vec<WordPair> = (0..5).map(|i| pair(&format!("w{}", i), None)).collect();
    pairs.push(pair("w", None));
    let r = suggestion_response(pairs, "w");
    assert_eq!(r.suggestions.len(), 6);
    assert_eq!(r.suggestions[0].primary, "w");
    assert_eq!(r.suggestions[1].primary, "w0");
}

#[test]
fn source_lines() {
    let item = parse_suggestion_line("to eat, to consume,1358280").unwrap();
    assert_eq!(item.text, "to eat, to consume");
    assert_eq!(item.sequence, 1358280);
    let item = parse_suggestion_line("-12").unwrap();
    assert_eq!(item.text, "");
    assert_eq!(item.sequence, -12);
    assert!(parse_suggestion_line("house,abc").is_none());
    assert!(parse_suggestion_line("house,").is_none());
    assert!(parse_suggestion_line("house,2147483648").is_none());
    assert_eq!(parse_suggestion_line("x,-2147483648").unwrap().sequence, i32::MIN);
}

#[test]
fn one_bad_line_fails_the_source() {
    let good = vec!["a,1".to_string(), "b,2".to_string()];
    let items = parse_suggestion_lines(&good).unwrap();
    assert_eq!(items.len(), 2);
    assert_eq!(items[1].get_text(), "b");
    let bad = vec!["a,1".to_string(), "b".to_string()];
    assert!(parse_suggestion_lines(&bad).is_none());
}

fn items(texts: &[&str]) -> Vec<SuggestionItem> {
    texts.iter().enumerate().map(|(i, t)| SuggestionItem { text: t.to_string(), sequence: i as i32 }).collect()
}

#[test]
fn prefix_lookup_per_language() {
    let registry = SuggestionRegistry {
        languages: vec![(Language::English, items(&["house", "horse", "mouse", "home"]))],
    };
    let r = registry.search("ho", Language::English).unwrap();
    let prim: Vec<&str> = r.iter().map(|p| p.primary.as_str()).collect();
    assert_eq!(prim, vec!["house", "horse", "home"]);
    assert!(r.iter().all(|p| p.secondary.is_none()));
    assert!(registry.search("ho", Language::German).is_none());
    let many: Vec<String> = (0..20).map(|i| format!("a{}", i)).collect();
    let refs: Vec<&str> = many.iter().map(|s| s.as_str()).collect();
    assert_eq!(prefix_search(&items(&refs), "a").len(), 10);
}

#[test]
fn rows_pair_kana_with_kanji() {
    let rows = vec![("食べる".to_string(), true), ("たべる".to_string(), false)];
    let p = word_pair_from_rows(&rows).unwrap();
    assert_eq!(p.primary, "たべる");
    assert_eq!(p.secondary.as_deref(), Some("食べる"));
    assert!(word_pair_from_rows(&vec![("食".to_string(), true)]).is_none());
    let p = word_pair_from_rows(&vec![("ねこ".to_string(), false)]).unwrap();
    assert_eq!(p.secondary, None);
}

#[test]
fn consecutive_sequences_are_merged() {
    assert_eq!(dedup_sequences(&vec![1, 1, 2, 1, 3, 3]), vec![1, 2, 1, 3]);
    assert_eq!(dedup_sequences(&vec![]), Vec::<i32>::new());
}

#[test]
fn input_length_is_checked() {
    assert_eq!(prepare_input(""), Err(SuggestionError::BadRequest));
    let long: String = std::iter::repeat('a').take(38).collect();
    assert_eq!(prepare_input(&long), Err(SuggestionError::BadRequest));
    let max: String = std::iter::repeat('a').take(37).collect();
    assert_eq!(prepare_input(&max), Ok(max.clone()));
    assert_eq!(prepare_input("たべr"), Ok("たべ".to_string()));
    assert_eq!(prepare_input("house"), Ok("house".to_string()));
}

#[test]
fn hiragana_query_is_retried_in_katakana() {
    assert_eq!(katakana_retry("てれび", 0), Some("テレビ".to_string()));
    assert_eq!(katakana_retry("てれび", 3), None);
    assert_eq!(katakana_retry("tv", 0), None);
}
