use jotoba::language::{language_from_code, Language};
use jotoba::producers::{Engine, Find, ForeignProducer, NativeSearch};
use jotoba::query::{QueryLang, QueryParser, UserSettings};
use jotoba::search::{Document, Index, SearchError, SearchTask};
use jotoba::suggestion::{foreign_suggestions, SuggestionItem, SuggestionRegistry};
use jotoba::vector::SparseVector;

fn settings(user_lang: Language) -> UserSettings {
    UserSettings { user_lang, show_english: false }
}

fn index(terms: &[&str]) -> Index {
    Index {
        language: None,
        terms: terms.iter().map(|t| t.to_string()).collect(),
        documents: vec![Document { id: 1, vector: SparseVector { entries: vec![(1, 2)] }, outputs: vec![5] }],
    }
}

#[test]
fn engine_looks_up_query_and_segments() {
    let idx = index(&["犬", "猫"]);
    let segs = vec!["猫".to_string(), "が".to_string(), "好き".to_string()];
    let v = Engine::gen_query_vector(&idx, "猫が好き", &segs).unwrap();
    assert_eq!(v.entries, vec![(1, 1)]);
    assert!(Engine::gen_query_vector(&idx, "猫が好き", &vec![]).is_none());
    let v = Engine::gen_query_vector(&idx, "犬", &vec!["猫".to_string()]).unwrap();
    assert_eq!(v.entries, vec![(0, 1), (1, 1)]);
}

#[test]
fn native_task_finds_whole_query() {
    let idx = vec![index(&["犬", "猫"])];
    let task = NativeSearch::new(
        QueryParser::new("猫".to_string(), settings(Language::English)).parse().unwrap(),
        "猫".to_string(),
    )
    .task();
    let res = task.find(&idx).unwrap();
    assert_eq!(res.items.len(), 1);
    assert_eq!(res.items[0].item, 5);
}

#[test]
fn task_looks_up_segments() {
    let idx = vec![index(&["犬", "猫"])];
    let task = SearchTask::new("猫が好き");
    assert!(task.find(&idx).unwrap().items.is_empty());
    let segs = vec![vec!["猫".to_string(), "が".to_string(), "好き".to_string()]];
    let res = SearchTask::new("猫が好き").with_segments(segs).find(&idx).unwrap();
    assert_eq!(res.items.len(), 1);
    assert_eq!(res.items[0].item, 5);
}

#[test]
fn native_search_has_term() {
    let idx = vec![index(&["犬", "猫"])];
    assert!(NativeSearch::has_term("猫", &idx));
    assert!(!NativeSearch::has_term("鳥", &idx));
    assert!(!NativeSearch::has_term("猫", &vec![]));
}

#[test]
fn foreign_producer_task() {
    let q = QueryParser::new("cat".to_string(), settings(Language::German)).parse().unwrap();
    let p = ForeignProducer::new(q, Language::German);
    assert!(p.should_run());
    let t = p.task();
    assert_eq!(t.queries, vec![("cat".to_string(), Some(Language::German))]);
    let q = QueryParser::new("猫".to_string(), settings(Language::German)).parse().unwrap();
    assert!(!ForeignProducer::new(q, Language::German).should_run());
}

#[test]
fn find_ranks_by_similarity() {
    let idx = vec![index(&["dog", "cat"])];
    let res = Find::new("cat", 10, 0).find(&idx).unwrap();
    assert_eq!(res.items.len(), 1);
    assert_eq!(res.items[0].relevance, 100);
    assert_eq!(res.items[0].language, Some(Language::English));
    let german = vec![Index { language: Some(Language::German), ..index(&["cat"]) }];
    assert_eq!(Find::new("cat", 10, 0).find(&german).unwrap_err(), SearchError::Unexpected);
}

#[test]
fn language_codes() {
    assert_eq!(language_from_code("eng"), Some(Language::English));
    assert_eq!(language_from_code("ger"), Some(Language::German));
    assert_eq!(language_from_code("xyz"), None);
}

#[test]
fn foreign_suggestions_use_user_language() {
    let registry = SuggestionRegistry {
        languages: vec![(
            Language::German,
            vec![
                SuggestionItem { text: "Katzen".to_string(), sequence: 1 },
                SuggestionItem { text: "Katze".to_string(), sequence: 2 },
            ],
        )],
    };
    let q = QueryParser::new("Katze".to_string(), settings(Language::German)).parse().unwrap();
    assert_eq!(q.language, QueryLang::Foreign);
    let r = foreign_suggestions(&registry, &q);
    let prim: Vec<&str> = r.suggestions.iter().map(|p| p.primary.as_str()).collect();
    assert_eq!(prim, vec!["Katze", "Katzen"]);
    let q = QueryParser::new("Katze".to_string(), settings(Language::English)).parse().unwrap();
    assert!(foreign_suggestions(&registry, &q).suggestions.is_empty());
}
