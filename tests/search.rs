use jotoba::language::Language;
use jotoba::search::{Document, Index, SearchError, SearchTask};
use jotoba::vector::{dot_product, score_percent, similarity_above, squared_norm, SparseVector};

fn vector(entries: &[(u32, u16)]) -> SparseVector {
    SparseVector { entries: entries.to_vec() }
}

fn single_doc_index(language: Option<Language>) -> Index {
    Index {
        language,
        terms: vec!["zero".to_string(), "one".to_string()],
        documents: vec![Document { id: 7, vector: vector(&[(1, 1)]), outputs: vec![70] }],
    }
}

#[test]
fn single_document_scores_one_hundred() {
    let indexes = vec![single_doc_index(None)];
    for limit in [1usize, 2, 1000] {
        let task = SearchTask::new("one").limit(limit);
        let res = task.find(&indexes).unwrap();
        assert_eq!(res.items.len(), 1);
        assert_eq!(res.total, 1);
        assert_eq!(res.items[0].item, 70);
        assert_eq!(res.items[0].relevance, 100);
        assert_eq!(res.items[0].language, None);
    }
}

#[test]
fn defaults_of_a_new_task() {
    let t = SearchTask::new("one");
    assert_eq!(t.threshold, 20);
    assert_eq!(t.limit, 1000);
    assert_eq!(t.vector_limit, 100_000);
    assert_eq!(t.offset, 0);
    assert!(t.allow_align);
    assert!(!t.allow_align(false).allow_align);
}

#[test]
fn unknown_query_finds_nothing() {
    let indexes = vec![single_doc_index(None)];
    let res = SearchTask::new("two").find(&indexes).unwrap();
    assert!(res.items.is_empty());
    assert_eq!(res.total, 0);
}

#[test]
fn missing_language_index_is_unexpected() {
    let indexes = vec![single_doc_index(None)];
    let task = SearchTask::with_language("one", Language::German);
    assert_eq!(task.find(&indexes).unwrap_err(), SearchError::Unexpected);
}

#[test]
fn language_is_carried_to_items() {
    let indexes = vec![single_doc_index(None), single_doc_index(Some(Language::German))];
    let task = SearchTask::with_language("one", Language::German);
    let res = task.find(&indexes).unwrap();
    assert_eq!(res.items[0].language, Some(Language::German));
    let two = SearchTask::new("one").add_language_query("one", Language::German);
    assert_eq!(two.query_count(), 2);
    let res = two.find(&indexes).unwrap();
    assert_eq!(res.items.len(), 1);
    assert_eq!(res.items[0].language, None);
}

fn three_doc_index() -> Index {
    Index {
        language: None,
        terms: vec!["a".to_string(), "b".to_string(), "c".to_string()],
        documents: vec![
            Document { id: 1, vector: vector(&[(0, 1), (1, 3)]), outputs: vec![10] },
            Document { id: 2, vector: vector(&[(0, 1)]), outputs: vec![20, 21] },
            Document { id: 3, vector: vector(&[(0, 1), (2, 1)]), outputs: vec![30] },
        ],
    }
}

#[test]
fn ranking_and_pagination() {
    let indexes = vec![three_doc_index()];
    let full = SearchTask::new("a").find(&indexes).unwrap();
    let ids: Vec<u64> = full.items.iter().map(|i| i.item).collect();
    assert_eq!(ids, vec![20, 21, 30, 10]);
    let scores: Vec<usize> = full.items.iter().map(|i| i.relevance).collect();
    assert_eq!(scores, vec![100, 100, 71, 32]);
    assert_eq!(full.total, 4);
    let page = SearchTask::new("a").offset(1).limit(1).find(&indexes).unwrap();
    assert_eq!(page.items.len(), 1);
    assert_eq!(page.items[0].item, 21);
    assert_eq!(page.total, 4);
    let past = SearchTask::new("a").offset(5).find(&indexes).unwrap();
    assert!(past.items.is_empty());
}

#[test]
fn threshold_excludes_low_similarity() {
    let indexes = vec![three_doc_index()];
    // Document 1 has similarity 1/sqrt(10), about 0.316.
    let res = SearchTask::new("a").threshold(32).find(&indexes).unwrap();
    let ids: Vec<u64> = res.items.iter().map(|i| i.item).collect();
    assert_eq!(ids, vec![20, 21, 30]);
    let res = SearchTask::new("a").threshold(31).find(&indexes).unwrap();
    assert_eq!(res.items.len(), 4);
    assert_eq!(res.items[3].item, 10);
    assert_eq!(res.items[3].relevance, 32);
}

#[test]
fn two_queries_yield_each_output_once() {
    let indexes = vec![three_doc_index()];
    let mut task = SearchTask::new("a");
    task.add_query("c");
    assert_eq!(task.query_count(), 2);
    let res = task.find(&indexes).unwrap();
    let ids: Vec<u64> = res.items.iter().map(|i| i.item).collect();
    assert_eq!(ids, vec![20, 21, 30, 10]);
}

#[test]
fn has_term_checks_vocabulary() {
    let indexes = vec![three_doc_index()];
    assert!(SearchTask::new("b").has_term(&indexes));
    assert!(!SearchTask::new("d").has_term(&indexes));
}

#[test]
fn similarity_arithmetic() {
    let a = vector(&[(0, 3), (4, 4)]);
    let b = vector(&[(0, 3), (4, 4)]);
    let c = vector(&[(1, 2)]);
    assert_eq!(dot_product(&a, &b), 25);
    assert_eq!(squared_norm(&a), 25);
    assert_eq!(score_percent(25, 625), 100);
    assert_eq!(dot_product(&a, &c), 0);
    assert_eq!(score_percent(0, 25 * 4), 0);
    assert!(similarity_above(1, 4, 49));
    assert!(!similarity_above(1, 4, 50));
    assert!(!similarity_above(0, 0, 0));
    // 3 / 5 rounds to 60, 0.555.. rounds to 56
    assert_eq!(score_percent(3, 25), 60);
    assert_eq!(score_percent(5, 81), 56);
}
