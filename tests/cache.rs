use jotoba::cache::KanjiCache;
use jotoba::kanji::Kanji;

fn kanji(id: i32, literal: &str) -> Kanji {
    Kanji {
        id,
        literal: literal.to_string(),
        meaning: vec![],
        grade: None,
        radical: None,
        stroke_count: 1,
        frequency: None,
        jlpt: None,
        variant: None,
        onyomi: None,
        kunyomi: None,
        chinese: None,
        korean_r: None,
        korean_h: None,
        natori: None,
        kun_dicts: None,
    }
}

#[test]
fn cache_names_missing_ids() {
    let mut c = KanjiCache::with_capacity(3);
    c.extend(vec![kanji(1, "一"), kanji(2, "二")]);
    assert!(c.contains_id(1));
    assert!(!c.contains_id(3));
    assert_eq!(c.missing_ids(&vec![3, 1, 4, 2]), vec![3, 4]);
}

#[test]
fn cache_evicts_oldest_when_full() {
    let mut c = KanjiCache::with_capacity(2);
    c.insert(kanji(1, "一"));
    c.insert(kanji(2, "二"));
    c.insert(kanji(3, "三"));
    assert_eq!(c.entries.len(), 2);
    assert!(!c.contains_id(1));
    assert_eq!(c.missing_ids(&vec![1, 2, 3]), vec![1]);
    c.extend(vec![kanji(4, "四"), kanji(5, "五"), kanji(6, "六")]);
    let ids: Vec<i32> = c.entries.iter().map(|k| k.id).collect();
    assert_eq!(ids, vec![5, 6]);
}
