use jotoba::dict::{Dict, Priority};
use jotoba::kanji::{
    format_reading, get_kun_by_literal, kun_len, kun_literal_reading, kun_matches_kanji, ReadingType,
};

#[test]
fn kun_matches_left_variable() {
    assert!(kun_matches_kanji("古", "ふる-", "ふるいえ", "古いいえ"));
}

#[test]
fn kun_matches_full_reading() {
    assert!(kun_matches_kanji("新", "あたらしい", "あたらしい", "新しい"));
}

#[test]
fn kun_matches_okurigana() {
    assert!(kun_matches_kanji("疼", "うず.く", "うずく", "疼く"));
    assert!(!kun_matches_kanji("新", "あら-", "しんあん", "新案"));
}

#[test]
fn kun_matches_right_variable_and_exact() {
    assert!(kun_matches_kanji("込", "-こ", "よびこ", "呼び込"));
    assert!(!kun_matches_kanji("込", "-こ", "よびか", "呼び込"));
    assert!(!kun_matches_kanji("木", "き", "きのこ", "茸木"));
    assert!(kun_matches_kanji("木", "き", "き", "茸木"));
}

#[test]
fn reading_notation() {
    assert_eq!(format_reading("-うず.く"), "うずく");
    assert_eq!(kun_literal_reading("うず.く"), "うず");
    assert_eq!(kun_literal_reading("ふる-"), "ふる");
    assert_eq!(kun_len("うず.く-"), 3);
}

fn dict(sequence: i32, reading: &str, kanji: bool, prio: usize, jlpt: Option<i32>) -> Dict {
    Dict {
        sequence,
        reading: reading.to_string(),
        kanji,
        priorities: if prio > 0 { Some(vec![Priority::News(1); prio]) } else { None },
        jlpt_lvl: jlpt,
    }
}

#[test]
fn compounds_need_a_fitting_kun() {
    let dicts = vec![
        dict(1, "ふるい", false, 0, None),
        dict(1, "古い", true, 0, None),
        dict(2, "こてん", false, 0, None),
        dict(2, "古典", true, 0, None),
        dict(3, "ふるほん", false, 0, None),
        dict(4, "ふるいえ", false, 0, None),
        dict(4, "古いいえ", true, 0, None),
    ];
    let kun = vec!["ふる.い".to_string(), "ふる-".to_string()];
    assert_eq!(get_kun_by_literal("古", &kun, &dicts), vec![1, 4]);
    // ふるいえ is longer than the kun reading ふる- as written.
    let kun = vec!["ふる-".to_string()];
    assert_eq!(get_kun_by_literal("古", &kun, &dicts), vec![1]);
}

#[test]
fn more_than_ten_compounds_are_ranked() {
    let mut dicts = Vec::new();
    for i in 0..12 {
        let kana = format!("ふる{}", ["あ", "い", "う", "え", "お", "か", "き", "く", "け", "こ", "さ", "し"][i]);
        let prio = if i == 3 { 1 } else { 0 };
        let jlpt = if i == 5 { Some(2) } else if i == 6 { Some(4) } else { None };
        dicts.push(dict(i as i32, &kana, false, 0, None));
        let mut kd = dict(i as i32, &format!("古{}", i), true, prio, jlpt);
        if i == 11 {
            kd.reading = "ふる".to_string();
        }
        dicts.push(kd);
    }
    let kun = vec!["ふる-".to_string()];
    let r = get_kun_by_literal("古", &kun, &dicts);
    assert_eq!(r.len(), 10);
    assert_eq!(&r[..4], &[11, 3, 6, 5]);
    assert_eq!(&r[4..], &[0, 1, 2, 4, 7, 8]);
}

fn kanji() -> jotoba::kanji::Kanji {
    jotoba::kanji::Kanji {
        id: 1,
        literal: "生".to_string(),
        meaning: vec!["life".to_string()],
        grade: Some(1),
        radical: None,
        stroke_count: 5,
        frequency: None,
        jlpt: Some(5),
        variant: None,
        onyomi: Some(vec!["セイ".to_string(), "ショウ".to_string()]),
        kunyomi: Some(vec!["い.きる".to_string(), "なま".to_string(), "セイ".to_string()]),
        chinese: None,
        korean_r: None,
        korean_h: None,
        natori: None,
        kun_dicts: None,
    }
}

#[test]
fn kanji_reading_types() {
    let k = kanji();
    assert_eq!(k.get_reading_type(&"ショウ".to_string()), Some(ReadingType::Onyomi));
    assert_eq!(k.get_reading_type(&"なま".to_string()), Some(ReadingType::Kunyomi));
    assert_eq!(k.get_reading_type(&"セイ".to_string()), None);
    assert_eq!(k.get_reading_type(&"き".to_string()), None);
    assert!(k.has_reading(&"ショウ".to_string()));
    assert!(!k.has_reading(&"き".to_string()));
    assert!(k.in_kun_reading(&"い.きる".to_string()));
    assert!(!k.in_on_reading(&"なま".to_string()));
}

#[test]
fn kanji_format_reading() {
    let k = kanji();
    assert_eq!(k.format_reading("い.きる", ReadingType::Kunyomi), "生きる");
    assert_eq!(k.format_reading("なま-", ReadingType::Kunyomi), "生");
    assert_eq!(k.format_reading("セイ", ReadingType::Onyomi), "生");
}
