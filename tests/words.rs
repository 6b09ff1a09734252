use jotoba::dict::{Dict, Priority};
use jotoba::language::Language;
use jotoba::tags::PosSimple;
use jotoba::words::{get_intransitive_counterpart, get_transitive_counterpart, Gloss, Reading, Sense, Word};

fn dict(reading: &str, kanji: bool, prio: bool) -> Dict {
    Dict {
        sequence: 1,
        reading: reading.to_string(),
        kanji,
        priorities: if prio { Some(vec![Priority::Ichi(1)]) } else { None },
        jlpt_lvl: None,
    }
}

fn sense(language: Language, glosses: &[&str], pos: &[PosSimple]) -> Sense {
    Sense {
        language,
        glosses: glosses.iter().map(|g| Gloss { gloss: g.to_string() }).collect(),
        part_of_speech: pos.to_vec(),
    }
}

fn word() -> Word {
    Word {
        sequence: 1358280,
        priorities: None,
        reading: Reading {
            kana: dict("たべる", false, false),
            kanji: Some(dict("食べる", true, true)),
            alternative: vec![dict("喰べる", true, false), dict("食る", true, false)],
        },
        senses: vec![
            sense(Language::English, &["to eat"], &[PosSimple::Verb]),
            sense(Language::German, &["essen", "speisen"], &[PosSimple::Verb, PosSimple::Noun]),
        ],
        accents: None,
        furigana: None,
        jlpt_lvl: Some(5),
        transive_version: Some(2),
        intransive_version: None,
    }
}

#[test]
fn word_readings_and_tags() {
    let w = word();
    assert_eq!(w.get_reading().reading, "食べる");
    assert!(w.is_common());
    assert_eq!(w.get_jlpt_lvl(), Some(5));
    assert_eq!(w.get_word_tag_count(), 2);
    assert!(!w.is_katakana_word());
    assert_eq!(w.alt_readings_beautified(), "喰べる, 食る");
    assert_eq!(w.audio_file(), Some("食べる【たべる】.ogg".to_string()));
}

#[test]
fn katakana_word() {
    let r = Reading { kana: dict("テレビ", false, false), kanji: None, alternative: vec![] };
    assert!(r.is_katakana());
    assert_eq!(r.get_reading().reading, "テレビ");
}

#[test]
fn senses_grouped_by_language() {
    let w = word();
    let g = w.get_senses();
    assert_eq!(g[0].len(), 1);
    assert_eq!(g[0][0].language, Language::German);
    assert_eq!(g[1][0].language, Language::English);
    let o = w.get_senses_orderd(true, Language::German);
    assert_eq!(o[0][0].language, Language::English);
    assert_eq!(w.glosses_pretty(), "essen, speisen");
    assert_eq!(w.get_pos(), vec![PosSimple::Verb, PosSimple::Verb, PosSimple::Noun]);
}

#[test]
fn glosses_fall_back_to_english() {
    let mut w = word();
    w.senses.truncate(1);
    assert_eq!(w.glosses_pretty(), "to eat");
    w.reading.kanji = None;
    assert_eq!(w.audio_file(), None);
    assert!(!w.is_common());
}

#[test]
fn senses_of_one_language() {
    let w = word();
    let de = w.senses_by_lang(Language::German).unwrap();
    assert_eq!(de.len(), 1);
    assert_eq!(de[0].glosses[1].gloss, "speisen");
    assert!(w.senses_by_lang(Language::French).is_none());
}

#[test]
fn counterparts_by_sequence() {
    let w = word();
    let mut other = word();
    other.sequence = 2;
    other.transive_version = None;
    let store = vec![word(), other];
    assert_eq!(get_transitive_counterpart(&w, &store).map(|x| x.sequence), Some(2));
    assert!(get_intransitive_counterpart(&w, &store).is_none());
    assert!(get_transitive_counterpart(&w, &vec![word()]).is_none());
}
