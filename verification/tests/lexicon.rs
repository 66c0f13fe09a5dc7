use opentako::bytes::same_text;
use opentako::lexicon::{Lexicon, LexiconError};

#[test]
fn loads_and_looks_up_words() {
    let lex = Lexicon::from_json(r#"{"hello":[20,61,24,100],"world":[35,60,24,17]}"#)
        .ok()
        .unwrap();
    assert_eq!(lex.len(), 2);
    assert_eq!(lex.get("hello"), Some(&vec![20, 61, 24, 100]));
    assert_eq!(lex.get("world"), Some(&vec![35, 60, 24, 17]));
    assert_eq!(lex.get("hell"), None);
    assert_eq!(lex.get("helloo"), None);
    assert_eq!(lex.get(""), None);
}

#[test]
fn finds_every_key_whatever_the_document_order() {
    let lex = Lexicon::from_json(
        r#"{"zebra":[1],"apple":[2],"mango":[3],"banana":[4],"\u00e9tat":[5],"a":[6],"ab":[7],"":[8]}"#,
    )
    .ok()
    .unwrap();
    assert_eq!(lex.len(), 8);
    let expect = [("zebra", 1), ("apple", 2), ("mango", 3), ("banana", 4), ("\u{e9}tat", 5), ("a", 6), ("ab", 7), ("", 8)];
    for (word, id) in expect {
        assert_eq!(lex.get(word), Some(&vec![id]), "{}", word);
    }
    assert_eq!(lex.get("b"), None);
    assert_eq!(lex.get("zz"), None);
    assert_eq!(lex.get("etat"), None);
}

#[test]
fn last_duplicate_wins() {
    let lex = Lexicon::from_json(r#"{"a":[1],"a":[2,3]}"#).ok().unwrap();
    assert_eq!(lex.len(), 1);
    assert_eq!(lex.get("a"), Some(&vec![2, 3]));
}

#[test]
fn rejects_malformed_json() {
    assert!(matches!(Lexicon::from_json("{not json"), Err(LexiconError::InvalidJson(_))));
    assert!(matches!(Lexicon::from_json(r#"{"a":["x"]}"#), Err(LexiconError::InvalidJson(_))));
    assert!(matches!(Lexicon::from_json("[1,2]"), Err(LexiconError::InvalidJson(_))));
    match Lexicon::from_json("") {
        Err(LexiconError::InvalidJson(msg)) => assert!(!msg.is_empty()),
        Ok(_) => panic!("empty text accepted"),
    }
}

#[test]
fn empty_lexicon() {
    let lex = Lexicon::new();
    assert_eq!(lex.len(), 0);
    assert_eq!(lex.get("a"), None);
    let lex = Lexicon::from_json("{}").ok().unwrap();
    assert_eq!(lex.len(), 0);
}

#[test]
fn text_equality() {
    assert!(same_text("tts", "tts"));
    assert!(!same_text("tts", "tt"));
    assert!(!same_text("TTS", "tts"));
    assert!(same_text("", ""));
}

#[test]
fn error_message_is_the_parser_message() {
    for text in ["{not json", r#"{"a":["x"]}"#, "[1,2]", "", r#"{"a":[1]} trailing"#] {
        let expected = serde_json::from_str::<std::collections::BTreeMap<String, Vec<i64>>>(text)
            .unwrap_err()
            .to_string();
        match Lexicon::from_json(text) {
            Err(LexiconError::InvalidJson(msg)) => assert_eq!(msg, expected),
            Ok(_) => panic!("{:?} accepted", text),
        }
    }
}
