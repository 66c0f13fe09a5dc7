use opentako::text::normalize_and_chunk;

fn chunks(text: &str) -> Vec<String> {
    normalize_and_chunk(text)
}

#[test]
fn splits_at_sentence_ends() {
    assert_eq!(chunks("Hello world. How are you?"), vec!["Hello world.", "How are you?"]);
}

#[test]
fn closes_unterminated_tail_with_full_stop() {
    assert_eq!(chunks("No ending punctuation"), vec!["No ending punctuation."]);
}

#[test]
fn drops_pieces_of_one_character() {
    assert_eq!(chunks("Wait... what?"), vec!["Wait.", "what?"]);
    assert_eq!(chunks("."), Vec::<String>::new());
    assert_eq!(chunks("!?;"), Vec::<String>::new());
}

#[test]
fn semicolon_ends_a_chunk() {
    assert_eq!(chunks("a;b"), vec!["a;", "b."]);
}

#[test]
fn empty_and_blank_text_give_nothing() {
    assert_eq!(chunks(""), Vec::<String>::new());
    assert_eq!(chunks("   \n\t "), Vec::<String>::new());
}

#[test]
fn normalizes_quotes_dashes_parentheses_and_line_feeds() {
    assert_eq!(
        chunks("\u{201C}Hi\u{201D} \u{2014} she said\u{FF08}quietly\u{FF09}.\nNext"),
        vec!["\"Hi\" - she saidquietly.", "Next."]
    );
    assert_eq!(chunks("\u{2018}ok\u{2019} \u{2013} \u{300C}x\u{300D}!"), vec!["'ok' - \"x\"!"]);
}

#[test]
fn line_feed_becomes_space_inside_a_sentence() {
    assert_eq!(chunks("one\ntwo."), vec!["one two."]);
}

#[test]
fn trims_unicode_white_space() {
    assert_eq!(chunks("\u{3000}Hi.\u{3000}"), vec!["Hi."]);
    assert_eq!(chunks("\u{A0} tail \u{2009}"), vec!["tail."]);
}

#[test]
fn every_chunk_is_one_sentence() {
    let text = "First one. Second!  third? fourth; and a tail \u{201C}quoted\u{201D}\nline";
    let out = chunks(text);
    assert_eq!(out.len(), 5);
    for c in &out {
        let cs: Vec<char> = c.chars().collect();
        assert!(cs.len() >= 2);
        assert!(!cs[0].is_whitespace());
        assert!(matches!(cs[cs.len() - 1], '.' | '!' | '?' | ';'));
        for &ch in &cs[..cs.len() - 1] {
            assert!(!matches!(ch, '.' | '!' | '?' | ';'));
        }
        assert!(!c.contains('\n'));
        assert!(!c.contains('\u{201C}'));
    }
    assert_eq!(out[4], "and a tail \"quoted\" line.");
}
