use opentako::encoder::{intersperse_blanks, lowercase_sentence_ids, split_whitespace_words};
use opentako::lexicon::Lexicon;

fn lexicon() -> Lexicon {
    Lexicon::from_json(r#"{"hello":[50,51]}"#).ok().unwrap()
}

#[test]
fn lexicon_words_guessed_words_and_pauses() {
    let ids = lexicon().text_to_phoneme_ids("Hello, world!");
    assert_eq!(
        ids,
        vec![0, 1, 0, 50, 0, 51, 0, 8, 0, 35, 0, 54, 0, 30, 0, 24, 0, 17, 0, 10, 0, 2, 0]
    );
}

#[test]
fn uppercase_is_lowered_before_lookup() {
    let ids = lexicon().text_to_phoneme_ids("HELLO");
    assert_eq!(ids, vec![0, 1, 0, 50, 0, 51, 0, 3, 0, 2, 0]);
}

#[test]
fn empty_text_is_just_the_frame() {
    assert_eq!(lexicon().text_to_phoneme_ids(""), vec![0, 1, 0, 2, 0]);
}

#[test]
fn words_without_letters_are_skipped() {
    assert_eq!(lexicon().text_to_phoneme_ids("123 ? --"), vec![0, 1, 0, 2, 0]);
}

#[test]
fn unsayable_letters_hum() {
    assert_eq!(
        lexicon().text_to_phoneme_ids("q"),
        vec![0, 1, 0, 20, 0, 25, 0, 3, 0, 2, 0]
    );
    assert_eq!(
        lexicon().text_to_phoneme_ids("\u{e9}."),
        vec![0, 1, 0, 20, 0, 25, 0, 10, 0, 2, 0]
    );
}

#[test]
fn question_mark_pause() {
    let lex = Lexicon::new();
    assert_eq!(lowercase_sentence_ids(&lex, "why?"), vec![1, 35, 20, 51, 74, 13, 2]);
}

#[test]
fn punctuation_inside_a_word_is_dropped_from_lookup() {
    assert_eq!(lowercase_sentence_ids(&lexicon(), "(hello)"), vec![1, 50, 51, 3, 2]);
    assert_eq!(lowercase_sentence_ids(&lexicon(), "hel-lo."), vec![1, 50, 51, 10, 2]);
}

#[test]
fn intersperse_puts_blanks_around_ids() {
    assert_eq!(intersperse_blanks(&vec![]), vec![0]);
    assert_eq!(intersperse_blanks(&vec![7, 8, 9]), vec![0, 7, 0, 8, 0, 9, 0]);
}

#[test]
fn splits_at_any_white_space() {
    let text: Vec<char> = "  a b\u{3000}cd\n\te  ".chars().collect();
    let words: Vec<String> =
        split_whitespace_words(&text).into_iter().map(|w| w.into_iter().collect()).collect();
    assert_eq!(words, vec!["a", "b", "cd", "e"]);
    assert!(split_whitespace_words(&Vec::new()).is_empty());
}

#[test]
fn letterless_words_and_spacing_do_not_change_ids() {
    let lex = lexicon();
    let plain = lex.text_to_phoneme_ids("hi");
    assert_eq!(lex.text_to_phoneme_ids("Hi 42 !"), plain);
    assert_eq!(lex.text_to_phoneme_ids("  HI \n"), plain);
    assert_eq!(
        lowercase_sentence_ids(&lex, "hello ,\u{3000}  world\n\tagain"),
        lowercase_sentence_ids(&lex, "hello , world again")
    );
}
