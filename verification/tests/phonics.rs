use opentako::phonics::guess_word_phonemes;

#[test]
fn empty_word_has_no_phonemes() {
    assert_eq!(guess_word_phonemes(""), Vec::<i64>::new());
}

#[test]
fn short_vowel_in_closed_syllable() {
    assert_eq!(guess_word_phonemes("cat"), vec![23, 39, 32]);
}

#[test]
fn magic_e_makes_vowel_long_and_is_silent() {
    assert_eq!(guess_word_phonemes("make"), vec![25, 18, 74, 23]);
}

#[test]
fn final_e_after_a_letter_is_silent() {
    assert_eq!(guess_word_phonemes("be"), vec![15]);
    assert_eq!(guess_word_phonemes("e"), vec![21]);
}

#[test]
fn digraphs_are_read_as_units() {
    assert_eq!(guess_word_phonemes("ship"), vec![96, 74, 28]);
    assert_eq!(guess_word_phonemes("queen"), vec![23, 35, 21, 26]);
    assert_eq!(guess_word_phonemes("chat"), vec![32, 96, 39, 32]);
    assert_eq!(guess_word_phonemes("sing"), vec![31, 74, 44]);
}

#[test]
fn tion_and_open_syllable() {
    assert_eq!(guess_word_phonemes("nation"), vec![26, 18, 74, 96, 74, 51, 26]);
}

#[test]
fn soft_g_and_y_as_vowel() {
    assert_eq!(guess_word_phonemes("gym"), vec![17, 108, 74, 25]);
    assert_eq!(guess_word_phonemes("fly"), vec![19, 24, 51, 74]);
}

#[test]
fn soft_and_hard_c() {
    assert_eq!(guess_word_phonemes("cell"), vec![31, 61, 24, 24]);
    assert_eq!(guess_word_phonemes("cup"), vec![23, 102, 28]);
}

#[test]
fn digits_and_symbols_give_nothing() {
    assert_eq!(guess_word_phonemes("123"), Vec::<i64>::new());
    assert_eq!(guess_word_phonemes("#!"), Vec::<i64>::new());
}

#[test]
fn guessed_ids_come_from_the_rule_tables() {
    let table = [
        14, 15, 17, 18, 19, 20, 21, 23, 24, 25, 26, 27, 28, 30, 31, 32, 33, 34, 35, 37, 38, 39,
        44, 51, 54, 60, 61, 66, 74, 96, 100, 102, 108, 126,
    ];
    for w in ["thought", "xylophone", "quick", "brown", "jumps", "over", "lazy", "dog", "tako"] {
        for id in guess_word_phonemes(w) {
            assert!(table.contains(&id), "{} gave {}", w, id);
        }
    }
}
