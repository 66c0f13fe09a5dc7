//! Checks the library against direct std-based formulations of the same
//! rules on many generated inputs.
use std::collections::HashMap;

use opentako::chars::white_space;
use opentako::lexicon::Lexicon;
use opentako::phonics::guess_word_phonemes;
use opentako::text::normalize_and_chunk;

const ALPHABET: &[char] = &[
    'a', 'e', 'i', 'o', 'u', 'y', 'b', 'c', 'g', 'h', 'k', 'n', 'q', 's', 't', 'r', 'w', 'x',
    'A', 'E', 'T', 'H', ' ', ' ', '\n', '\t', '.', '!', '?', ';', ',', '-', '1', '\u{e9}',
    '\u{201C}', '\u{201D}', '\u{2018}', '\u{2019}', '\u{2014}', '\u{2013}', '\u{300C}',
    '\u{300D}', '\u{FF08}', '\u{FF09}', '\u{3000}', '\u{A0}', '\u{4E2D}',
];

struct Gen(u64);

impl Gen {
    fn next(&mut self) -> u64 {
        self.0 ^= self.0 << 13;
        self.0 ^= self.0 >> 7;
        self.0 ^= self.0 << 17;
        self.0
    }

    fn text(&mut self, alphabet: &[char], max_len: u64) -> String {
        let len = self.next() % (max_len + 1);
        (0..len).map(|_| alphabet[(self.next() % alphabet.len() as u64) as usize]).collect()
    }
}

fn plain_chunks(raw_text: &str) -> Vec<String> {
    let cleaned = raw_text
        .replace(['\u{201C}', '\u{201D}', '\u{300C}', '\u{300D}'], "\"")
        .replace(['\u{2018}', '\u{2019}'], "'")
        .replace(['\u{2014}', '\u{2013}'], "-")
        .replace(['\u{FF08}', '\u{FF09}'], "")
        .replace('\n', " ");
    let mut chunks = Vec::new();
    let mut current = String::new();
    for c in cleaned.chars() {
        current.push(c);
        if c == '.' || c == '!' || c == '?' || c == ';' {
            let chunk = current.trim().to_string();
            if chunk.len() > 1 {
                chunks.push(chunk);
            }
            current.clear();
        }
    }
    if !current.trim().is_empty() {
        chunks.push(format!("{}.", current.trim()));
    }
    chunks
}

fn plain_guess(word: &str) -> Vec<i64> {
    let chars: Vec<char> = word.chars().collect();
    let mut phonemes = Vec::new();
    let mut i = 0;

    let is_vowel = |c: char| matches!(c, 'a' | 'e' | 'i' | 'o' | 'u' | 'y');

    while i < chars.len() {
        let c = chars[i];

        if c == 'e' && i == chars.len() - 1 && i > 0 {
            break;
        }

        if i + 1 < chars.len() {
            let digraph = format!("{}{}", chars[i], chars[i + 1]);
            let mut matched = true;
            match digraph.as_str() {
                "sh" => phonemes.push(96),
                "ch" => phonemes.extend_from_slice(&[32, 96]),
                "th" => phonemes.push(126),
                "ph" => phonemes.push(19),
                "ee" | "ea" => phonemes.push(21),
                "oo" => phonemes.push(33),
                "oa" => phonemes.extend_from_slice(&[27, 100]),
                "ai" | "ay" => phonemes.extend_from_slice(&[18, 74]),
                "ar" => phonemes.extend_from_slice(&[51, 30]),
                "er" | "ir" | "ur" => phonemes.push(60),
                "or" => phonemes.extend_from_slice(&[54, 30]),
                "ou" | "ow" => phonemes.extend_from_slice(&[14, 100]),
                "qu" => phonemes.extend_from_slice(&[23, 35]),
                "ck" => phonemes.push(23),
                "ng" => phonemes.push(44),
                _ => matched = false,
            }
            if matched {
                i += 2;
                continue;
            }
        }

        if is_vowel(c) {
            let mut is_long = false;

            if i + 2 < chars.len() && !is_vowel(chars[i + 1]) && chars[i + 2] == 'e' && i + 3 == chars.len() {
                is_long = true;
            }
            else if i + 2 < chars.len() && !is_vowel(chars[i + 1]) && is_vowel(chars[i + 2]) {
                is_long = true;
            }
            else if i == chars.len() - 1 {
                is_long = true;
            }

            if is_long {
                match c {
                    'a' => phonemes.extend_from_slice(&[18, 74]),
                    'e' => phonemes.push(21),
                    'i' | 'y' => phonemes.extend_from_slice(&[51, 74]),
                    'o' => phonemes.extend_from_slice(&[27, 100]),
                    'u' => phonemes.extend_from_slice(&[37, 33]),
                    _ => {}
                }
            } else {
                match c {
                    'a' => phonemes.push(39),
                    'e' => phonemes.push(61),
                    'i' | 'y' => phonemes.push(74),
                    'o' => phonemes.push(51),
                    'u' => phonemes.push(102),
                    _ => {}
                }
            }
            i += 1;
            continue;
        }

        match c {
            'b' => phonemes.push(15),
            'c' => {
                if i + 1 < chars.len() && matches!(chars[i+1], 'e' | 'i' | 'y') {
                    phonemes.push(31);
                } else {
                    phonemes.push(23);
                }
            }
            'd' => phonemes.push(17),
            'f' => phonemes.push(19),
            'g' => {
                if i + 1 < chars.len() && matches!(chars[i+1], 'e' | 'i' | 'y') {
                    phonemes.extend_from_slice(&[17, 108]);
                } else {
                    phonemes.push(66);
                }
            }
            'h' => phonemes.push(20),
            'j' => phonemes.extend_from_slice(&[17, 108]),
            'k' => phonemes.push(23),
            'l' => phonemes.push(24),
            'm' => phonemes.push(25),
            'n' => phonemes.push(26),
            'p' => phonemes.push(28),
            'r' => phonemes.push(30),
            's' => phonemes.push(31),
            't' => {
                if i + 3 < chars.len() && chars[i + 1] == 'i' && chars[i + 2] == 'o' && chars[i + 3] == 'n' {
                    phonemes.push(96);
                } else {
                    phonemes.push(32);
                }
            }
            'v' => phonemes.push(34),
            'w' => phonemes.push(35),
            'x' => phonemes.extend_from_slice(&[23, 31]),
            'z' => phonemes.push(38),
            _ => {}
        }
        i += 1;
    }

    phonemes
}

fn plain_sentence_ids(lexicon: &HashMap<String, Vec<i64>>, text: &str) -> Vec<i64> {
    let mut ids: Vec<i64> = vec![1];
    for word in text.to_lowercase().split_whitespace() {
        let clean: String = word.chars().filter(|c| c.is_alphabetic()).collect();
        if clean.is_empty() {
            continue;
        }
        if let Some(found) = lexicon.get(&clean) {
            ids.extend_from_slice(found);
        } else {
            let guessed = guess_word_phonemes(&clean);
            if guessed.is_empty() {
                ids.extend_from_slice(&[20, 25]);
            } else {
                ids.extend(guessed);
            }
        }
        if word.ends_with(',') {
            ids.push(8);
        } else if word.ends_with('.') || word.ends_with('!') {
            ids.push(10);
        } else if word.ends_with('?') {
            ids.push(13);
        } else {
            ids.push(3);
        }
    }
    ids.push(2);
    let mut out = vec![0];
    for id in ids {
        out.push(id);
        out.push(0);
    }
    out
}

#[test]
fn white_space_matches_std_for_every_char() {
    for u in 0..=0x10FFFFu32 {
        if let Some(c) = char::from_u32(u) {
            assert_eq!(white_space(c), c.is_whitespace(), "U+{:04X}", u);
        }
    }
}

#[test]
fn chunking_agrees_with_std_string_operations() {
    let mut g = Gen(0x9E3779B97F4A7C15);
    for _ in 0..5000 {
        let text = g.text(ALPHABET, 40);
        assert_eq!(normalize_and_chunk(&text), plain_chunks(&text), "{:?}", text);
    }
}

#[test]
fn phoneme_ids_agree_with_hash_map_lookup() {
    let json = r#"{"the":[41,59],"hat":[20,39,32],"sun":[31,102,26],"tea":[32,21],"\u00e9t\u00e9":[61]}"#;
    let lexicon = Lexicon::from_json(json).ok().unwrap();
    let map: HashMap<String, Vec<i64>> = serde_json::from_str(json).unwrap();
    let words = ["the", "The", "HAT,", "sun.", "tea?", "\u{c9}T\u{c9}!", "cat", "q", "123", "-x-"];
    let mut g = Gen(0x2545F4914F6CDD1D);
    for _ in 0..3000 {
        let n = g.next() % 6;
        let mut text = String::new();
        for _ in 0..n {
            text.push_str(words[(g.next() % words.len() as u64) as usize]);
            text.push_str(&g.text(&[' ', '\n', '\u{3000}', ','], 2));
        }
        text.push_str(&g.text(ALPHABET, 8));
        assert_eq!(lexicon.text_to_phoneme_ids(&text), plain_sentence_ids(&map, &text), "{:?}", text);
    }
}

#[test]
fn phonics_agrees_with_pairwise_rules() {
    let letters: Vec<char> = "abcdefghijklmnopqrstuvwxyz1-\u{e9}".chars().collect();
    let vowels_and_friends: Vec<char> = "aeiouyecgthsnrkqw".chars().collect();
    let mut g = Gen(0xD1B54A32D192ED03);
    for _ in 0..20000 {
        let w = if g.next() % 2 == 0 { g.text(&letters, 9) } else { g.text(&vowels_and_friends, 7) };
        assert_eq!(guess_word_phonemes(&w), plain_guess(&w), "{:?}", w);
    }
}
