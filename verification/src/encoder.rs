//! Turns a sentence into the phoneme-id sequence that the speech model
//! reads: lexicon lookup with a phonics fallback, pause ids from the
//! punctuation, sentence start and end marks, and blank ids in between.
use vstd::prelude::*;

use crate::chars::{chars_of, is_white_space, string_from_chars, white_space};
use crate::lexicon::Lexicon;
use crate::phonics::{guess_phonemes, guess_word_phonemes};

verus! {

/// The lowercase form of a string, as `str::to_lowercase` computes it.
pub uninterp spec fn str_lowercase(s: Seq<char>) -> Seq<char>;

/// Whether a character has the Unicode `Alphabetic` property, as
/// `char::is_alphabetic` decides it.
pub uninterp spec fn char_is_alphabetic(c: char) -> bool;

/// Lowercases a string.
///
/// Calls `str::to_lowercase`; claims only that the result is the one that
/// the name `str_lowercase` gives the argument.
#[verifier::external_body]
fn lowercase(s: &str) -> (r: String)
    ensures
        r@ == str_lowercase(s@),
{
    s.to_lowercase()
}

/// Whether `c` is a letter.
///
/// Calls `char::is_alphabetic`; claims only that the result is the one
/// that the name `char_is_alphabetic` gives the argument.
#[verifier::external_body]
fn alphabetic(c: char) -> (b: bool)
    ensures
        b == char_is_alphabetic(c),
{
    c.is_alphabetic()
}

/// Id of the sentence start mark.
pub open spec fn start_id() -> i64 {
    1
}

/// Id of the sentence end mark.
pub open spec fn end_id() -> i64 {
    2
}

/// Id of the blank placed around every other id.
pub open spec fn blank_id() -> i64 {
    0
}

/// The ids read for a word that neither the lexicon nor phonics can say.
pub open spec fn hum_ids() -> Seq<i64> {
    seq![20, 25]
}

/// The words of `rest`, given the word `current` read so far: maximal runs
/// of characters without white space.
pub open spec fn words_from(rest: Seq<char>, current: Seq<char>) -> Seq<Seq<char>>
    decreases rest.len(),
{
    let closed = if current.len() > 0 {
        seq![current]
    } else {
        seq![]
    };
    if rest.len() == 0 {
        closed
    } else if is_white_space(rest[0]) {
        closed + words_from(rest.drop_first(), seq![])
    } else {
        words_from(rest.drop_first(), current.push(rest[0]))
    }
}

/// The words of a text, split at white space as `str::split_whitespace`
/// does.
pub open spec fn split_words(s: Seq<char>) -> Seq<Seq<char>> {
    words_from(s, seq![])
}

/// The letters of a word.
pub open spec fn letters_of(w: Seq<char>) -> Seq<char> {
    w.filter(|c: char| char_is_alphabetic(c))
}

/// The pause after a word, from its last character: 8 after a comma, 10
/// after a full stop or exclamation mark, 13 after a question mark, and 3
/// (a plain word gap) otherwise.
pub open spec fn pause_id(w: Seq<char>) -> i64 {
    if w.len() > 0 && w.last() == ',' {
        8
    } else if w.len() > 0 && (w.last() == '.' || w.last() == '!') {
        10
    } else if w.len() > 0 && w.last() == '?' {
        13
    } else {
        3
    }
}

/// The ids of a word's letters: the lexicon's entry, else the phonics
/// guess, else a hum when phonics has nothing either.
pub open spec fn spoken_ids(lexicon: Map<Seq<char>, Seq<i64>>, letters: Seq<char>) -> Seq<i64> {
    if lexicon.contains_key(letters) {
        lexicon[letters]
    } else if guess_phonemes(letters).len() > 0 {
        guess_phonemes(letters)
    } else {
        hum_ids()
    }
}

/// The ids of one word: nothing for a word without letters, else the ids
/// of its letters followed by its pause.
pub open spec fn word_ids(lexicon: Map<Seq<char>, Seq<i64>>, w: Seq<char>) -> Seq<i64> {
    let letters = letters_of(w);
    if letters.len() == 0 {
        seq![]
    } else {
        spoken_ids(lexicon, letters) + seq![pause_id(w)]
    }
}

/// The ids of a list of words, one after the other.
pub open spec fn words_ids(lexicon: Map<Seq<char>, Seq<i64>>, ws: Seq<Seq<char>>) -> Seq<i64>
    decreases ws.len(),
{
    if ws.len() == 0 {
        seq![]
    } else {
        words_ids(lexicon, ws.drop_last()) + word_ids(lexicon, ws.last())
    }
}

/// The ids of a lowercased sentence between the start and end marks.
pub open spec fn sentence_ids(lexicon: Map<Seq<char>, Seq<i64>>, lowered: Seq<char>) -> Seq<i64> {
    seq![start_id()] + words_ids(lexicon, split_words(lowered)) + seq![end_id()]
}

/// `ids` with a blank before, between and after its ids.
pub open spec fn intersperse(ids: Seq<i64>) -> Seq<i64>
    decreases ids.len(),
{
    if ids.len() == 0 {
        seq![blank_id()]
    } else {
        intersperse(ids.drop_last()) + seq![ids.last(), blank_id()]
    }
}

/// The model input for a text: its lowercased sentence ids, interspersed
/// with blanks.
pub open spec fn text_ids(lexicon: Map<Seq<char>, Seq<i64>>, text: Seq<char>) -> Seq<i64> {
    intersperse(sentence_ids(lexicon, str_lowercase(text)))
}

/// Interspersing puts a blank at every even position and the ids, in
/// order, at the odd positions: `n` ids become `2n + 1`.
pub proof fn intersperse_places_blanks(ids: Seq<i64>)
    ensures
        intersperse(ids).len() == 2 * ids.len() + 1,
        forall|k: int| 0 <= k <= ids.len() ==> #[trigger] intersperse(ids)[2 * k] == blank_id(),
        forall|k: int| 0 <= k < ids.len() ==> #[trigger] intersperse(ids)[2 * k + 1] == ids[k],
    decreases ids.len(),
{
    if ids.len() > 0 {
        let prev = ids.drop_last();
        intersperse_places_blanks(prev);
        let n = ids.len() - 1;
        assert forall|k: int| 0 <= k <= ids.len() implies #[trigger] intersperse(ids)[2 * k] == blank_id() by {
            if k < ids.len() {
                assert(intersperse(ids)[2 * k] == intersperse(prev)[2 * k]);
            }
        }
        assert forall|k: int| 0 <= k < ids.len() implies #[trigger] intersperse(ids)[2 * k + 1] == ids[k] by {
            if k < n {
                assert(intersperse(ids)[2 * k + 1] == intersperse(prev)[2 * k + 1]);
                assert(prev[k] == ids[k]);
            }
        }
    }
}

/// The model input for any text opens with a blank and the start mark and
/// closes with the end mark and a blank, and holds every sentence id at an
/// odd position.
pub proof fn text_ids_are_framed(lexicon: Map<Seq<char>, Seq<i64>>, text: Seq<char>)
    ensures
        text_ids(lexicon, text).len() >= 5,
        text_ids(lexicon, text)[0] == blank_id(),
        text_ids(lexicon, text)[1] == start_id(),
        text_ids(lexicon, text)[text_ids(lexicon, text).len() - 2] == end_id(),
        text_ids(lexicon, text).last() == blank_id(),
        text_ids(lexicon, text).len() == 2 * sentence_ids(lexicon, str_lowercase(text)).len() + 1,
{
    let ids = sentence_ids(lexicon, str_lowercase(text));
    intersperse_places_blanks(ids);
    let n = ids.len() as int;
    assert(ids[0] == start_id());
    assert(ids[n - 1] == end_id());
    assert(intersperse(ids)[2 * 0int] == blank_id());
    assert(intersperse(ids)[2 * 0int + 1] == ids[0]);
    assert(intersperse(ids)[2 * (n - 1) + 1] == ids[n - 1]);
    assert(intersperse(ids)[2 * n] == blank_id());
}

/// Whether a word has at least one letter.
pub open spec fn has_letters(w: Seq<char>) -> bool {
    letters_of(w).len() > 0
}

proof fn lemma_words_ids_push(lexicon: Map<Seq<char>, Seq<i64>>, ws: Seq<Seq<char>>, w: Seq<char>)
    ensures
        words_ids(lexicon, ws.push(w)) == words_ids(lexicon, ws) + word_ids(lexicon, w),
{
    assert(ws.push(w).drop_last() =~= ws);
}

/// Words without letters (numbers, lone punctuation) add no ids at all,
/// not even a pause: the ids of a word list are those of its words that
/// have letters.
pub proof fn letterless_words_add_nothing(lexicon: Map<Seq<char>, Seq<i64>>, ws: Seq<Seq<char>>)
    ensures
        words_ids(lexicon, ws) == words_ids(lexicon, ws.filter(|w: Seq<char>| has_letters(w))),
    decreases ws.len(),
{
    reveal_with_fuel(Seq::filter, 1);
    if ws.len() > 0 {
        let pred = |w: Seq<char>| has_letters(w);
        letterless_words_add_nothing(lexicon, ws.drop_last());
        let sub = ws.drop_last().filter(pred);
        if pred(ws.last()) {
            lemma_words_ids_push(lexicon, sub, ws.last());
        } else {
            assert(word_ids(lexicon, ws.last()) =~= Seq::<i64>::empty());
            assert(words_ids(lexicon, ws) =~= words_ids(lexicon, ws.drop_last()));
        }
    }
}

/// Words joined by single spaces.
pub open spec fn join_words(ws: Seq<Seq<char>>) -> Seq<char>
    decreases ws.len(),
{
    if ws.len() == 0 {
        seq![]
    } else if ws.len() == 1 {
        ws[0]
    } else {
        ws[0] + seq![' '] + join_words(ws.drop_first())
    }
}

/// A word as `split_words` yields it: not empty, without white space.
pub open spec fn is_bare_word(w: Seq<char>) -> bool {
    w.len() > 0 && forall|k: int| 0 <= k < w.len() ==> !is_white_space(#[trigger] w[k])
}

proof fn lemma_words_from_bare(rest: Seq<char>, current: Seq<char>)
    requires
        forall|k: int| 0 <= k < current.len() ==> !is_white_space(#[trigger] current[k]),
    ensures
        forall|i: int| 0 <= i < words_from(rest, current).len() ==> is_bare_word(
            #[trigger] words_from(rest, current)[i],
        ),
    decreases rest.len(),
{
    if rest.len() == 0 {
        if current.len() > 0 {
            assert(words_from(rest, current) =~= seq![current]);
            assert(is_bare_word(current));
        } else {
            assert(words_from(rest, current) =~= Seq::<Seq<char>>::empty());
        }
    } else if is_white_space(rest[0]) {
        lemma_words_from_bare(rest.drop_first(), seq![]);
        let closed = if current.len() > 0 {
            seq![current]
        } else {
            seq![]
        };
        let tail = words_from(rest.drop_first(), seq![]);
        assert(words_from(rest, current) == closed + tail);
        if current.len() > 0 {
            assert(is_bare_word(current));
        }
        assert forall|i: int| 0 <= i < (closed + tail).len() implies is_bare_word(
            #[trigger] (closed + tail)[i],
        ) by {
            if i >= closed.len() {
                assert((closed + tail)[i] == tail[i - closed.len()]);
            }
        }
    } else {
        let next = current.push(rest[0]);
        assert forall|k: int| 0 <= k < next.len() implies !is_white_space(#[trigger] next[k]) by {
            if k < current.len() {
                assert(next[k] == current[k]);
            }
        }
        lemma_words_from_bare(rest.drop_first(), next);
        assert(words_from(rest, current) == words_from(rest.drop_first(), next));
    }
}

proof fn lemma_words_from_word(w: Seq<char>, rest: Seq<char>, current: Seq<char>)
    requires
        forall|k: int| 0 <= k < w.len() ==> !is_white_space(#[trigger] w[k]),
    ensures
        words_from(w + rest, current) == words_from(rest, current + w),
    decreases w.len(),
{
    if w.len() > 0 {
        assert((w + rest)[0] == w[0]);
        assert((w + rest).drop_first() =~= w.drop_first() + rest);
        assert forall|k: int| 0 <= k < w.drop_first().len() implies !is_white_space(
            #[trigger] w.drop_first()[k],
        ) by {
            assert(w.drop_first()[k] == w[k + 1]);
        }
        lemma_words_from_word(w.drop_first(), rest, current.push(w[0]));
        assert(current.push(w[0]) + w.drop_first() =~= current + w);
    } else {
        assert(w + rest =~= rest);
        assert(current + w =~= current);
    }
}

proof fn lemma_split_join(ws: Seq<Seq<char>>)
    requires
        forall|i: int| 0 <= i < ws.len() ==> is_bare_word(#[trigger] ws[i]),
    ensures
        split_words(join_words(ws)) == ws,
    decreases ws.len(),
{
    if ws.len() == 0 {
    } else if ws.len() == 1 {
        let w = ws[0];
        assert(is_bare_word(w));
        lemma_words_from_word(w, seq![], seq![]);
        assert(w + Seq::<char>::empty() =~= w);
        assert(Seq::<char>::empty() + w =~= w);
        assert(split_words(join_words(ws)) =~= ws);
    } else {
        let w = ws[0];
        let rest = ws.drop_first();
        assert(is_bare_word(w));
        assert forall|i: int| 0 <= i < rest.len() implies is_bare_word(#[trigger] rest[i]) by {
            assert(rest[i] == ws[i + 1]);
        }
        lemma_split_join(rest);
        let tail = seq![' '] + join_words(rest);
        assert(join_words(ws) =~= w + tail);
        lemma_words_from_word(w, tail, seq![]);
        assert(Seq::<char>::empty() + w =~= w);
        assert(tail[0] == ' ');
        assert(tail.drop_first() =~= join_words(rest));
        assert(words_from(tail, w) == seq![w] + words_from(join_words(rest), seq![]));
        assert(split_words(join_words(ws)) =~= ws);
    }
}

/// Re-spacing a lowercased text, so that its words stand between single
/// spaces, does not change its sentence ids: words are split at any run of
/// white space.
pub proof fn respacing_keeps_sentence_ids(lexicon: Map<Seq<char>, Seq<i64>>, lowered: Seq<char>)
    ensures
        split_words(join_words(split_words(lowered))) == split_words(lowered),
        sentence_ids(lexicon, join_words(split_words(lowered))) == sentence_ids(lexicon, lowered),
{
    lemma_words_from_bare(lowered, seq![]);
    lemma_split_join(split_words(lowered));
}

proof fn lemma_words_from_space(s: Seq<char>, r: Seq<char>, current: Seq<char>)
    ensures
        words_from(s + seq![' '] + r, current) == words_from(s, current) + words_from(r, seq![]),
    decreases s.len(),
{
    let sr = s + seq![' '] + r;
    if s.len() == 0 {
        assert(sr =~= seq![' '] + r);
        assert(sr[0] == ' ');
        assert(sr.drop_first() =~= r);
    } else {
        assert(sr[0] == s[0]);
        assert(sr.drop_first() =~= s.drop_first() + seq![' '] + r);
        if is_white_space(s[0]) {
            lemma_words_from_space(s.drop_first(), r, seq![]);
            let closed = if current.len() > 0 {
                seq![current]
            } else {
                seq![]
            };
            assert(words_from(sr, current) =~= closed + words_from(s.drop_first(), seq![])
                + words_from(r, seq![]));
        } else {
            lemma_words_from_space(s.drop_first(), r, current.push(s[0]));
        }
    }
}

/// Appending a space and a word to a text appends that word to its words.
proof fn lemma_split_append_word(s: Seq<char>, w: Seq<char>)
    requires
        is_bare_word(w),
    ensures
        split_words(s + seq![' '] + w) == split_words(s).push(w),
{
    lemma_words_from_space(s, w, seq![]);
    lemma_words_from_word(w, seq![], seq![]);
    assert(w + Seq::<char>::empty() =~= w);
    assert(Seq::<char>::empty() + w =~= w);
    assert(words_from(Seq::<char>::empty(), w) =~= seq![w]);
}

/// Every word of a sentence is encoded, however many there are: appending
/// a space and a word to a lowercased text inserts exactly that word's ids
/// before the end mark.
pub proof fn appending_a_word_appends_its_ids(
    lexicon: Map<Seq<char>, Seq<i64>>,
    lowered: Seq<char>,
    w: Seq<char>,
)
    requires
        is_bare_word(w),
    ensures
        sentence_ids(lexicon, lowered + seq![' '] + w) == sentence_ids(lexicon, lowered).drop_last()
            + word_ids(lexicon, w) + seq![end_id()],
{
    lemma_split_append_word(lowered, w);
    lemma_words_ids_push(lexicon, split_words(lowered), w);
    let before = sentence_ids(lexicon, lowered);
    assert(before.drop_last() =~= seq![start_id()] + words_ids(lexicon, split_words(lowered)));
    assert(sentence_ids(lexicon, lowered + seq![' '] + w) =~= before.drop_last() + word_ids(lexicon, w)
        + seq![end_id()]);
}

/// A word with letters that the lexicon holds is spoken with exactly the
/// lexicon's ids, whatever its length, followed by its pause; in a
/// sentence, those ids come right after the ids of the words before it.
pub proof fn lexicon_words_use_lexicon_ids(
    lexicon: Map<Seq<char>, Seq<i64>>,
    lowered: Seq<char>,
    w: Seq<char>,
)
    requires
        has_letters(w),
        lexicon.contains_key(letters_of(w)),
    ensures
        word_ids(lexicon, w) == lexicon[letters_of(w)] + seq![pause_id(w)],
        is_bare_word(w) ==> sentence_ids(lexicon, lowered + seq![' '] + w) == sentence_ids(
            lexicon,
            lowered,
        ).drop_last() + lexicon[letters_of(w)] + seq![pause_id(w), end_id()],
{
    if is_bare_word(w) {
        appending_a_word_appends_its_ids(lexicon, lowered, w);
        assert(sentence_ids(lexicon, lowered).drop_last() + word_ids(lexicon, w) + seq![end_id()]
            =~= sentence_ids(lexicon, lowered).drop_last() + lexicon[letters_of(w)] + seq![
            pause_id(w),
            end_id(),
        ]);
    }
}

/// Splits a text into its words at white space.
pub fn split_whitespace_words(s: &Vec<char>) -> (words: Vec<Vec<char>>)
    ensures
        words@.map_values(|w: Vec<char>| w@) == split_words(s@),
{
    let n = s.len();
    let mut words: Vec<Vec<char>> = Vec::new();
    let mut current: Vec<char> = Vec::new();
    let mut i: usize = 0;
    proof {
        assert(s@.skip(0) =~= s@);
    }
    while i < n
        invariant
            i <= n == s.len(),
            words@.map_values(|w: Vec<char>| w@) + words_from(s@.skip(i as int), current@)
                == split_words(s@),
        decreases n - i,
    {
        let c = s[i];
        let ghost before = words@.map_values(|w: Vec<char>| w@);
        let ghost cur = current@;
        proof {
            assert(s@.skip(i as int)[0] == c);
            assert(s@.skip(i as int).drop_first() =~= s@.skip(i + 1));
        }
        if white_space(c) {
            if current.len() > 0 {
                words.push(current);
                proof {
                    assert(words@.map_values(|w: Vec<char>| w@) =~= before + seq![cur]);
                }
            } else {
                proof {
                    assert(before + Seq::<Seq<char>>::empty() =~= before);
                }
            }
            current = Vec::new();
            proof {
                assert(current@ =~= Seq::<char>::empty());
                assert(words@.map_values(|w: Vec<char>| w@) + words_from(s@.skip(i + 1), current@)
                    =~= before + words_from(s@.skip(i as int), cur));
            }
        } else {
            current.push(c);
        }
        i += 1;
    }
    let ghost before = words@.map_values(|w: Vec<char>| w@);
    proof {
        assert(s@.skip(n as int) =~= Seq::<char>::empty());
    }
    if current.len() > 0 {
        let ghost cur = current@;
        words.push(current);
        proof {
            assert(words@.map_values(|w: Vec<char>| w@) =~= before + seq![cur]);
        }
    } else {
        proof {
            assert(before + Seq::<Seq<char>>::empty() =~= before);
        }
    }
    words
}

/// The letters of a word, in order.
fn letters(w: &Vec<char>) -> (r: Vec<char>)
    ensures
        r@ == letters_of(w@),
{
    let mut r: Vec<char> = Vec::new();
    let mut i: usize = 0;
    while i < w.len()
        invariant
            i <= w.len(),
            r@ == w@.take(i as int).filter(|c: char| char_is_alphabetic(c)),
        decreases w.len() - i,
    {
        proof {
            assert(w@.take(i + 1).drop_last() =~= w@.take(i as int));
            reveal_with_fuel(Seq::filter, 1);
        }
        if alphabetic(w[i]) {
            r.push(w[i]);
        }
        i += 1;
    }
    proof {
        assert(w@.take(w.len() as int) =~= w@);
    }
    r
}

/// The pause id after a word.
fn pause(w: &Vec<char>) -> (p: i64)
    ensures
        p == pause_id(w@),
{
    let n = w.len();
    if n == 0 {
        3
    } else {
        let last = w[n - 1];
        if last == ',' {
            8
        } else if last == '.' || last == '!' {
            10
        } else if last == '?' {
            13
        } else {
            3
        }
    }
}

/// Appends the ids of one word.
fn push_word_ids(out: &mut Vec<i64>, lexicon: &Lexicon, w: &Vec<char>)
    ensures
        final(out)@ == old(out)@ + word_ids(lexicon@, w@),
{
    let clean = letters(w);
    if clean.len() == 0 {
        proof {
            assert(old(out)@ + word_ids(lexicon@, w@) =~= old(out)@);
        }
        return;
    }
    let clean_word = string_from_chars(&clean);
    match lexicon.get(clean_word.as_str()) {
        Some(ids) => {
            out.extend_from_slice(ids.as_slice());
        },
        None => {
            let guessed = guess_word_phonemes(clean_word.as_str());
            if guessed.len() == 0 {
                out.push(20);
                out.push(25);
            } else {
                out.extend_from_slice(guessed.as_slice());
            }
        },
    }
    out.push(pause(w));
    proof {
        assert(final(out)@ =~= old(out)@ + word_ids(lexicon@, w@));
    }
}

/// The sentence ids of an already lowercased text: the start mark, the ids
/// of each word followed by its pause, and the end mark.
pub fn lowercase_sentence_ids(lexicon: &Lexicon, lowered: &str) -> (ids: Vec<i64>)
    ensures
        ids@ == sentence_ids(lexicon@, lowered@),
{
    let words = split_whitespace_words(&chars_of(lowered));
    let ghost ws = words@.map_values(|w: Vec<char>| w@);
    let mut ids: Vec<i64> = Vec::new();
    ids.push(1);
    let mut i: usize = 0;
    while i < words.len()
        invariant
            i <= words.len(),
            ws == words@.map_values(|w: Vec<char>| w@),
            ws == split_words(lowered@),
            ids@ == seq![start_id()] + words_ids(lexicon@, ws.take(i as int)),
        decreases words.len() - i,
    {
        proof {
            assert(ws.take(i + 1).drop_last() =~= ws.take(i as int));
            assert(ws.take(i + 1).last() == words@[i as int]@);
        }
        push_word_ids(&mut ids, lexicon, &words[i]);
        proof {
            assert(ids@ =~= seq![start_id()] + words_ids(lexicon@, ws.take(i + 1)));
        }
        i += 1;
    }
    proof {
        assert(ws.take(words.len() as int) =~= ws);
    }
    ids.push(2);
    ids
}

/// `ids` with a blank id before, between and after its ids.
pub fn intersperse_blanks(ids: &Vec<i64>) -> (out: Vec<i64>)
    ensures
        out@ == intersperse(ids@),
{
    let mut out: Vec<i64> = Vec::new();
    out.push(0);
    let mut i: usize = 0;
    proof {
        assert(out@ =~= intersperse(ids@.take(0)));
    }
    while i < ids.len()
        invariant
            i <= ids.len(),
            out@ == intersperse(ids@.take(i as int)),
        decreases ids.len() - i,
    {
        proof {
            assert(ids@.take(i + 1).drop_last() =~= ids@.take(i as int));
        }
        out.push(ids[i]);
        out.push(0);
        proof {
            assert(out@ =~= intersperse(ids@.take(i + 1)));
        }
        i += 1;
    }
    proof {
        assert(ids@.take(ids.len() as int) =~= ids@);
    }
    out
}

impl Lexicon {
    /// The phoneme-id input of the speech model for `text`: the text is
    /// lowercased, split into words at white space, each word's letters are
    /// looked up in the lexicon (or guessed by phonics, or hummed), each
    /// word is followed by a pause id from its punctuation, the whole is
    /// framed by the start and end marks and interspersed with blanks.
    pub fn text_to_phoneme_ids(&self, text: &str) -> (ids: Vec<i64>)
        ensures
            ids@ == text_ids(self@, text@),
    {
        let lowered = lowercase(text);
        let raw = lowercase_sentence_ids(self, lowered.as_str());
        intersperse_blanks(&raw)
    }
}

} // verus!
