//! Rule-based phonics: a guess at the phoneme ids of a word that the
//! lexicon does not know.
use vstd::prelude::*;

use crate::chars::chars_of;

verus! {

/// The letters that the phonics rules treat as vowels.
pub open spec fn is_vowel(c: char) -> bool {
    c == 'a' || c == 'e' || c == 'i' || c == 'o' || c == 'u' || c == 'y'
}

/// Ids of the two-letter spellings that are read as a unit.
pub open spec fn digraph_ids(a: char, b: char) -> Option<Seq<i64>> {
    if a == 's' && b == 'h' {
        Some(seq![96])
    } else if a == 'c' && b == 'h' {
        Some(seq![32, 96])
    } else if a == 't' && b == 'h' {
        Some(seq![126])
    } else if a == 'p' && b == 'h' {
        Some(seq![19])
    } else if a == 'e' && (b == 'e' || b == 'a') {
        Some(seq![21])
    } else if a == 'o' && b == 'o' {
        Some(seq![33])
    } else if a == 'o' && b == 'a' {
        Some(seq![27, 100])
    } else if a == 'a' && (b == 'i' || b == 'y') {
        Some(seq![18, 74])
    } else if a == 'a' && b == 'r' {
        Some(seq![51, 30])
    } else if (a == 'e' || a == 'i' || a == 'u') && b == 'r' {
        Some(seq![60])
    } else if a == 'o' && b == 'r' {
        Some(seq![54, 30])
    } else if a == 'o' && (b == 'u' || b == 'w') {
        Some(seq![14, 100])
    } else if a == 'q' && b == 'u' {
        Some(seq![23, 35])
    } else if a == 'c' && b == 'k' {
        Some(seq![23])
    } else if a == 'n' && b == 'g' {
        Some(seq![44])
    } else {
        None
    }
}

/// Ids of a vowel read long, as the letter's own name.
pub open spec fn long_vowel_ids(c: char) -> Seq<i64> {
    if c == 'a' {
        seq![18, 74]
    } else if c == 'e' {
        seq![21]
    } else if c == 'i' || c == 'y' {
        seq![51, 74]
    } else if c == 'o' {
        seq![27, 100]
    } else if c == 'u' {
        seq![37, 33]
    } else {
        seq![]
    }
}

/// Ids of a vowel read short, as in a closed syllable.
pub open spec fn short_vowel_ids(c: char) -> Seq<i64> {
    if c == 'a' {
        seq![39]
    } else if c == 'e' {
        seq![61]
    } else if c == 'i' || c == 'y' {
        seq![74]
    } else if c == 'o' {
        seq![51]
    } else if c == 'u' {
        seq![102]
    } else {
        seq![]
    }
}

/// Whether the vowel at `i` is read long: a magic `e` (vowel, consonant,
/// final `e`), an open syllable (vowel, consonant, vowel), or the last letter.
pub open spec fn is_long_vowel_at(w: Seq<char>, i: int) -> bool {
    ||| i + 2 < w.len() && !is_vowel(w[i + 1]) && w[i + 2] == 'e' && i + 3 == w.len()
    ||| i + 2 < w.len() && !is_vowel(w[i + 1]) && is_vowel(w[i + 2])
    ||| i == w.len() - 1
}

/// Whether the letter after `i` is `e`, `i` or `y` (soft `c` and `g`).
pub open spec fn softens_at(w: Seq<char>, i: int) -> bool {
    i + 1 < w.len() && (w[i + 1] == 'e' || w[i + 1] == 'i' || w[i + 1] == 'y')
}

/// Ids of the consonant at `i`; other characters have none.
pub open spec fn consonant_ids(w: Seq<char>, i: int) -> Seq<i64> {
    let c = w[i];
    if c == 'b' {
        seq![15]
    } else if c == 'c' {
        if softens_at(w, i) {
            seq![31]
        } else {
            seq![23]
        }
    } else if c == 'd' {
        seq![17]
    } else if c == 'f' {
        seq![19]
    } else if c == 'g' {
        if softens_at(w, i) {
            seq![17, 108]
        } else {
            seq![66]
        }
    } else if c == 'h' {
        seq![20]
    } else if c == 'j' {
        seq![17, 108]
    } else if c == 'k' {
        seq![23]
    } else if c == 'l' {
        seq![24]
    } else if c == 'm' {
        seq![25]
    } else if c == 'n' {
        seq![26]
    } else if c == 'p' {
        seq![28]
    } else if c == 'r' {
        seq![30]
    } else if c == 's' {
        seq![31]
    } else if c == 't' {
        if w.len() - i > 3 && w[i + 1] == 'i' && w[i + 2] == 'o' && w[i + 3] == 'n' {
            seq![96]
        } else {
            seq![32]
        }
    } else if c == 'v' {
        seq![34]
    } else if c == 'w' {
        seq![35]
    } else if c == 'x' {
        seq![23, 31]
    } else if c == 'z' {
        seq![38]
    } else {
        seq![]
    }
}

/// Whether `i` holds a silent final `e` (the last letter, with another
/// letter before it).
pub open spec fn is_silent_e_at(w: Seq<char>, i: int) -> bool {
    w[i] == 'e' && i == w.len() - 1 && i > 0
}

/// The ids guessed for `w` from position `i` on, reading left to right:
/// a silent final `e` ends the word, a digraph is read as a unit, a vowel
/// is read long or short, and any other character by the consonant rules.
pub open spec fn guess_from(w: Seq<char>, i: int) -> Seq<i64>
    decreases w.len() - i,
{
    if i < 0 || i >= w.len() {
        seq![]
    } else if is_silent_e_at(w, i) {
        seq![]
    } else if i + 1 < w.len() && digraph_ids(w[i], w[i + 1]) is Some {
        digraph_ids(w[i], w[i + 1])->0 + guess_from(w, i + 2)
    } else if is_vowel(w[i]) {
        (if is_long_vowel_at(w, i) {
            long_vowel_ids(w[i])
        } else {
            short_vowel_ids(w[i])
        }) + guess_from(w, i + 1)
    } else {
        consonant_ids(w, i) + guess_from(w, i + 1)
    }
}

/// The ids guessed for a whole word.
pub open spec fn guess_phonemes(w: Seq<char>) -> Seq<i64> {
    guess_from(w, 0)
}

/// The phoneme ids that the phonics rules can emit.
pub open spec fn is_phonics_id(x: i64) -> bool {
    x == 14 || x == 15 || x == 17 || x == 18 || x == 19 || x == 20 || x == 21 || x == 23 || x == 24
        || x == 25 || x == 26 || x == 27 || x == 28 || x == 30 || x == 31 || x == 32 || x == 33
        || x == 34 || x == 35 || x == 37 || x == 38 || x == 39 || x == 44 || x == 51 || x == 54
        || x == 60 || x == 61 || x == 66 || x == 74 || x == 96 || x == 100 || x == 102 || x == 108
        || x == 126
}

/// Whether `c` is a lowercase ASCII letter.
pub open spec fn is_ascii_lower(c: char) -> bool {
    'a' <= c <= 'z'
}

proof fn lemma_all_ids_concat(a: Seq<i64>, b: Seq<i64>)
    requires
        forall|k: int| 0 <= k < a.len() ==> is_phonics_id(#[trigger] a[k]),
        forall|k: int| 0 <= k < b.len() ==> is_phonics_id(#[trigger] b[k]),
    ensures
        forall|k: int| 0 <= k < (a + b).len() ==> is_phonics_id(#[trigger] (a + b)[k]),
{
    assert forall|k: int| 0 <= k < (a + b).len() implies is_phonics_id(#[trigger] (a + b)[k]) by {
        if k >= a.len() {
            assert((a + b)[k] == b[k - a.len()]);
        }
    }
}

proof fn lemma_guess_from_ids(w: Seq<char>, i: int)
    ensures
        forall|k: int| 0 <= k < guess_from(w, i).len() ==> is_phonics_id(#[trigger] guess_from(w, i)[k]),
        (forall|k: int| 0 <= k < w.len() ==> !is_ascii_lower(#[trigger] w[k])) ==> guess_from(w, i).len() == 0,
    decreases w.len() - i,
{
    if i < 0 || i >= w.len() || is_silent_e_at(w, i) {
    } else if i + 1 < w.len() && digraph_ids(w[i], w[i + 1]) is Some {
        lemma_guess_from_ids(w, i + 2);
        lemma_all_ids_concat(digraph_ids(w[i], w[i + 1])->0, guess_from(w, i + 2));
        if forall|k: int| 0 <= k < w.len() ==> !is_ascii_lower(#[trigger] w[k]) {
            assert(!is_ascii_lower(w[i]));
        }
    } else {
        lemma_guess_from_ids(w, i + 1);
        let head = if is_vowel(w[i]) {
            if is_long_vowel_at(w, i) {
                long_vowel_ids(w[i])
            } else {
                short_vowel_ids(w[i])
            }
        } else {
            consonant_ids(w, i)
        };
        assert(guess_from(w, i) == head + guess_from(w, i + 1));
        lemma_all_ids_concat(head, guess_from(w, i + 1));
        if forall|k: int| 0 <= k < w.len() ==> !is_ascii_lower(#[trigger] w[k]) {
            assert(!is_ascii_lower(w[i]));
            assert(head.len() == 0);
        }
    }
}

/// Every id that the phonics rules guess is one of the phoneme ids of the
/// rule tables, and a word without any lowercase ASCII letter (all digits
/// or symbols) gets no guess at all.
pub proof fn guess_uses_phonics_ids(w: Seq<char>)
    ensures
        forall|k: int| 0 <= k < guess_phonemes(w).len() ==> is_phonics_id(#[trigger] guess_phonemes(w)[k]),
        (forall|k: int| 0 <= k < w.len() ==> !is_ascii_lower(#[trigger] w[k])) ==> guess_phonemes(w).len() == 0,
{
    lemma_guess_from_ids(w, 0);
}

/// Whether `w` ends with the letters `tion`.
pub open spec fn ends_with_tion(w: Seq<char>) -> bool {
    let n = w.len();
    n >= 4 && w[n - 4] == 't' && w[n - 3] == 'i' && w[n - 2] == 'o' && w[n - 1] == 'n'
}

/// No digraph has `t` as its second letter.
proof fn lemma_no_digraph_ending_in_t(a: char)
    ensures
        digraph_ids(a, 't') is None,
{
}

proof fn lemma_tion_prefix_from(w: Seq<char>, s: Seq<char>, i: int)
    requires
        ends_with_tion(w),
        s.len() > 0,
        !is_vowel(s[0]),
        s[0] != 'g',
        0 <= i <= w.len() - 4,
    ensures
        guess_from(w + s, i) == guess_from(w, i) + guess_from(w + s, w.len() as int),
    decreases w.len() - i,
{
    let n = w.len() as int;
    let ww = w + s;
    assert(ww.len() == n + s.len());
    assert forall|k: int| 0 <= k < n implies #[trigger] ww[k] == w[k] by {}
    assert(ww[n] == s[0]);
    if i == n - 4 {
        assert(guess_from(w, n) =~= Seq::<i64>::empty());
        assert(guess_from(w, n - 1) == seq![26i64] + guess_from(w, n));
        assert(guess_from(w, n - 2) == seq![51i64] + guess_from(w, n - 1));
        assert(guess_from(w, n - 3) == seq![74i64] + guess_from(w, n - 2));
        assert(guess_from(w, n - 4) == seq![96i64] + guess_from(w, n - 3));
        assert(guess_from(w, i) =~= seq![96i64, 74, 51, 26]);
        assert(digraph_ids(ww[n - 1], ww[n]) is None);
        assert(guess_from(ww, n - 1) == seq![26i64] + guess_from(ww, n));
        assert(guess_from(ww, n - 2) == seq![51i64] + guess_from(ww, n - 1));
        assert(guess_from(ww, n - 3) == seq![74i64] + guess_from(ww, n - 2));
        assert(guess_from(ww, n - 4) == seq![96i64] + guess_from(ww, n - 3));
        assert(guess_from(ww, i) =~= seq![96i64, 74, 51, 26] + guess_from(ww, n));
    } else {
        assert(ww[i] == w[i]);
        assert(ww[i + 1] == w[i + 1]);
        assert(ww[i + 2] == w[i + 2]);
        assert(ww[i + 3] == w[i + 3]);
        if digraph_ids(w[i], w[i + 1]) is Some {
            if i == n - 5 {
                lemma_no_digraph_ending_in_t(w[i]);
            }
            lemma_tion_prefix_from(w, s, i + 2);
            let d = digraph_ids(w[i], w[i + 1])->0;
            assert(guess_from(ww, i) == d + guess_from(ww, i + 2));
            assert(guess_from(w, i) == d + guess_from(w, i + 2));
            assert(guess_from(ww, i) =~= guess_from(w, i) + guess_from(ww, n));
        } else {
            lemma_tion_prefix_from(w, s, i + 1);
            let head = if is_vowel(w[i]) {
                if is_long_vowel_at(w, i) {
                    long_vowel_ids(w[i])
                } else {
                    short_vowel_ids(w[i])
                }
            } else {
                consonant_ids(w, i)
            };
            assert(is_long_vowel_at(ww, i) == is_long_vowel_at(w, i));
            assert(softens_at(ww, i) == softens_at(w, i));
            assert(consonant_ids(ww, i) == consonant_ids(w, i));
            assert(guess_from(ww, i) == head + guess_from(ww, i + 1));
            assert(guess_from(w, i) == head + guess_from(w, i + 1));
            assert(guess_from(ww, i) =~= guess_from(w, i) + guess_from(ww, n));
        }
    }
}

proof fn lemma_tion_suffix_from(w: Seq<char>, i: int)
    requires
        ends_with_tion(w),
        0 <= i <= w.len() - 4,
    ensures
        guess_from(w, i).len() >= 4,
        guess_from(w, i).subrange(guess_from(w, i).len() - 4, guess_from(w, i).len() as int)
            == seq![96i64, 74, 51, 26],
    decreases w.len() - i,
{
    let n = w.len() as int;
    if i == n - 4 {
        assert(guess_from(w, n) =~= Seq::<i64>::empty());
        assert(guess_from(w, n - 1) == seq![26i64] + guess_from(w, n));
        assert(guess_from(w, n - 2) == seq![51i64] + guess_from(w, n - 1));
        assert(guess_from(w, n - 3) == seq![74i64] + guess_from(w, n - 2));
        assert(guess_from(w, n - 4) == seq![96i64] + guess_from(w, n - 3));
        assert(guess_from(w, i) =~= seq![96i64, 74, 51, 26]);
        assert(guess_from(w, i).subrange(0, 4) =~= guess_from(w, i));
    } else {
        let j = if digraph_ids(w[i], w[i + 1]) is Some {
            if i == n - 5 {
                lemma_no_digraph_ending_in_t(w[i]);
            }
            i + 2
        } else {
            i + 1
        };
        lemma_tion_suffix_from(w, j);
        let rest = guess_from(w, j);
        let head = guess_from(w, i).subrange(0, guess_from(w, i).len() - rest.len());
        assert(guess_from(w, i) == head + rest) by {
            if digraph_ids(w[i], w[i + 1]) is Some {
                assert(guess_from(w, i) == digraph_ids(w[i], w[i + 1])->0 + rest);
            } else if is_vowel(w[i]) {
                assert(guess_from(w, i) == (if is_long_vowel_at(w, i) {
                    long_vowel_ids(w[i])
                } else {
                    short_vowel_ids(w[i])
                }) + rest);
            } else {
                assert(guess_from(w, i) == consonant_ids(w, i) + rest);
            }
            assert(guess_from(w, i) =~= head + rest);
        }
        let g = guess_from(w, i);
        assert(g.subrange(g.len() - 4, g.len() as int) =~= rest.subrange(rest.len() - 4, rest.len() as int));
    }
}

/// A `t` before `ion` is read as `sh` wherever it stands: a word ending in
/// `tion` is read the same when letters follow, as long as the next letter
/// neither opens a vowel rule nor forms `ng` (so "nations" is read as
/// "nation" followed by the `s`).
pub proof fn tion_reads_the_same_before_more_letters(w: Seq<char>, s: Seq<char>)
    requires
        ends_with_tion(w),
        s.len() > 0,
        !is_vowel(s[0]),
        s[0] != 'g',
    ensures
        guess_phonemes(w + s) == guess_phonemes(w) + guess_from(w + s, w.len() as int),
{
    lemma_tion_prefix_from(w, s, 0);
}

/// A word ending in `tion` ends in the ids of `sh`, short `i`, short `o`
/// and `n`.
pub proof fn tion_ending_ids(w: Seq<char>)
    requires
        ends_with_tion(w),
    ensures
        guess_phonemes(w).len() >= 4,
        guess_phonemes(w).subrange(guess_phonemes(w).len() - 4, guess_phonemes(w).len() as int)
            == seq![96i64, 74, 51, 26],
{
    lemma_tion_suffix_from(w, 0);
}

fn vowel(c: char) -> (b: bool)
    ensures
        b == is_vowel(c),
{
    c == 'a' || c == 'e' || c == 'i' || c == 'o' || c == 'u' || c == 'y'
}

fn push1(out: &mut Vec<i64>, a: i64)
    ensures
        final(out)@ == old(out)@ + seq![a],
{
    out.push(a);
    proof {
        assert(final(out)@ =~= old(out)@ + seq![a]);
    }
}

fn push2(out: &mut Vec<i64>, a: i64, b: i64)
    ensures
        final(out)@ == old(out)@ + seq![a, b],
{
    out.push(a);
    out.push(b);
    proof {
        assert(final(out)@ =~= old(out)@ + seq![a, b]);
    }
}

/// Appends the ids of the digraph `a b` and returns true, or leaves `out`
/// alone and returns false when `a b` is no digraph.
fn push_digraph(out: &mut Vec<i64>, a: char, b: char) -> (found: bool)
    ensures
        found == (digraph_ids(a, b) is Some),
        found ==> final(out)@ == old(out)@ + digraph_ids(a, b)->0,
        !found ==> final(out)@ == old(out)@,
{
    if a == 's' && b == 'h' {
        push1(out, 96);
    } else if a == 'c' && b == 'h' {
        push2(out, 32, 96);
    } else if a == 't' && b == 'h' {
        push1(out, 126);
    } else if a == 'p' && b == 'h' {
        push1(out, 19);
    } else if a == 'e' && (b == 'e' || b == 'a') {
        push1(out, 21);
    } else if a == 'o' && b == 'o' {
        push1(out, 33);
    } else if a == 'o' && b == 'a' {
        push2(out, 27, 100);
    } else if a == 'a' && (b == 'i' || b == 'y') {
        push2(out, 18, 74);
    } else if a == 'a' && b == 'r' {
        push2(out, 51, 30);
    } else if (a == 'e' || a == 'i' || a == 'u') && b == 'r' {
        push1(out, 60);
    } else if a == 'o' && b == 'r' {
        push2(out, 54, 30);
    } else if a == 'o' && (b == 'u' || b == 'w') {
        push2(out, 14, 100);
    } else if a == 'q' && b == 'u' {
        push2(out, 23, 35);
    } else if a == 'c' && b == 'k' {
        push1(out, 23);
    } else if a == 'n' && b == 'g' {
        push1(out, 44);
    } else {
        return false;
    }
    true
}

fn push_vowel(out: &mut Vec<i64>, c: char, long: bool)
    ensures
        final(out)@ == old(out)@ + (if long {
            long_vowel_ids(c)
        } else {
            short_vowel_ids(c)
        }),
{
    if long {
        if c == 'a' {
            push2(out, 18, 74);
        } else if c == 'e' {
            push1(out, 21);
        } else if c == 'i' || c == 'y' {
            push2(out, 51, 74);
        } else if c == 'o' {
            push2(out, 27, 100);
        } else if c == 'u' {
            push2(out, 37, 33);
        } else {
            assert(old(out)@ + long_vowel_ids(c) =~= old(out)@);
        }
    } else {
        if c == 'a' {
            push1(out, 39);
        } else if c == 'e' {
            push1(out, 61);
        } else if c == 'i' || c == 'y' {
            push1(out, 74);
        } else if c == 'o' {
            push1(out, 51);
        } else if c == 'u' {
            push1(out, 102);
        } else {
            assert(old(out)@ + short_vowel_ids(c) =~= old(out)@);
        }
    }
}

fn push_consonant(out: &mut Vec<i64>, w: &Vec<char>, i: usize)
    requires
        i < w.len(),
    ensures
        final(out)@ == old(out)@ + consonant_ids(w@, i as int),
{
    let c = w[i];
    let soft = i + 1 < w.len() && (w[i + 1] == 'e' || w[i + 1] == 'i' || w[i + 1] == 'y');
    if c == 'b' {
        push1(out, 15);
    } else if c == 'c' {
        if soft {
            push1(out, 31);
        } else {
            push1(out, 23);
        }
    } else if c == 'd' {
        push1(out, 17);
    } else if c == 'f' {
        push1(out, 19);
    } else if c == 'g' {
        if soft {
            push2(out, 17, 108);
        } else {
            push1(out, 66);
        }
    } else if c == 'h' {
        push1(out, 20);
    } else if c == 'j' {
        push2(out, 17, 108);
    } else if c == 'k' {
        push1(out, 23);
    } else if c == 'l' {
        push1(out, 24);
    } else if c == 'm' {
        push1(out, 25);
    } else if c == 'n' {
        push1(out, 26);
    } else if c == 'p' {
        push1(out, 28);
    } else if c == 'r' {
        push1(out, 30);
    } else if c == 's' {
        push1(out, 31);
    } else if c == 't' {
        if w.len() - i > 3 && w[i + 1] == 'i' && w[i + 2] == 'o' && w[i + 3] == 'n' {
            push1(out, 96);
        } else {
            push1(out, 32);
        }
    } else if c == 'v' {
        push1(out, 34);
    } else if c == 'w' {
        push1(out, 35);
    } else if c == 'x' {
        push2(out, 23, 31);
    } else if c == 'z' {
        push1(out, 38);
    } else {
        assert(old(out)@ + consonant_ids(w@, i as int) =~= old(out)@);
    }
}

/// Reads the rule that applies at `i` (not a silent final `e`), appends
/// its ids and returns the position after it.
fn guess_step(out: &mut Vec<i64>, w: &Vec<char>, i: usize) -> (next: usize)
    requires
        i < w.len(),
        !is_silent_e_at(w@, i as int),
    ensures
        i < next <= w.len(),
        final(out)@ + guess_from(w@, next as int) == old(out)@ + guess_from(w@, i as int),
{
    let n = w.len();
    let c = w[i];
    let ghost before = out@;
    if n - i > 1 {
        if push_digraph(out, c, w[i + 1]) {
            proof {
                assert(before + (digraph_ids(c, w@[i + 1])->0 + guess_from(w@, i + 2))
                    =~= out@ + guess_from(w@, i + 2));
            }
            return i + 2;
        }
    }
    if vowel(c) {
        let long = (n - i > 2 && !vowel(w[i + 1]) && w[i + 2] == 'e' && n - i == 3) || (n - i > 2
            && !vowel(w[i + 1]) && vowel(w[i + 2])) || i == n - 1;
        assert(long == is_long_vowel_at(w@, i as int));
        push_vowel(out, c, long);
    } else {
        push_consonant(out, w, i);
    }
    proof {
        assert(out@ + guess_from(w@, i + 1) =~= before + guess_from(w@, i as int));
    }
    i + 1
}

/// Guesses the phoneme ids of `word` by phonics rules: a silent final `e`,
/// common digraphs (`sh`, `ch`, `th`, `ee`, `ar`, `ng`, ...), long vowels
/// by the magic-`e`, open-syllable and word-final rules and short vowels
/// otherwise, and soft `c`/`g` before `e`, `i`, `y` and `t` in `-tion`.
/// Characters that no rule covers contribute nothing.
pub fn guess_word_phonemes(word: &str) -> (phonemes: Vec<i64>)
    ensures
        phonemes@ == guess_phonemes(word@),
{
    let w = chars_of(word);
    let n = w.len();
    let mut phonemes: Vec<i64> = Vec::new();
    let mut i: usize = 0;
    while i < n
        invariant
            n == w.len(),
            w@ == word@,
            i <= n,
            phonemes@ + guess_from(w@, i as int) == guess_from(w@, 0),
        decreases n - i,
    {
        if w[i] == 'e' && i == n - 1 && i > 0 {
            proof {
                assert(guess_from(w@, i as int) =~= Seq::<i64>::empty());
                assert(phonemes@ + Seq::<i64>::empty() =~= phonemes@);
            }
            return phonemes;
        }
        i = guess_step(&mut phonemes, &w, i);
    }
    proof {
        assert(guess_from(w@, i as int) =~= Seq::<i64>::empty());
        assert(phonemes@ + Seq::<i64>::empty() =~= phonemes@);
    }
    phonemes
}

} // verus!
