//! Text normalisation and sentence chunking.
use vstd::prelude::*;
use vstd::utf8::{encode_scalar, encode_utf8};

use crate::chars::{chars_of, copy_range, is_white_space, string_from_chars, white_space};

verus! {

/// What one input character becomes in the normalised text: typographic
/// double quotes and corner brackets become `"`, typographic single quotes
/// become `'`, em and en dashes become `-`, full-width parentheses are
/// dropped, and a line feed becomes a space.
pub open spec fn clean_char(c: char) -> Seq<char> {
    let u = c as u32;
    if u == 0x201C || u == 0x201D || u == 0x300C || u == 0x300D {
        seq!['"']
    } else if u == 0x2018 || u == 0x2019 {
        seq!['\'']
    } else if u == 0x2014 || u == 0x2013 {
        seq!['-']
    } else if u == 0xFF08 || u == 0xFF09 {
        seq![]
    } else if c == '\n' {
        seq![' ']
    } else {
        seq![c]
    }
}

/// The normalised text: every character replaced by its `clean_char`.
pub open spec fn normalize_text(s: Seq<char>) -> Seq<char>
    decreases s.len(),
{
    if s.len() == 0 {
        seq![]
    } else {
        normalize_text(s.drop_last()) + clean_char(s.last())
    }
}

/// Characters that end a sentence.
pub open spec fn is_sentence_end(c: char) -> bool {
    c == '.' || c == '!' || c == '?' || c == ';'
}

/// `s` without its leading white space.
pub open spec fn trim_start(s: Seq<char>) -> Seq<char>
    decreases s.len(),
{
    if s.len() > 0 && is_white_space(s[0]) {
        trim_start(s.drop_first())
    } else {
        s
    }
}

/// `s` without its trailing white space.
pub open spec fn trim_end(s: Seq<char>) -> Seq<char>
    decreases s.len(),
{
    if s.len() > 0 && is_white_space(s.last()) {
        trim_end(s.drop_last())
    } else {
        s
    }
}

/// `s` without leading and trailing white space.
pub open spec fn trim(s: Seq<char>) -> Seq<char> {
    trim_end(trim_start(s))
}

/// The chunks cut from `rest`, given the text `current` read since the
/// last cut. A sentence end closes the current piece; the trimmed piece is
/// kept when its UTF-8 form is longer than one byte. Text left over at the end is
/// kept, trimmed and closed with a full stop, when it is not blank.
pub open spec fn chunks_from(rest: Seq<char>, current: Seq<char>) -> Seq<Seq<char>>
    decreases rest.len(),
{
    if rest.len() == 0 {
        let t = trim(current);
        if t.len() > 0 {
            seq![t.push('.')]
        } else {
            seq![]
        }
    } else {
        let piece = current.push(rest[0]);
        if is_sentence_end(rest[0]) {
            let t = trim(piece);
            let tail = chunks_from(rest.drop_first(), seq![]);
            if encode_utf8(t).len() > 1 {
                seq![t] + tail
            } else {
                tail
            }
        } else {
            chunks_from(rest.drop_first(), piece)
        }
    }
}

/// The chunks of a raw text: its normalised form cut into sentences.
pub open spec fn text_chunks(raw: Seq<char>) -> Seq<Seq<char>> {
    chunks_from(normalize_text(raw), seq![])
}

/// Characters that normalisation never leaves in a text: line feeds,
/// typographic quotes, corner brackets, em and en dashes, and full-width
/// parentheses.
pub open spec fn is_normalized_char(c: char) -> bool {
    let u = c as u32;
    &&& c != '\n'
    &&& u != 0x201C && u != 0x201D && u != 0x300C && u != 0x300D
    &&& u != 0x2018 && u != 0x2019
    &&& u != 0x2014 && u != 0x2013
    &&& u != 0xFF08 && u != 0xFF09
}

/// The shape of every chunk: at least two characters, no white space at
/// the start, a sentence end as last character and none before it, and
/// only normalised characters.
pub open spec fn is_sentence_chunk(c: Seq<char>) -> bool {
    &&& c.len() >= 2
    &&& !is_white_space(c[0])
    &&& is_sentence_end(c.last())
    &&& forall|k: int| 0 <= k < c.len() - 1 ==> !is_sentence_end(#[trigger] c[k])
    &&& forall|k: int| 0 <= k < c.len() ==> is_normalized_char(#[trigger] c[k])
}

proof fn lemma_clean_char_normalized(c: char)
    ensures
        forall|k: int| 0 <= k < clean_char(c).len() ==> is_normalized_char(#[trigger] clean_char(c)[k]),
{
}

proof fn lemma_normalize_text_normalized(s: Seq<char>)
    ensures
        forall|k: int| 0 <= k < normalize_text(s).len() ==> is_normalized_char(#[trigger] normalize_text(s)[k]),
    decreases s.len(),
{
    if s.len() > 0 {
        lemma_normalize_text_normalized(s.drop_last());
        lemma_clean_char_normalized(s.last());
        let a = normalize_text(s.drop_last());
        let b = clean_char(s.last());
        assert forall|k: int| 0 <= k < (a + b).len() implies is_normalized_char(#[trigger] (a + b)[k]) by {
            if k >= a.len() {
                assert((a + b)[k] == b[k - a.len()]);
            }
        }
    }
}

proof fn lemma_trim_start_index(s: Seq<char>) -> (lo: int)
    ensures
        0 <= lo <= s.len(),
        trim_start(s) == s.skip(lo),
        lo < s.len() ==> !is_white_space(s[lo]),
    decreases s.len(),
{
    if s.len() > 0 && is_white_space(s[0]) {
        let l = lemma_trim_start_index(s.drop_first());
        assert(s.drop_first().skip(l) =~= s.skip(l + 1));
        l + 1
    } else {
        assert(s.skip(0) =~= s);
        0
    }
}

proof fn lemma_trim_end_index(s: Seq<char>) -> (hi: int)
    ensures
        0 <= hi <= s.len(),
        trim_end(s) == s.take(hi),
        hi > 0 ==> !is_white_space(s[hi - 1]),
        forall|k: int| hi <= k < s.len() ==> is_white_space(#[trigger] s[k]),
    decreases s.len(),
{
    if s.len() > 0 && is_white_space(s.last()) {
        let h = lemma_trim_end_index(s.drop_last());
        assert(s.drop_last().take(h) =~= s.take(h));
        assert forall|k: int| h <= k < s.len() implies is_white_space(#[trigger] s[k]) by {
            if k < s.len() - 1 {
                assert(s[k] == s.drop_last()[k]);
            }
        }
        h
    } else {
        assert(s.take(s.len() as int) =~= s);
        s.len() as int
    }
}

/// `trim(s)` is the slice `s[lo..hi]`, with no white space at either end
/// when it is not empty, and only white space after it.
proof fn lemma_trim_range(s: Seq<char>) -> (r: (int, int))
    ensures
        0 <= r.0 <= r.1 <= s.len(),
        trim(s) == s.subrange(r.0, r.1),
        r.0 < r.1 ==> !is_white_space(s[r.0]) && !is_white_space(s[r.1 - 1]),
        forall|k: int| r.1 <= k < s.len() ==> is_white_space(#[trigger] s[k]),
{
    let lo = lemma_trim_start_index(s);
    let t = s.skip(lo);
    let m = lemma_trim_end_index(t);
    assert(t.take(m) =~= s.subrange(lo, lo + m));
    assert forall|k: int| lo + m <= k < s.len() implies is_white_space(#[trigger] s[k]) by {
        assert(s[k] == t[k - lo]);
    }
    if m > 0 {
        assert(s[lo] == t[0]);
        assert(s[lo + m - 1] == t[m - 1]);
    }
    (lo, lo + m)
}

/// A text takes more than one UTF-8 byte exactly when it has two or more
/// characters, or one character outside ASCII.
proof fn lemma_utf8_longer_than_one_byte(t: Seq<char>)
    ensures
        encode_utf8(t).len() > 1 <==> (t.len() > 1 || (t.len() == 1 && t[0] as u32 >= 0x80)),
{
    if t.len() == 0 {
        assert(encode_utf8(t) =~= Seq::<u8>::empty());
    } else {
        let head = encode_scalar(t[0] as u32);
        assert(head.len() >= 1);
        assert(encode_utf8(t) == head + encode_utf8(t.drop_first()));
        if t.len() == 1 {
            assert(t.drop_first() =~= Seq::<char>::empty());
            assert(encode_utf8(t.drop_first()) =~= Seq::<u8>::empty());
        } else {
            let rest = t.drop_first();
            assert(encode_utf8(rest) == encode_scalar(rest[0] as u32) + encode_utf8(rest.drop_first()));
            assert(encode_scalar(rest[0] as u32).len() >= 1);
        }
    }
}

/// A trimmed piece that ends with a sentence end and takes more than one
/// byte has at least two characters: a lone sentence end is one byte.
proof fn lemma_one_byte_piece(piece: Seq<char>, lo: int, hi: int)
    requires
        0 <= lo <= hi <= piece.len(),
        piece.len() > 0,
        is_sentence_end(piece.last()),
        trim(piece) == piece.subrange(lo, hi),
        forall|k: int| hi <= k < piece.len() ==> is_white_space(#[trigger] piece[k]),
        encode_utf8(trim(piece)).len() > 1,
    ensures
        hi == piece.len(),
        trim(piece).len() > 1,
{
    let t = trim(piece);
    assert(!is_white_space(piece[piece.len() - 1]));
    if t.len() == 0 {
        assert(encode_utf8(t) =~= Seq::<u8>::empty());
    } else if t.len() == 1 {
        assert(t[0] == piece[piece.len() - 1]);
        assert(t.drop_first() =~= Seq::<char>::empty());
        assert(encode_utf8(t.drop_first()) =~= Seq::<u8>::empty());
        assert(encode_utf8(t).len() == 1);
    }
}

proof fn lemma_chunks_from_shape(rest: Seq<char>, current: Seq<char>)
    requires
        forall|k: int| 0 <= k < current.len() ==> !is_sentence_end(#[trigger] current[k]),
        forall|k: int| 0 <= k < current.len() ==> is_normalized_char(#[trigger] current[k]),
        forall|k: int| 0 <= k < rest.len() ==> is_normalized_char(#[trigger] rest[k]),
    ensures
        forall|i: int| 0 <= i < chunks_from(rest, current).len()
            ==> is_sentence_chunk(#[trigger] chunks_from(rest, current)[i]),
    decreases rest.len(),
{
    if rest.len() == 0 {
        let r = lemma_trim_range(current);
        let t = trim(current);
        if t.len() > 0 {
            let c = t.push('.');
            assert(c[0] == current[r.0]);
            assert forall|k: int| 0 <= k < c.len() - 1 implies !is_sentence_end(#[trigger] c[k]) by {
                assert(c[k] == current[r.0 + k]);
            }
            assert forall|k: int| 0 <= k < c.len() implies is_normalized_char(#[trigger] c[k]) by {
                if k < t.len() {
                    assert(c[k] == current[r.0 + k]);
                }
            }
            assert(is_sentence_chunk(c));
            assert(chunks_from(rest, current) =~= seq![c]);
            assert(chunks_from(rest, current)[0] == c);
        } else {
            assert(chunks_from(rest, current) =~= Seq::<Seq<char>>::empty());
        }
    } else {
        let piece = current.push(rest[0]);
        let tail_rest = rest.drop_first();
        assert forall|k: int| 0 <= k < tail_rest.len() implies is_normalized_char(#[trigger] tail_rest[k]) by {
            assert(tail_rest[k] == rest[k + 1]);
        }
        assert forall|k: int| 0 <= k < piece.len() implies is_normalized_char(#[trigger] piece[k]) by {
            if k == current.len() {
                assert(piece[k] == rest[0]);
            } else {
                assert(piece[k] == current[k]);
            }
        }
        if is_sentence_end(rest[0]) {
            lemma_chunks_from_shape(tail_rest, seq![]);
            let r = lemma_trim_range(piece);
            let t = trim(piece);
            let tail = chunks_from(tail_rest, seq![]);
            if encode_utf8(t).len() > 1 {
                lemma_one_byte_piece(piece, r.0, r.1);
                assert(!is_white_space(piece[piece.len() - 1]));
                assert(r.1 == piece.len());
                assert(t[0] == piece[r.0]);
                assert(t.last() == piece[piece.len() - 1]);
                assert forall|k: int| 0 <= k < t.len() - 1 implies !is_sentence_end(#[trigger] t[k]) by {
                    assert(t[k] == piece[r.0 + k]);
                    assert(piece[r.0 + k] == current[r.0 + k]);
                }
                assert forall|k: int| 0 <= k < t.len() implies is_normalized_char(#[trigger] t[k]) by {
                    assert(t[k] == piece[r.0 + k]);
                }
                assert(is_sentence_chunk(t));
                assert(chunks_from(rest, current) == seq![t] + tail);
                assert forall|i: int| 0 <= i < (seq![t] + tail).len() implies is_sentence_chunk(
                    #[trigger] (seq![t] + tail)[i],
                ) by {
                    if i > 0 {
                        assert((seq![t] + tail)[i] == tail[i - 1]);
                    }
                }
            } else {
                assert(chunks_from(rest, current) == tail);
            }
        } else {
            assert forall|k: int| 0 <= k < piece.len() implies !is_sentence_end(#[trigger] piece[k]) by {
                if k == current.len() {
                    assert(piece[k] == rest[0]);
                } else {
                    assert(piece[k] == current[k]);
                }
            }
            lemma_chunks_from_shape(tail_rest, piece);
            assert(chunks_from(rest, current) == chunks_from(tail_rest, piece));
        }
    }
}

/// Every chunk is one normalised sentence: at least two characters long, not
/// starting with white space, ending with `.`, `!`, `?` or `;` and holding
/// no such character before its end, and free of line feeds, typographic
/// quotes and dashes, and full-width parentheses.
pub proof fn chunks_are_sentences(raw: Seq<char>)
    ensures
        forall|i: int| 0 <= i < text_chunks(raw).len() ==> is_sentence_chunk(#[trigger] text_chunks(raw)[i]),
{
    lemma_normalize_text_normalized(raw);
    lemma_chunks_from_shape(normalize_text(raw), seq![]);
}

proof fn lemma_normalize_text_concat(a: Seq<char>, b: Seq<char>)
    ensures
        normalize_text(a + b) == normalize_text(a) + normalize_text(b),
    decreases b.len(),
{
    if b.len() == 0 {
        assert(a + b =~= a);
        assert(normalize_text(a) + normalize_text(b) =~= normalize_text(a));
    } else {
        lemma_normalize_text_concat(a, b.drop_last());
        assert((a + b).drop_last() =~= a + b.drop_last());
        assert((a + b).last() == b.last());
        assert(normalize_text(a + b) =~= normalize_text(a) + normalize_text(b));
    }
}

proof fn lemma_normalize_text_fixed(t: Seq<char>)
    requires
        forall|k: int| 0 <= k < t.len() ==> is_normalized_char(#[trigger] t[k]),
    ensures
        normalize_text(t) == t,
    decreases t.len(),
{
    if t.len() > 0 {
        assert forall|k: int| 0 <= k < t.drop_last().len() implies is_normalized_char(
            #[trigger] t.drop_last()[k],
        ) by {
            assert(t.drop_last()[k] == t[k]);
        }
        lemma_normalize_text_fixed(t.drop_last());
        assert(is_normalized_char(t[t.len() - 1]));
        assert(clean_char(t.last()) == seq![t.last()]);
        assert(normalize_text(t) =~= t);
    } else {
        assert(normalize_text(t) =~= t);
    }
}

proof fn lemma_chunks_from_concat(a: Seq<char>, b: Seq<char>, current: Seq<char>)
    requires
        a.len() > 0,
        is_sentence_end(a.last()),
    ensures
        chunks_from(a + b, current) == chunks_from(a, current) + chunks_from(b, seq![]),
    decreases a.len(),
{
    let ab = a + b;
    assert(ab[0] == a[0]);
    let piece = current.push(a[0]);
    if a.len() == 1 {
        assert(ab.drop_first() =~= b);
        assert(a.drop_first() =~= Seq::<char>::empty());
        assert(trim_start(Seq::<char>::empty()) =~= Seq::<char>::empty());
        assert(trim(Seq::<char>::empty()) =~= Seq::<char>::empty());
        assert(chunks_from(a.drop_first(), seq![]) =~= Seq::<Seq<char>>::empty());
        let t = trim(piece);
        if encode_utf8(t).len() > 1 {
            assert(chunks_from(a, current) =~= seq![t]);
        } else {
            assert(chunks_from(a, current) =~= Seq::<Seq<char>>::empty());
        }
        assert(chunks_from(ab, current) =~= chunks_from(a, current) + chunks_from(b, seq![]));
    } else {
        assert(ab.drop_first() =~= a.drop_first() + b);
        assert(a.drop_first().last() == a.last());
        if is_sentence_end(a[0]) {
            lemma_chunks_from_concat(a.drop_first(), b, seq![]);
            let t = trim(piece);
            if encode_utf8(t).len() > 1 {
                assert(chunks_from(ab, current) =~= chunks_from(a, current) + chunks_from(b, seq![]));
            } else {
                assert(chunks_from(ab, current) =~= chunks_from(a, current) + chunks_from(b, seq![]));
            }
        } else {
            lemma_chunks_from_concat(a.drop_first(), b, piece);
        }
    }
}

/// Chunking distributes over sentence boundaries: when `a` ends with a
/// sentence end, the chunks of `a` followed by `b` are the chunks of `a`
/// followed by those of `b`. So no chunk is lost however many sentences a
/// text has.
pub proof fn chunks_of_concatenation(a: Seq<char>, b: Seq<char>)
    requires
        a.len() > 0,
        is_sentence_end(a.last()),
    ensures
        text_chunks(a + b) == text_chunks(a) + text_chunks(b),
{
    lemma_normalize_text_concat(a, b);
    let na = normalize_text(a);
    assert(normalize_text(a) == normalize_text(a.drop_last()) + clean_char(a.last()));
    assert(clean_char(a.last()) == seq![a.last()]);
    assert(na.len() > 0 && na.last() == a.last());
    lemma_chunks_from_concat(na, normalize_text(b), seq![]);
}

proof fn lemma_one_sentence_from(t: Seq<char>, current: Seq<char>)
    requires
        t.len() > 0,
        is_sentence_end(t.last()),
        forall|k: int| 0 <= k < t.len() - 1 ==> !is_sentence_end(#[trigger] t[k]),
        trim(current + t).len() >= 2,
    ensures
        chunks_from(t, current) == seq![trim(current + t)],
    decreases t.len(),
{
    let piece = current.push(t[0]);
    if t.len() == 1 {
        assert(current + t =~= piece);
        assert(t.drop_first() =~= Seq::<char>::empty());
        assert(trim_start(Seq::<char>::empty()) =~= Seq::<char>::empty());
        assert(trim(Seq::<char>::empty()) =~= Seq::<char>::empty());
        assert(chunks_from(t.drop_first(), seq![]) =~= Seq::<Seq<char>>::empty());
        lemma_utf8_longer_than_one_byte(trim(piece));
        assert(chunks_from(t, current) =~= seq![trim(piece)]);
    } else {
        assert(!is_sentence_end(t[0]));
        assert(piece + t.drop_first() =~= current + t);
        assert(t.drop_first().last() == t.last());
        assert forall|k: int| 0 <= k < t.drop_first().len() - 1 implies !is_sentence_end(
            #[trigger] t.drop_first()[k],
        ) by {
            assert(t.drop_first()[k] == t[k + 1]);
        }
        lemma_one_sentence_from(t.drop_first(), piece);
    }
}

/// A text that is one sentence, however long, is one chunk: its trimmed
/// self. The text has only characters that normalisation keeps, ends with
/// a sentence end, holds none before, and has at least two characters
/// once trimmed.
pub proof fn one_sentence_is_one_chunk(t: Seq<char>)
    requires
        t.len() > 0,
        is_sentence_end(t.last()),
        forall|k: int| 0 <= k < t.len() - 1 ==> !is_sentence_end(#[trigger] t[k]),
        forall|k: int| 0 <= k < t.len() ==> is_normalized_char(#[trigger] t[k]),
        trim(t).len() >= 2,
    ensures
        text_chunks(t) == seq![trim(t)],
{
    lemma_normalize_text_fixed(t);
    assert(Seq::<char>::empty() + t =~= t);
    lemma_one_sentence_from(t, seq![]);
}

/// The views of a vector of strings.
pub open spec fn string_views(v: Seq<String>) -> Seq<Seq<char>> {
    v.map_values(|s: String| s@)
}

/// Appends the normalised form of `c` to `out`.
fn push_clean(out: &mut Vec<char>, c: char)
    ensures
        final(out)@ == old(out)@ + clean_char(c),
{
    let u = c as u32;
    if u == 0x201C || u == 0x201D || u == 0x300C || u == 0x300D {
        out.push('"');
    } else if u == 0x2018 || u == 0x2019 {
        out.push('\'');
    } else if u == 0x2014 || u == 0x2013 {
        out.push('-');
    } else if u == 0xFF08 || u == 0xFF09 {
    } else if c == '\n' {
        out.push(' ');
    } else {
        out.push(c);
    }
    proof {
        assert(final(out)@ =~= old(out)@ + clean_char(c));
    }
}

/// The normalised characters of `raw`.
pub fn normalize_chars(raw: &Vec<char>) -> (out: Vec<char>)
    ensures
        out@ == normalize_text(raw@),
{
    let mut out: Vec<char> = Vec::new();
    let mut i: usize = 0;
    while i < raw.len()
        invariant
            i <= raw.len(),
            out@ == normalize_text(raw@.take(i as int)),
        decreases raw.len() - i,
    {
        proof {
            assert(raw@.take(i + 1).drop_last() =~= raw@.take(i as int));
        }
        push_clean(&mut out, raw[i]);
        i += 1;
    }
    proof {
        assert(raw@.take(raw.len() as int) =~= raw@);
    }
    out
}

proof fn lemma_trim_start_skip(s: Seq<char>, i: int)
    requires
        0 <= i < s.len(),
        forall|k: int| 0 <= k <= i ==> is_white_space(#[trigger] s[k]),
    ensures
        trim_start(s) == trim_start(s.skip(i + 1)),
    decreases i,
{
    if i == 0 {
        assert(s.drop_first() =~= s.skip(1));
    } else {
        lemma_trim_start_skip(s.drop_first(), i - 1);
        assert(s.drop_first().skip(i) =~= s.skip(i + 1));
    }
}

proof fn lemma_trim_end_take(s: Seq<char>, j: int)
    requires
        0 <= j < s.len(),
        forall|k: int| j <= k < s.len() ==> is_white_space(#[trigger] s[k]),
    ensures
        trim_end(s) == trim_end(s.take(j)),
    decreases s.len() - j,
{
    if j == s.len() - 1 {
        assert(s.drop_last() =~= s.take(j));
    } else {
        lemma_trim_end_take(s.drop_last(), j);
        assert(s.drop_last().take(j) =~= s.take(j));
    }
}

/// The characters of `v` without leading and trailing white space.
pub fn trim_chars(v: &Vec<char>) -> (r: Vec<char>)
    ensures
        r@ == trim(v@),
{
    let n = v.len();
    let mut i: usize = 0;
    while i < n && white_space(v[i])
        invariant
            i <= n == v.len(),
            forall|k: int| 0 <= k < i ==> is_white_space(#[trigger] v@[k]),
        decreases n - i,
    {
        i += 1;
    }
    let ghost start = v@.skip(i as int);
    proof {
        if i > 0 {
            lemma_trim_start_skip(v@, i - 1);
        } else {
            assert(v@.skip(0) =~= v@);
        }
        assert(trim_start(start) == start);
    }
    let mut j: usize = n;
    while j > i && white_space(v[j - 1])
        invariant
            i <= j <= n == v.len(),
            start == v@.skip(i as int),
            forall|k: int| j <= k < n ==> is_white_space(#[trigger] v@[k]),
        decreases j - i,
    {
        j -= 1;
    }
    proof {
        let m = (j - i) as int;
        if j < n {
            assert forall|k: int| m <= k < start.len() implies is_white_space(
                #[trigger] start[k],
            ) by {
                assert(start[k] == v@[k + i]);
            }
            lemma_trim_end_take(start, m);
        } else {
            assert(start.take(m) =~= start);
        }
        assert(start.take(m) =~= v@.subrange(i as int, j as int));
        assert(trim_end(start.take(m)) == start.take(m));
    }
    copy_range(v, i, j)
}

/// Splits `raw_text` into sentence-sized chunks for synthesis.
///
/// The text is normalised first (typographic quotes and dashes become ASCII,
/// full-width parentheses are dropped, line feeds become spaces). It is then
/// cut after every `.`, `!`, `?` and `;`; each piece is trimmed and kept if
/// it is longer than one character, so runs such as `...` leave nothing.
/// Unterminated text at the end is trimmed and closed with a `.`.
pub fn normalize_and_chunk(raw_text: &str) -> (chunks: Vec<String>)
    ensures
        string_views(chunks@) == text_chunks(raw_text@),
{
    let raw = chars_of(raw_text);
    let cleaned = normalize_chars(&raw);
    let n = cleaned.len();
    let mut chunks: Vec<String> = Vec::new();
    let mut current: Vec<char> = Vec::new();
    let mut i: usize = 0;
    proof {
        assert(cleaned@.skip(0) =~= cleaned@);
    }
    while i < n
        invariant
            i <= n == cleaned.len(),
            string_views(chunks@) + chunks_from(cleaned@.skip(i as int), current@)
                == chunks_from(cleaned@, seq![]),
        decreases n - i,
    {
        let c = cleaned[i];
        let ghost before = chunks@;
        let ghost rest = cleaned@.skip(i as int);
        proof {
            assert(rest[0] == c);
            assert(rest.drop_first() =~= cleaned@.skip(i + 1));
        }
        current.push(c);
        if c == '.' || c == '!' || c == '?' || c == ';' {
            let t = trim_chars(&current);
            proof {
                lemma_utf8_longer_than_one_byte(t@);
            }
            if t.len() > 1 || (t.len() == 1 && t[0] as u32 >= 0x80) {
                let s = string_from_chars(&t);
                chunks.push(s);
                proof {
                    assert(string_views(chunks@) =~= string_views(before) + seq![t@]);
                }
            }
            current = Vec::new();
            proof {
                assert(current@ =~= Seq::<char>::empty());
            }
        }
        i += 1;
    }
    let ghost before = chunks@;
    let t = trim_chars(&current);
    if t.len() > 0 {
        let mut closed = t;
        closed.push('.');
        let s = string_from_chars(&closed);
        chunks.push(s);
        proof {
            assert(string_views(chunks@) =~= string_views(before) + seq![closed@]);
        }
    }
    proof {
        assert(cleaned@.skip(n as int) =~= Seq::<char>::empty());
    }
    chunks
}

} // verus!
