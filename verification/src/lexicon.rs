//! The pronunciation lexicon: words mapped to phoneme ids, loaded from a
//! JSON object and searched by binary search over byte-ordered keys.
use vstd::prelude::*;
use vstd::utf8::{encode_utf8, encode_utf8_decode_utf8};

use crate::bytes::{bytes_lt, lemma_bytes_lt_asymmetric, order_bytes, KeyOrder};

verus! {

/// What parsing a lexicon JSON document gives: its entries in ascending key
/// order, or, when the text is no JSON object of words to integer lists,
/// the parser's error message.
pub uninterp spec fn lexicon_json(text: Seq<char>) -> Result<Seq<(Seq<char>, Seq<i64>)>, Seq<char>>;

/// The UTF-8 bytes of a key.
pub open spec fn key_bytes(k: Seq<char>) -> Seq<u8> {
    encode_utf8(k)
}

/// Keys strictly ascending in byte order, hence all distinct.
pub open spec fn keys_ascending(es: Seq<(Seq<char>, Seq<i64>)>) -> bool {
    forall|i: int, j: int|
        0 <= i < j < es.len() ==> bytes_lt(key_bytes(#[trigger] es[i].0), key_bytes(#[trigger] es[j].0))
}

/// Whether some entry has the key `k`.
pub open spec fn has_key(es: Seq<(Seq<char>, Seq<i64>)>, k: Seq<char>) -> bool {
    exists|i: int| 0 <= i < es.len() && #[trigger] es[i].0 == k
}

/// The position of an entry with the key `k`, when there is one.
pub open spec fn key_position(es: Seq<(Seq<char>, Seq<i64>)>, k: Seq<char>) -> int {
    choose|i: int| 0 <= i < es.len() && #[trigger] es[i].0 == k
}

/// The map that a list of entries stands for.
pub open spec fn entries_map(es: Seq<(Seq<char>, Seq<i64>)>) -> Map<Seq<char>, Seq<i64>> {
    Map::new(|k: Seq<char>| has_key(es, k), |k: Seq<char>| es[key_position(es, k)].1)
}

/// The views of stored entries.
pub open spec fn entry_views(v: Seq<(String, Vec<i64>)>) -> Seq<(Seq<char>, Seq<i64>)> {
    v.map_values(|e: (String, Vec<i64>)| (e.0@, e.1@))
}

/// Parses a lexicon JSON object into its entries.
///
/// Calls `serde_json::from_str` into a `BTreeMap<String, Vec<i64>>`; lists
/// the map, or renders the `serde_json::Error` with its `Display`. Claims:
/// the entries, or the message, are what the name `lexicon_json` gives
/// the text; and the entries come in strictly ascending byte order of
/// their keys, as `BTreeMap` walks its keys in `str` order and holds each
/// key once.
#[verifier::external_body]
fn parse_lexicon_json(text: &str) -> (r: Result<Vec<(String, Vec<i64>)>, String>)
    ensures
        r is Ok <==> lexicon_json(text@) is Ok,
        r matches Ok(v) ==> entry_views(v@) == lexicon_json(text@)->Ok_0,
        r matches Ok(v) ==> keys_ascending(entry_views(v@)),
        r matches Err(m) ==> m@ == lexicon_json(text@)->Err_0,
{
    match serde_json::from_str::<std::collections::BTreeMap<String, Vec<i64>>>(text) {
        Ok(m) => Ok(m.into_iter().collect()),
        Err(e) => Err(format!("{}", e)),
    }
}

/// Why a lexicon could not be loaded.
pub enum LexiconError {
    /// The text is no JSON object of words to integer lists; the message
    /// is the JSON parser's.
    InvalidJson(String),
}

/// A pronunciation lexicon.
pub struct Lexicon {
    entries: Vec<(String, Vec<i64>)>,
}

impl Lexicon {
    #[verifier::type_invariant]
    spec fn keys_in_order(self) -> bool {
        keys_ascending(entry_views(self.entries@))
    }

    /// The entries, in ascending byte order of their keys.
    pub closed spec fn entries(&self) -> Seq<(Seq<char>, Seq<i64>)> {
        entry_views(self.entries@)
    }
}

impl View for Lexicon {
    type V = Map<Seq<char>, Seq<i64>>;

    open spec fn view(&self) -> Map<Seq<char>, Seq<i64>> {
        entries_map(self.entries())
    }
}

/// Entries in ascending key order have distinct keys.
proof fn lemma_ascending_distinct(es: Seq<(Seq<char>, Seq<i64>)>, i: int, j: int)
    requires
        keys_ascending(es),
        0 <= i < es.len(),
        0 <= j < es.len(),
        es[i].0 == es[j].0,
    ensures
        i == j,
{
    if i < j {
        lemma_bytes_lt_asymmetric(key_bytes(es[i].0), key_bytes(es[j].0));
    } else if j < i {
        lemma_bytes_lt_asymmetric(key_bytes(es[j].0), key_bytes(es[i].0));
    }
}

/// Every entry of a lexicon in key order is found under its own key with
/// its own ids, and only listed keys are found.
pub proof fn listed_entries_are_found(es: Seq<(Seq<char>, Seq<i64>)>, n: int)
    requires
        keys_ascending(es),
        0 <= n < es.len(),
    ensures
        entries_map(es).contains_key(es[n].0),
        entries_map(es)[es[n].0] == es[n].1,
        forall|w: Seq<char>| #[trigger] entries_map(es).contains_key(w) ==> exists|j: int|
            0 <= j < es.len() && es[j].0 == w,
{
    let w = es[n].0;
    assert(has_key(es, w));
    let c = key_position(es, w);
    lemma_ascending_distinct(es, c, n);
}

impl Lexicon {
    /// An empty lexicon.
    pub fn new() -> (l: Lexicon)
        ensures
            l@ == Map::<Seq<char>, Seq<i64>>::empty(),
    {
        let l = Lexicon { entries: Vec::new() };
        assert(l@ =~= Map::<Seq<char>, Seq<i64>>::empty());
        l
    }

    /// Loads a lexicon from a JSON object that maps each word to its list
    /// of phoneme ids. When a word occurs twice, its last list counts.
    pub fn from_json(text: &str) -> (r: Result<Lexicon, LexiconError>)
        ensures
            r is Ok <==> lexicon_json(text@) is Ok,
            r matches Ok(l) ==> l.entries() == lexicon_json(text@)->Ok_0,
            r matches Ok(l) ==> keys_ascending(l.entries()),
            r matches Ok(l) ==> l@ == entries_map(lexicon_json(text@)->Ok_0),
            r matches Err(LexiconError::InvalidJson(m)) ==> m@ == lexicon_json(text@)->Err_0,
    {
        match parse_lexicon_json(text) {
            Ok(entries) => Ok(Lexicon { entries }),
            Err(message) => Err(LexiconError::InvalidJson(message)),
        }
    }

    /// The number of words in the lexicon.
    pub fn len(&self) -> (n: usize)
        ensures
            n == self@.dom().len(),
    {
        proof {
            use_type_invariant(self);
            let es = self.entries();
            let keys = es.map_values(|e: (Seq<char>, Seq<i64>)| e.0);
            assert forall|i: int, j: int|
                0 <= i < keys.len() && 0 <= j < keys.len() && i != j implies keys[i] != keys[j] by {
                if keys[i] == keys[j] {
                    lemma_ascending_distinct(es, i, j);
                }
            }
            keys.unique_seq_to_set();
            assert forall|k: Seq<char>| self@.dom().contains(k) <==> keys.to_set().contains(k) by {
                if self@.dom().contains(k) {
                    let c = choose|i: int| 0 <= i < es.len() && #[trigger] es[i].0 == k;
                    assert(keys[c] == k);
                }
                if keys.to_set().contains(k) {
                    let c = choose|i: int| 0 <= i < keys.len() && keys[i] == k;
                    assert(es[c].0 == k);
                }
            }
            assert(self@.dom() =~= keys.to_set());
        }
        self.entries.len()
    }

    /// The ids that the lexicon gives `word`, if it holds the word.
    pub fn get(&self, word: &str) -> (r: Option<&Vec<i64>>)
        ensures
            r is Some <==> self@.contains_key(word@),
            r matches Some(ids) ==> ids@ == self@[word@],
    {
        proof {
            use_type_invariant(self);
        }
        let ghost es = self.entries();
        let target = word.as_bytes();
        let mut lo: usize = 0;
        let mut hi: usize = self.entries.len();
        while lo < hi
            invariant
                es == entry_views(self.entries@),
                keys_ascending(es),
                lo <= hi <= self.entries.len() == es.len(),
                target@ == key_bytes(word@),
                forall|k: int| 0 <= k < lo ==> key_bytes(#[trigger] es[k].0) != target@,
                forall|k: int| hi <= k < es.len() ==> key_bytes(#[trigger] es[k].0) != target@,
            decreases hi - lo,
        {
            let mid = lo + (hi - lo) / 2;
            let key = self.entries[mid].0.as_str().as_bytes();
            proof {
                assert(es[mid as int].0 == self.entries@[mid as int].0@);
            }
            match order_bytes(key, target) {
                KeyOrder::Same => {
                    proof {
                        encode_utf8_decode_utf8(es[mid as int].0);
                        encode_utf8_decode_utf8(word@);
                        assert(es[mid as int].0 == word@);
                        assert(self@.contains_key(word@));
                        let c = key_position(es, word@);
                        lemma_ascending_distinct(es, c, mid as int);
                    }
                    return Some(&self.entries[mid].1);
                },
                KeyOrder::Before => {
                    proof {
                        assert forall|k: int| 0 <= k < mid + 1 implies key_bytes(
                            #[trigger] es[k].0,
                        ) != target@ by {
                            if k < mid {
                                lemma_bytes_lt_asymmetric(key_bytes(es[k].0), key_bytes(es[mid as int].0));
                            } else {
                                lemma_bytes_lt_asymmetric(key@, target@);
                            }
                        }
                    }
                    lo = mid + 1;
                },
                KeyOrder::After => {
                    proof {
                        assert forall|k: int| mid <= k < es.len() implies key_bytes(
                            #[trigger] es[k].0,
                        ) != target@ by {
                            if k > mid {
                                lemma_bytes_lt_asymmetric(key_bytes(es[mid as int].0), key_bytes(es[k].0));
                            } else {
                                lemma_bytes_lt_asymmetric(target@, key@);
                            }
                        }
                    }
                    hi = mid;
                },
            }
        }
        proof {
            assert(!self@.contains_key(word@)) by {
                if exists|i: int| 0 <= i < es.len() && #[trigger] es[i].0 == word@ {
                    let c = choose|i: int| 0 <= i < es.len() && #[trigger] es[i].0 == word@;
                    assert(key_bytes(es[c].0) == target@);
                }
            }
        }
        None
    }
}

} // verus!
