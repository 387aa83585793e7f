//! From the word list to the candidates: the distinct masks of exactly five
//! letters, in ascending order.

use crate::mask::{
    count_ones, encode_word, first_invalid, popcount, word_bytes, word_mask, word_ok,
};
use itertools::Itertools;
use vstd::prelude::*;

verus! {

/// Whether the masks ascend strictly, so that none occurs twice.
pub open spec fn strictly_ascending(s: Seq<u32>) -> bool {
    forall|i: int, j: int| 0 <= i < j < s.len() ==> s[i] < s[j]
}

/// Whether every mask holds exactly five letters.
pub open spec fn all_five_letters(s: Seq<u32>) -> bool {
    forall|i: int| 0 <= i < s.len() ==> popcount(#[trigger] s[i]) == 5
}

/// What the search expects: distinct masks of five letters, ascending.
pub open spec fn is_candidate_set(s: Seq<u32>) -> bool {
    strictly_ascending(s) && all_five_letters(s)
}

/// Whether `m` has five letters and is the mask of one of the words.
pub open spec fn is_candidate_of(words: Seq<String>, m: u32) -> bool {
    popcount(m) == 5 && exists|i: int| 0 <= i < words.len() && #[trigger] word_mask(words[i]) == m
}

/// The sequence without its repetitions: of equal items the first stays, and
/// the items keep their order.
pub open spec fn first_occurrences(s: Seq<u32>) -> Seq<u32>
    decreases s.len(),
{
    if s.len() == 0 {
        s
    } else {
        let rest = first_occurrences(s.drop_last());
        if rest.contains(s.last()) {
            rest
        } else {
            rest.push(s.last())
        }
    }
}

/// `first_occurrences` holds each item of the sequence, once.
pub proof fn lemma_first_occurrences(s: Seq<u32>)
    ensures
        first_occurrences(s).no_duplicates(),
        forall|x: u32|
            #![trigger first_occurrences(s).contains(x)]
            #![trigger s.contains(x)]
            first_occurrences(s).contains(x) <==> s.contains(x),
    decreases s.len(),
{
    if s.len() > 0 {
        let rest = first_occurrences(s.drop_last());
        lemma_first_occurrences(s.drop_last());
        assert forall|x: u32| first_occurrences(s).contains(x) <==> s.contains(x) by {
            if s.contains(x) {
                let i = choose|i: int| 0 <= i < s.len() && s[i] == x;
                if i < s.len() - 1 {
                    assert(s.drop_last()[i] == x);
                    assert(s.drop_last().contains(x));
                    assert(rest.contains(x));
                    let k = choose|k: int| 0 <= k < rest.len() && rest[k] == x;
                    assert(first_occurrences(s)[k] == x);
                } else if !rest.contains(x) {
                    assert(first_occurrences(s)[rest.len() as int] == x);
                }
            }
            if first_occurrences(s).contains(x) {
                let k = choose|k: int|
                    0 <= k < first_occurrences(s).len() && first_occurrences(s)[k] == x;
                if k < rest.len() {
                    assert(rest[k] == x);
                    assert(rest.contains(x));
                    assert(s.drop_last().contains(x));
                    let i = choose|i: int| 0 <= i < s.drop_last().len() && s.drop_last()[i] == x;
                    assert(s[i] == x);
                } else {
                    assert(s[s.len() - 1] == x);
                }
            }
        }
    }
}

/// The masks of exactly five letters among `s`, in their order.
pub open spec fn five_letter_masks(s: Seq<u32>) -> Seq<u32>
    decreases s.len(),
{
    if s.len() == 0 {
        s
    } else {
        let rest = five_letter_masks(s.drop_last());
        if popcount(s.last()) == 5 {
            rest.push(s.last())
        } else {
            rest
        }
    }
}

/// `five_letter_masks` holds exactly the items of five letters, and repeats
/// none where the sequence repeats none.
pub proof fn lemma_five_letter_masks(s: Seq<u32>)
    ensures
        forall|x: u32|
            #![trigger five_letter_masks(s).contains(x)]
            #![trigger s.contains(x)]
            five_letter_masks(s).contains(x) <==> s.contains(x) && popcount(x) == 5,
        s.no_duplicates() ==> five_letter_masks(s).no_duplicates(),
    decreases s.len(),
{
    if s.len() == 0 {
        assert forall|x: u32| !s.contains(x) by {
            if s.contains(x) {
                let i = choose|i: int| 0 <= i < s.len() && s[i] == x;
            }
        }
    } else {
        let front = s.drop_last();
        let rest = five_letter_masks(front);
        let kept = five_letter_masks(s);
        lemma_five_letter_masks(front);
        assert forall|x: u32|
            #![trigger kept.contains(x)]
            #![trigger s.contains(x)]
            kept.contains(x) <==> s.contains(x) && popcount(x) == 5 by {
            if s.contains(x) && popcount(x) == 5 {
                let i = choose|i: int| 0 <= i < s.len() && s[i] == x;
                if i < s.len() - 1 {
                    assert(front[i] == x);
                    assert(front.contains(x));
                    assert(rest.contains(x));
                    let k = choose|k: int| 0 <= k < rest.len() && rest[k] == x;
                    assert(kept[k] == x);
                } else {
                    assert(kept[rest.len() as int] == x);
                }
            }
            if kept.contains(x) {
                let k = choose|k: int| 0 <= k < kept.len() && kept[k] == x;
                if k < rest.len() {
                    assert(rest[k] == x);
                    assert(rest.contains(x));
                    assert(front.contains(x));
                    let i = choose|i: int| 0 <= i < front.len() && front[i] == x;
                    assert(s[i] == x);
                } else {
                    assert(s[s.len() - 1] == x);
                }
            }
        }
        if s.no_duplicates() {
            assert(front.no_duplicates());
            if popcount(s.last()) == 5 {
                if rest.contains(s.last()) {
                    assert(front.contains(s.last()));
                    let i = choose|i: int| 0 <= i < front.len() && front[i] == s.last();
                    assert(s[i] == s[s.len() - 1]);
                }
                assert forall|a: int, b: int| 0 <= a < b < kept.len() implies kept[a] != kept[b] by {
                    if b == rest.len() {
                        assert(rest.contains(rest[a]));
                    }
                }
            }
        }
    }
}

/// A word of the list held a character outside the alphabet.
#[derive(Clone, Copy, Debug)]
pub struct PreprocessError {
    /// The place of the first such word in the list.
    pub word: usize,
    /// The byte offset of its first character that is no letter.
    pub position: usize,
}

/// Drops the repetitions from a list of masks.
///
/// Calls itertools' `unique` on the list's items and collects what it yields.
/// That adaptor is stable: it yields each item the first time it occurs and
/// filters out every later occurrence, which is what the contract says.
#[verifier::external_body]
fn unique_masks(masks: Vec<u32>) -> (r: Vec<u32>)
    ensures
        r@ == first_occurrences(masks@),
{
    masks.into_iter().unique().collect()
}

/// Sorts a list of masks.
///
/// Calls `sort` of slices, which orders the items ascending and keeps each of
/// them; the contract says so.
#[verifier::external_body]
fn sort_masks(masks: &mut Vec<u32>)
    ensures
        final(masks)@.to_multiset() == old(masks)@.to_multiset(),
        forall|i: int, j: int|
            0 <= i < j < final(masks)@.len() ==> final(masks)@[i] <= final(masks)@[j],
{
    masks.sort()
}

/// Encodes every word of the list, in order.
///
/// Fails on the first word that holds a character outside the alphabet.
pub fn encode_words(raw_words: &Vec<String>) -> (r: Result<Vec<u32>, PreprocessError>)
    ensures
        match r {
            Ok(v) => {
                &&& v@.len() == raw_words@.len()
                &&& forall|i: int|
                    0 <= i < raw_words@.len() ==> word_ok(#[trigger] raw_words@[i]) && v@[i]
                        == word_mask(raw_words@[i])
            },
            Err(e) => {
                &&& e.word < raw_words@.len()
                &&& forall|i: int| 0 <= i < e.word ==> word_ok(#[trigger] raw_words@[i])
                &&& first_invalid(word_bytes(raw_words@[e.word as int]), e.position as int)
            },
        },
{
    let mut encoded: Vec<u32> = Vec::new();
    let mut i: usize = 0;
    while i < raw_words.len()
        invariant
            i <= raw_words@.len(),
            encoded@.len() == i,
            forall|k: int|
                0 <= k < i ==> word_ok(#[trigger] raw_words@[k]) && encoded@[k] == word_mask(
                    raw_words@[k],
                ),
        decreases raw_words.len() - i,
    {
        match encode_word(raw_words[i].clone()) {
            Ok(mask) => {
                encoded.push(mask);
            },
            Err(e) => {
                return Err(PreprocessError { word: i, position: e.position });
            },
        }
        i += 1;
    }
    Ok(encoded)
}

/// Keeps the masks of exactly five letters, in their order.
pub fn keep_five_letters(masks: &Vec<u32>) -> (r: Vec<u32>)
    ensures
        r@ == five_letter_masks(masks@),
{
    let mut kept: Vec<u32> = Vec::new();
    let mut j: usize = 0;
    while j < masks.len()
        invariant
            j <= masks@.len(),
            kept@ == five_letter_masks(masks@.take(j as int)),
        decreases masks.len() - j,
    {
        let m: u32 = masks[j];
        proof {
            assert(masks@.take(j + 1).drop_last() =~= masks@.take(j as int));
        }
        if count_ones(m) == 5 {
            kept.push(m);
        }
        j += 1;
    }
    proof {
        assert(masks@.take(j as int) =~= masks@);
    }
    kept
}

/// Turns the word list into the candidates of the search.
///
/// Every word is encoded; of the masks, those of exactly five letters are
/// kept, each once, in ascending order. A word that holds a character outside
/// the alphabet makes the whole call fail, and the first such word is named.
pub fn preprocess_words(raw_words: &Vec<String>) -> (r: Result<Vec<u32>, PreprocessError>)
    ensures
        match r {
            Ok(v) => {
                &&& forall|i: int| 0 <= i < raw_words@.len() ==> word_ok(#[trigger] raw_words@[i])
                &&& is_candidate_set(v@)
                &&& forall|m: u32| v@.contains(m) <==> is_candidate_of(raw_words@, m)
            },
            Err(e) => {
                &&& e.word < raw_words@.len()
                &&& forall|i: int| 0 <= i < e.word ==> word_ok(#[trigger] raw_words@[i])
                &&& first_invalid(word_bytes(raw_words@[e.word as int]), e.position as int)
            },
        },
{
    let encoded = match encode_words(raw_words) {
        Ok(v) => v,
        Err(e) => {
            return Err(e);
        },
    };
    let ghost all = encoded@;
    let distinct = unique_masks(encoded);
    let mut kept = keep_five_letters(&distinct);
    let ghost unsorted = kept@;
    sort_masks(&mut kept);
    proof {
        lemma_first_occurrences(all);
        lemma_five_letter_masks(distinct@);
        unsorted.to_multiset_ensures();
        kept@.to_multiset_ensures();
        unsorted.lemma_multiset_has_no_duplicates();
        kept@.lemma_multiset_has_no_duplicates_conv();
        assert forall|m: u32| kept@.contains(m) <==> is_candidate_of(raw_words@, m) by {
            if kept@.contains(m) {
                assert(kept@.to_multiset().count(m) > 0);
                assert(unsorted.to_multiset().count(m) > 0);
                assert(unsorted.contains(m));
                assert(distinct@.contains(m));
                assert(all.contains(m));
                let i = choose|i: int| 0 <= i < all.len() && all[i] == m;
                assert(word_mask(raw_words@[i]) == m);
            }
            if is_candidate_of(raw_words@, m) {
                let i = choose|i: int|
                    0 <= i < raw_words@.len() && #[trigger] word_mask(raw_words@[i]) == m;
                assert(all[i] == m);
                assert(all.contains(m));
                assert(distinct@.contains(m));
                assert(unsorted.contains(m));
                assert(unsorted.to_multiset().count(m) > 0);
                assert(kept@.to_multiset().count(m) > 0);
            }
        }
        assert forall|i: int| 0 <= i < kept@.len() implies popcount(#[trigger] kept@[i]) == 5 by {
            assert(kept@.contains(kept@[i]));
        }
    }
    Ok(kept)
}

} // verus!
