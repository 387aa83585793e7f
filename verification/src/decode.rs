//! From masks back to words: every word of the list that a mask stands for,
//! and every way to spell a solution with them.

use crate::mask::{encode_word, word_mask, word_ok};
use vstd::prelude::*;

verus! {

/// Whether the word is made of letters only and has the mask.
pub open spec fn spells(w: String, mask: u32) -> bool {
    word_ok(w) && word_mask(w) == mask
}

/// The words of the list that have the mask, in their order.
pub open spec fn words_of(words: Seq<String>, mask: u32) -> Seq<String>
    decreases words.len(),
{
    if words.len() == 0 {
        words
    } else {
        let rest = words_of(words.drop_last(), mask);
        if spells(words.last(), mask) {
            rest.push(words.last())
        } else {
            rest
        }
    }
}

/// The row with each word of the group added at its end, in turn.
pub open spec fn appended(row: Seq<String>, group: Seq<String>) -> Seq<Seq<String>> {
    Seq::new(group.len(), |j: int| row.push(group[j]))
}

/// Every row with every word of the group added at its end: the rows in
/// their order, and for each row the words in theirs.
pub open spec fn cross(rows: Seq<Seq<String>>, group: Seq<String>) -> Seq<Seq<String>>
    decreases rows.len(),
{
    if rows.len() == 0 {
        Seq::empty()
    } else {
        cross(rows.drop_last(), group) + appended(rows.last(), group)
    }
}

/// Every way to spell the five masks with words of the list, one word for
/// each mask; the ways that differ in an earlier word come first.
pub open spec fn spellings(words: Seq<String>, solution: Seq<u32>) -> Seq<Seq<String>> {
    cross(
        cross(
            cross(
                cross(
                    cross(seq![Seq::<String>::empty()], words_of(words, solution[0])),
                    words_of(words, solution[1]),
                ),
                words_of(words, solution[2]),
            ),
            words_of(words, solution[3]),
        ),
        words_of(words, solution[4]),
    )
}

/// What the rows hold.
pub open spec fn rows_of(v: Seq<Vec<String>>) -> Seq<Seq<String>> {
    v.map_values(|c: Vec<String>| c@)
}

/// What a list of spelled solutions holds.
pub open spec fn quintets(v: Seq<[String; 5]>) -> Seq<Seq<String>> {
    v.map_values(|a: [String; 5]| a@)
}

/// Whether every row holds `d` words.
pub open spec fn all_of_length(rows: Seq<Seq<String>>, d: int) -> bool {
    forall|k: int| 0 <= k < rows.len() ==> (#[trigger] rows[k]).len() == d
}

/// Adding a word to rows of `d` words gives rows of `d + 1` words.
pub proof fn lemma_cross_length(rows: Seq<Seq<String>>, group: Seq<String>, d: int)
    requires
        all_of_length(rows, d),
    ensures
        all_of_length(cross(rows, group), d + 1),
    decreases rows.len(),
{
    if rows.len() > 0 {
        lemma_cross_length(rows.drop_last(), group, d);
        assert(rows[rows.len() - 1].len() == d);
    }
}

/// The words of the list that the mask stands for, in their order.
///
/// A word that holds a character outside the alphabet stands for no mask.
pub fn decode_word(word: u32, raw_words: &Vec<String>) -> (r: Vec<String>)
    ensures
        r@ == words_of(raw_words@, word),
{
    let mut decoded: Vec<String> = Vec::new();
    let mut i: usize = 0;
    while i < raw_words.len()
        invariant
            i <= raw_words@.len(),
            decoded@ == words_of(raw_words@.take(i as int), word),
        decreases raw_words.len() - i,
    {
        proof {
            assert(raw_words@.take(i + 1).drop_last() =~= raw_words@.take(i as int));
        }
        let hit = match encode_word(raw_words[i].clone()) {
            Ok(mask) => mask == word,
            Err(_) => false,
        };
        if hit {
            decoded.push(raw_words[i].clone());
        }
        i += 1;
    }
    proof {
        assert(raw_words@.take(i as int) =~= raw_words@);
    }
    decoded
}

/// A copy of the row with the word added at its end.
fn with_word(row: &Vec<String>, word: &String) -> (r: Vec<String>)
    ensures
        r@ == row@.push(*word),
{
    let mut copy: Vec<String> = Vec::new();
    let mut k: usize = 0;
    while k < row.len()
        invariant
            k <= row@.len(),
            copy@ == row@.take(k as int),
        decreases row.len() - k,
    {
        copy.push(row[k].clone());
        proof {
            assert(copy@ =~= row@.take(k + 1));
        }
        k += 1;
    }
    proof {
        assert(row@.take(k as int) =~= row@);
    }
    copy.push(word.clone());
    copy
}

/// Every row with every word of the group added at its end.
pub fn add_slot(rows: &Vec<Vec<String>>, group: &Vec<String>) -> (r: Vec<Vec<String>>)
    ensures
        rows_of(r@) == cross(rows_of(rows@), group@),
{
    let mut out: Vec<Vec<String>> = Vec::new();
    let mut i: usize = 0;
    proof {
        assert(rows_of(out@) =~= cross(rows_of(rows@).take(0), group@));
    }
    while i < rows.len()
        invariant
            i <= rows@.len(),
            rows_of(out@) == cross(rows_of(rows@).take(i as int), group@),
        decreases rows.len() - i,
    {
        let ghost done = rows_of(out@);
        let mut j: usize = 0;
        proof {
            assert(done + appended(rows@[i as int]@, group@.take(0)) =~= done);
        }
        while j < group.len()
            invariant
                i < rows@.len(),
                j <= group@.len(),
                rows_of(out@) == done + appended(rows@[i as int]@, group@.take(j as int)),
            decreases group.len() - j,
        {
            let ghost before = out@;
            let row = with_word(&rows[i], &group[j]);
            out.push(row);
            proof {
                let base = rows@[i as int]@;
                assert(rows_of(before.push(row)) =~= rows_of(before).push(row@));
                assert(appended(base, group@.take(j + 1)) =~= appended(
                    base,
                    group@.take(j as int),
                ).push(base.push(group@[j as int])));
                assert(rows_of(out@) =~= done + appended(base, group@.take(j + 1)));
            }
            j += 1;
        }
        proof {
            assert(group@.take(j as int) =~= group@);
            let all = rows_of(rows@);
            assert(all.take(i + 1).drop_last() =~= all.take(i as int));
            assert(all.take(i + 1).last() == rows@[i as int]@);
        }
        i += 1;
    }
    proof {
        assert(rows_of(rows@).take(i as int) =~= rows_of(rows@));
    }
    out
}

/// Every way to spell a solution with words of the list.
///
/// Each slot of the solution is filled with each word that has its mask, so
/// that one solution gives as many spellings as the product of the numbers
/// of words for its five masks. The spellings that differ in an earlier slot
/// come first.
pub fn decode_solution(solution: [u32; 5], raw_words: &Vec<String>) -> (r: Vec<[String; 5]>)
    ensures
        quintets(r@) == spellings(raw_words@, solution@),
{
    let mut rows: Vec<Vec<String>> = Vec::new();
    rows.push(Vec::new());
    proof {
        assert(rows_of(rows@) =~= seq![Seq::<String>::empty()]);
        assert(all_of_length(rows_of(rows@), 0));
    }
    let mut slot: usize = 0;
    let ghost words = raw_words@;
    let ghost r0 = rows_of(rows@);
    let ghost r1 = cross(r0, words_of(words, solution@[0]));
    let ghost r2 = cross(r1, words_of(words, solution@[1]));
    let ghost r3 = cross(r2, words_of(words, solution@[2]));
    let ghost r4 = cross(r3, words_of(words, solution@[3]));
    let ghost r5 = cross(r4, words_of(words, solution@[4]));
    proof {
        lemma_cross_length(r0, words_of(words, solution@[0]), 0);
        lemma_cross_length(r1, words_of(words, solution@[1]), 1);
        lemma_cross_length(r2, words_of(words, solution@[2]), 2);
        lemma_cross_length(r3, words_of(words, solution@[3]), 3);
        lemma_cross_length(r4, words_of(words, solution@[4]), 4);
    }
    while slot < 5
        invariant
            slot <= 5,
            words == raw_words@,
            rows_of(rows@) == if slot == 0 {
                r0
            } else if slot == 1 {
                r1
            } else if slot == 2 {
                r2
            } else if slot == 3 {
                r3
            } else if slot == 4 {
                r4
            } else {
                r5
            },
            r1 == cross(r0, words_of(words, solution@[0])),
            r2 == cross(r1, words_of(words, solution@[1])),
            r3 == cross(r2, words_of(words, solution@[2])),
            r4 == cross(r3, words_of(words, solution@[3])),
            r5 == cross(r4, words_of(words, solution@[4])),
        decreases 5 - slot,
    {
        let group = decode_word(solution[slot], raw_words);
        rows = add_slot(&rows, &group);
        slot += 1;
    }
    let mut decoded: Vec<[String; 5]> = Vec::new();
    let mut t: usize = 0;
    while t < rows.len()
        invariant
            t <= rows@.len(),
            all_of_length(rows_of(rows@), 5),
            quintets(decoded@) == rows_of(rows@).take(t as int),
        decreases rows.len() - t,
    {
        let ghost before = decoded@;
        let row = &rows[t];
        proof {
            assert(rows_of(rows@)[t as int].len() == 5);
        }
        let spelled: [String; 5] = [
            row[0].clone(),
            row[1].clone(),
            row[2].clone(),
            row[3].clone(),
            row[4].clone(),
        ];
        decoded.push(spelled);
        proof {
            assert(spelled@ =~= row@);
            assert(quintets(before.push(spelled)) =~= quintets(before).push(spelled@));
            assert(rows_of(rows@).take(t + 1) =~= rows_of(rows@).take(t as int).push(row@));
        }
        t += 1;
    }
    proof {
        assert(rows_of(rows@).take(t as int) =~= rows_of(rows@));
    }
    decoded
}

} // verus!
