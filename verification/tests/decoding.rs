use five_words::decode::{add_slot, decode_solution, decode_word};
use five_words::filter::preprocess_words;
use five_words::search::find_solutions;

fn words(list: &[&str]) -> Vec<String> {
    list.iter().map(|w| w.to_string()).collect()
}

#[test]
fn decode_word_reports_every_anagram() {
    let list = words(&["abcde", "fghij", "bcdea", "aaaaa"]);
    assert_eq!(decode_word(0b11111, &list), words(&["abcde", "bcdea"]));
    assert_eq!(decode_word(1, &list), words(&["aaaaa"]));
    assert!(decode_word(2, &list).is_empty());
}

#[test]
fn decode_word_passes_over_words_outside_the_alphabet() {
    let list = words(&["ab-de", "abcde", "ABCDE"]);
    assert_eq!(decode_word(0b11111, &list), words(&["abcde"]));
}

#[test]
fn anagrams_share_a_candidate_and_both_fill_its_slot() {
    let list = words(&["abcde", "bcdea", "fghij", "klmno", "pqrst", "uvwxy"]);
    let c = preprocess_words(&list).unwrap();
    assert_eq!(c.len(), 5);
    let found = find_solutions(&c);
    assert_eq!(found.len(), 1);
    let spelled = decode_solution(found[0], &list);
    assert_eq!(spelled.len(), 2);
    assert_eq!(spelled[0].to_vec(), words(&["abcde", "fghij", "klmno", "pqrst", "uvwxy"]));
    assert_eq!(spelled[1].to_vec(), words(&["bcdea", "fghij", "klmno", "pqrst", "uvwxy"]));
}

#[test]
fn decode_solution_gives_the_product_in_order() {
    let list = words(&["abcde", "edcba", "fghij", "jihgf", "klmno", "pqrst", "uvwxy", "yxwvu"]);
    let solution = [31u32, 31 << 5, 31 << 10, 31 << 15, 31 << 20];
    let spelled = decode_solution(solution, &list);
    assert_eq!(spelled.len(), 8);
    assert_eq!(spelled[0].to_vec(), words(&["abcde", "fghij", "klmno", "pqrst", "uvwxy"]));
    assert_eq!(spelled[1].to_vec(), words(&["abcde", "fghij", "klmno", "pqrst", "yxwvu"]));
    assert_eq!(spelled[2].to_vec(), words(&["abcde", "jihgf", "klmno", "pqrst", "uvwxy"]));
    assert_eq!(spelled[4].to_vec(), words(&["edcba", "fghij", "klmno", "pqrst", "uvwxy"]));
    assert_eq!(spelled[7].to_vec(), words(&["edcba", "jihgf", "klmno", "pqrst", "yxwvu"]));
}

#[test]
fn decode_solution_is_empty_where_a_slot_has_no_word() {
    let list = words(&["abcde", "fghij"]);
    let solution = [31u32, 31 << 5, 31 << 10, 31 << 15, 31 << 20];
    assert!(decode_solution(solution, &list).is_empty());
}

#[test]
fn add_slot_appends_each_word_to_each_row() {
    let rows = vec![words(&["a"]), words(&["b"])];
    let got = add_slot(&rows, &words(&["x", "y"]));
    assert_eq!(
        got,
        vec![words(&["a", "x"]), words(&["a", "y"]), words(&["b", "x"]), words(&["b", "y"])]
    );
    assert!(add_slot(&rows, &Vec::new()).is_empty());
}
