use five_words::filter::{encode_words, keep_five_letters, preprocess_words};
use five_words::mask::encode_word;

fn words(list: &[&str]) -> Vec<String> {
    list.iter().map(|w| w.to_string()).collect()
}

#[test]
fn encode_sets_one_bit_per_letter() {
    assert_eq!(encode_word("a".to_string()).unwrap(), 1);
    assert_eq!(encode_word("z".to_string()).unwrap(), 1 << 25);
    assert_eq!(encode_word("abcde".to_string()).unwrap(), 0b11111);
    assert_eq!(encode_word("fghij".to_string()).unwrap(), 0b11111 << 5);
    assert_eq!(encode_word("az".to_string()).unwrap(), 1 | (1 << 25));
}

#[test]
fn encode_of_the_empty_word_is_zero() {
    assert_eq!(encode_word("".to_string()).unwrap(), 0);
}

#[test]
fn encode_ignores_order_and_repetition() {
    assert_eq!(encode_word("bcdea".to_string()).unwrap(), encode_word("abcde".to_string()).unwrap());
    assert_eq!(encode_word("aaaaa".to_string()).unwrap(), 1);
    assert_eq!(encode_word("hello".to_string()).unwrap(), encode_word("helo".to_string()).unwrap());
}

#[test]
fn encode_is_not_bound_to_five_letters() {
    let all = encode_word("abcdefghijklmnopqrstuvwxyz".to_string()).unwrap();
    assert_eq!(all, (1u32 << 26) - 1);
}

#[test]
fn encode_refuses_what_is_no_lowercase_letter() {
    assert_eq!(encode_word("abCde".to_string()).unwrap_err().position, 2);
    assert_eq!(encode_word("ab1".to_string()).unwrap_err().position, 2);
    assert_eq!(encode_word(" abc".to_string()).unwrap_err().position, 0);
    assert_eq!(encode_word("abc{".to_string()).unwrap_err().position, 3);
    assert_eq!(encode_word("abc`".to_string()).unwrap_err().position, 3);
    assert_eq!(encode_word("\u{e9}t\u{e9}".to_string()).unwrap_err().position, 0);
    assert_eq!(encode_word("ab-cd!".to_string()).unwrap_err().position, 2);
}

#[test]
fn bits_never_exceed_letters() {
    for w in ["abcde", "hello", "aaaaa", "zebra", "queue", "", "mississippi"] {
        let mask = encode_word(w.to_string()).unwrap();
        assert!(mask.count_ones() as usize <= w.len());
        let mut letters: Vec<char> = w.chars().collect();
        letters.sort();
        letters.dedup();
        let distinct = letters.len() == w.len();
        assert_eq!(mask.count_ones() as usize == w.len(), distinct);
    }
    assert_eq!(encode_word("hello".to_string()).unwrap().count_ones(), 4);
    assert_eq!(encode_word("zebra".to_string()).unwrap().count_ones(), 5);
}

#[test]
fn encode_words_keeps_every_word_in_order() {
    let got = encode_words(&words(&["abcde", "aaaaa", "bcdea", "z"])).unwrap();
    assert_eq!(got, vec![31, 1, 31, 1 << 25]);
}

#[test]
fn encode_words_names_the_first_bad_word() {
    let err = encode_words(&words(&["abcde", "fgh9j", "k!"])).unwrap_err();
    assert_eq!(err.word, 1);
    assert_eq!(err.position, 3);
}

#[test]
fn keep_five_letters_keeps_order_and_drops_the_rest() {
    let got = keep_five_letters(&vec![0b11111 << 5, 1, 0b111111, 0b11111, 0, 0b101010101]);
    assert_eq!(got, vec![0b11111 << 5, 0b11111, 0b101010101]);
}

#[test]
fn preprocess_drops_words_with_a_repeated_letter() {
    let got = preprocess_words(&words(&["aaaaa", "abcde"])).unwrap();
    assert_eq!(got, vec![0b11111]);
}

#[test]
fn preprocess_keeps_one_mask_for_anagrams() {
    let got = preprocess_words(&words(&["abcde", "bcdea", "edcba", "abcde"])).unwrap();
    assert_eq!(got, vec![0b11111]);
}

#[test]
fn preprocess_sorts_ascending() {
    let got = preprocess_words(&words(&["uvwxy", "fghij", "abcde", "pqrst", "klmno"])).unwrap();
    assert_eq!(
        got,
        vec![31, 31 << 5, 31 << 10, 31 << 15, 31 << 20]
    );
    let mixed = preprocess_words(&words(&["vwxyz", "abcdz", "zabcd", "bcdef"])).unwrap();
    for pair in mixed.windows(2) {
        assert!(pair[0] < pair[1]);
    }
    for m in &mixed {
        assert_eq!(m.count_ones(), 5);
    }
    assert_eq!(mixed.len(), 3);
}

#[test]
fn preprocess_drops_words_of_other_lengths() {
    let got = preprocess_words(&words(&["abcd", "abcdef", "abcde", ""])).unwrap();
    assert_eq!(got, vec![0b11111]);
}

#[test]
fn preprocess_of_no_words_is_empty() {
    let got = preprocess_words(&Vec::new()).unwrap();
    assert!(got.is_empty());
}

#[test]
fn preprocess_fails_on_a_bad_word() {
    let err = preprocess_words(&words(&["abcde", "fghij", "Klmno", "p-rst"])).unwrap_err();
    assert_eq!(err.word, 2);
    assert_eq!(err.position, 0);
    let err = preprocess_words(&words(&["ab de"])).unwrap_err();
    assert_eq!(err.word, 0);
    assert_eq!(err.position, 2);
}
