use five_words::filter::preprocess_words;
use five_words::search::{extend, find_solutions, find_solutions1, to_tuples, Partial};

fn words(list: &[&str]) -> Vec<String> {
    list.iter().map(|w| w.to_string()).collect()
}

fn brute_force(c: &[u32]) -> Vec<[u32; 5]> {
    let n = c.len();
    let mut out = Vec::new();
    for i in 0..n {
        for j in i + 1..n {
            for k in j + 1..n {
                for l in k + 1..n {
                    for m in l + 1..n {
                        let five = [c[i], c[j], c[k], c[l], c[m]];
                        let mut ok = true;
                        for a in 0..5 {
                            for b in a + 1..5 {
                                if five[a] & five[b] != 0 {
                                    ok = false;
                                }
                            }
                        }
                        if ok {
                            out.push(five);
                        }
                    }
                }
            }
        }
    }
    out
}

fn sample_candidates() -> Vec<u32> {
    let mut c: Vec<u32> = Vec::new();
    for start in 0..22u32 {
        c.push(0b11111 << start);
    }
    c.push(0b1010101010);
    c.push(0b0101010101);
    c.push(0b1010101010 << 10);
    c.push(0b0101010101 << 10);
    c.push(0b10001000100010001);
    c.sort();
    c.dedup();
    c
}

#[test]
fn five_disjoint_words_give_one_solution() {
    let c = preprocess_words(&words(&["abcde", "fghij", "klmno", "pqrst", "uvwxy"])).unwrap();
    let expected = vec![[31u32, 31 << 5, 31 << 10, 31 << 15, 31 << 20]];
    assert_eq!(find_solutions(&c), expected);
    assert_eq!(find_solutions1(&c), expected);
    let s = expected[0];
    assert_eq!((s[0] | s[1] | s[2] | s[3] | s[4]).count_ones(), 25);
}

#[test]
fn one_candidate_gives_no_solution() {
    let c = preprocess_words(&words(&["aaaaa", "abcde"])).unwrap();
    assert_eq!(c.len(), 1);
    assert!(find_solutions(&c).is_empty());
    assert!(find_solutions1(&c).is_empty());
}

#[test]
fn no_words_give_no_solution() {
    let c = preprocess_words(&Vec::new()).unwrap();
    assert!(c.is_empty());
    assert!(find_solutions(&c).is_empty());
    assert!(find_solutions1(&c).is_empty());
}

#[test]
fn four_candidates_give_no_solution() {
    let c = vec![31u32, 31 << 5, 31 << 10, 31 << 15];
    assert!(find_solutions(&c).is_empty());
    assert!(find_solutions1(&c).is_empty());
}

#[test]
fn overlapping_candidates_give_no_solution() {
    let c = vec![31u32, 31 << 4, 31 << 8, 31 << 12, 31 << 16];
    assert!(find_solutions(&c).is_empty());
    assert!(find_solutions1(&c).is_empty());
}

#[test]
fn sequential_search_matches_brute_force() {
    let c = sample_candidates();
    let found = find_solutions(&c);
    let expected = brute_force(&c);
    assert!(!expected.is_empty());
    assert_eq!(found, expected);
}

#[test]
fn solutions_are_pairwise_disjoint_with_twenty_five_letters() {
    let c = sample_candidates();
    for engine in [find_solutions(&c), find_solutions1(&c)] {
        for s in engine {
            for a in 0..5 {
                for b in a + 1..5 {
                    assert_eq!(s[a] & s[b], 0);
                }
            }
            assert_eq!((s[0] | s[1] | s[2] | s[3] | s[4]).count_ones(), 25);
        }
    }
}

#[test]
fn parallel_search_finds_the_same_solutions() {
    let c = sample_candidates();
    let mut sequential = find_solutions(&c);
    let mut parallel = find_solutions1(&c);
    sequential.sort();
    parallel.sort();
    assert_eq!(sequential, parallel);
}

#[test]
fn no_solution_comes_twice() {
    let c = sample_candidates();
    for engine in [find_solutions(&c), find_solutions1(&c)] {
        let mut as_sets: Vec<[u32; 5]> = engine
            .iter()
            .map(|s| {
                let mut t = *s;
                t.sort();
                t
            })
            .collect();
        let before = as_sets.len();
        as_sets.sort();
        as_sets.dedup();
        assert_eq!(as_sets.len(), before);
    }
}

#[test]
fn solutions_come_in_the_order_of_their_places() {
    let c = vec![31u32, 31 << 5, 31 << 10, 31 << 15, 31 << 20, 31 << 19];
    let found = find_solutions(&c);
    assert_eq!(found, vec![[c[0], c[1], c[2], c[3], c[4]]]);
    let d = vec![31u32, 31 << 5, 31 << 10, 31 << 15, 31 << 21, 31 << 20];
    assert_eq!(
        find_solutions(&d),
        vec![[d[0], d[1], d[2], d[3], d[4]], [d[0], d[1], d[2], d[3], d[5]]]
    );
    let six = vec![1u32, 2, 4, 8, 16, 32];
    let all = find_solutions(&six);
    assert_eq!(all.len(), 6);
    assert_eq!(all[0], [1, 2, 4, 8, 16]);
    assert_eq!(all[1], [1, 2, 4, 8, 32]);
    assert_eq!(all[2], [1, 2, 4, 16, 32]);
    assert_eq!(all[5], [2, 4, 8, 16, 32]);
}

#[test]
fn extend_adds_each_compatible_candidate_after_the_last() {
    let c = vec![0b0011u32, 0b0110, 0b1100, 0b110000];
    let firsts = extend(&c, Partial::new());
    assert_eq!(firsts.len(), 4);
    assert_eq!(firsts[2].acc, 0b1100);
    assert_eq!(firsts[2].next, 3);
    assert_eq!(firsts[2].len, 1);
    assert_eq!(firsts[2].i0, 2);
    assert_eq!(firsts[2].m0, 0b1100);
    let seconds = extend(&c, firsts[0]);
    assert_eq!(seconds.len(), 2);
    assert_eq!(seconds[0].acc, 0b1111);
    assert_eq!(seconds[0].i1, 2);
    assert_eq!(seconds[0].m1, 0b1100);
    assert_eq!(seconds[0].next, 3);
    assert_eq!(seconds[1].acc, 0b110011);
    assert_eq!(seconds[1].i1, 3);
    assert_eq!(seconds[1].len, 2);
    assert!(extend(&c, firsts[3]).is_empty());
}

#[test]
fn a_full_selection_has_no_children() {
    let c = vec![1u32, 2, 4, 8, 16, 32];
    let mut p = Partial::new();
    for t in 0..5 {
        p = p.grow(t, c[t]);
    }
    assert_eq!(p.len, 5);
    assert_eq!(p.acc, 31);
    assert_eq!(p.tuple(), [1, 2, 4, 8, 16]);
    assert!(extend(&c, p).is_empty());
    assert_eq!(to_tuples(&vec![p, Partial::new()]), vec![[1, 2, 4, 8, 16], [0, 0, 0, 0, 0]]);
}
