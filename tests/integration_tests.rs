use boyer_moore::{boyer_moore_search, BoyerMoore};

const ALPHABET: &str = "ACGT";

#[test]
fn bad_char_rule() {
    let pattern = "TCAA";
    let bm = BoyerMoore::new(pattern, ALPHABET).unwrap();
    assert_eq!(bm.bad_char_rule(2, 'T').unwrap(), 2);
}

#[test]
fn good_suffix_rule() {
    let pattern = "ACTA";
    let bm = BoyerMoore::new(pattern, ALPHABET).unwrap();
    assert_eq!(bm.good_suffix_rule(0).unwrap(), 3);
}

#[test]
fn match_skip() {
    let pattern = "ACAC";
    let bm = BoyerMoore::new(pattern, ALPHABET).unwrap();
    assert_eq!(bm.match_skip(), 2);
}

#[test]
fn search() {
    let text = "GCTAGCTCTACGAGTCTA";
    let pattern = "TCTA";
    let bm = BoyerMoore::new(pattern, ALPHABET).unwrap();

    assert_eq!(boyer_moore_search(pattern, &bm, text).unwrap().0, vec![6, 14]);
}
