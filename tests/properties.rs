use boyer_moore::{align_at, boyer_moore_search, Alignment, BmError, BoyerMoore};

const DNA: &str = "ACGT";

fn brute_force(pattern: &str, text: &str) -> Vec<usize> {
    let p: Vec<char> = pattern.chars().collect();
    let t: Vec<char> = text.chars().collect();
    let mut found = Vec::new();
    if t.len() >= p.len() {
        for q in 0..=(t.len() - p.len()) {
            if t[q..q + p.len()] == p[..] {
                found.push(q);
            }
        }
    }
    found
}

#[test]
fn builds_for_every_valid_pattern() {
    for pattern in ["AC", "ACTGTC", "TTTT", "GATTACA", "ACAC"] {
        let bm = BoyerMoore::new(pattern, DNA).unwrap();
        let m = pattern.len();
        for offset in 0..m {
            assert!(bm.good_suffix_rule(offset).is_ok());
            assert!(bm.bad_char_rule(offset, 'G').is_ok());
        }
        assert_eq!(bm.good_suffix_rule(m), Err(BmError::InvalidOffset(m)));
    }
}

#[test]
fn shifts_stay_within_pattern() {
    for pattern in ["ACTGTC", "CATGTC", "ACAC", "AAAA", "TCAA"] {
        let bm = BoyerMoore::new(pattern, DNA).unwrap();
        let m = pattern.len();
        assert!(bm.match_skip() >= 1 && bm.match_skip() <= m);
        for offset in 0..m {
            assert!(bm.good_suffix_rule(offset).unwrap() <= m);
            for c in DNA.chars() {
                let shift = bm.bad_char_rule(offset, c).unwrap();
                assert!(shift >= 1 && shift <= offset + 1);
            }
        }
    }
}

#[test]
fn match_skip_without_border_is_pattern_length() {
    let bm = BoyerMoore::new("ACTGTC", DNA).unwrap();
    assert_eq!(bm.match_skip(), 6);
}

#[test]
fn match_skip_with_border_of_one() {
    let bm = BoyerMoore::new("CATGTC", DNA).unwrap();
    assert_eq!(bm.match_skip(), 5);
}

#[test]
fn bad_char_rule_on_actgtc() {
    let bm = BoyerMoore::new("ACTGTC", DNA).unwrap();
    assert_eq!(bm.bad_char_rule(4, 'C').unwrap(), 3);
    assert_eq!(bm.bad_char_rule(4, 'G').unwrap(), 1);
    assert_eq!(bm.bad_char_rule(2, 'G').unwrap(), 3);
}

#[test]
fn good_suffix_rule_on_acta() {
    let bm = BoyerMoore::new("ACTA", DNA).unwrap();
    assert_eq!(bm.good_suffix_rule(2).unwrap(), 3);
    assert_eq!(bm.good_suffix_rule(3).unwrap(), 0);
}

#[test]
fn good_suffix_rule_on_actgtc() {
    let bm = BoyerMoore::new("ACTGTC", DNA).unwrap();
    assert_eq!(bm.good_suffix_rule(2).unwrap(), 6);
    assert_eq!(bm.good_suffix_rule(4).unwrap(), 4);
}

#[test]
fn search_end_to_end_counts() {
    let bm = BoyerMoore::new("TCTA", DNA).unwrap();
    let first = boyer_moore_search("TCTA", &bm, "GCTAGCTCTACGAGTCTA").unwrap();
    assert_eq!(first, (vec![6, 14], 5, 14));
    let second = boyer_moore_search("TCTA", &bm, "GCTAGCTCTACGAGTCTA").unwrap();
    assert_eq!(first, second);
}

#[test]
fn construction_is_repeatable() {
    let a = BoyerMoore::new("GATTACA", DNA).unwrap();
    let b = BoyerMoore::new("GATTACA", DNA).unwrap();
    assert_eq!(a.match_skip(), b.match_skip());
    for offset in 0..7 {
        assert_eq!(a.good_suffix_rule(offset), b.good_suffix_rule(offset));
        for c in DNA.chars() {
            assert_eq!(a.bad_char_rule(offset, c), b.bad_char_rule(offset, c));
        }
    }
}

#[test]
fn out_of_range_offset_fails() {
    let bm = BoyerMoore::new("ACTA", DNA).unwrap();
    assert_eq!(bm.bad_char_rule(4, 'A'), Err(BmError::InvalidOffset(4)));
    assert_eq!(bm.bad_char_rule(usize::MAX, 'C'), Err(BmError::InvalidOffset(usize::MAX)));
    assert_eq!(bm.good_suffix_rule(4), Err(BmError::InvalidOffset(4)));
    assert_eq!(bm.good_suffix_rule(100), Err(BmError::InvalidOffset(100)));
}

#[test]
fn overlapping_occurrences_are_found() {
    let bm = BoyerMoore::new("ACAC", DNA).unwrap();
    let (found, alignments, comparisons) = boyer_moore_search("ACAC", &bm, "ACACACAC").unwrap();
    assert_eq!(found, vec![0, 2, 4]);
    assert_eq!(found, brute_force("ACAC", "ACACACAC"));
    assert_eq!((alignments, comparisons), (3, 12));
}

#[test]
fn search_agrees_with_brute_force() {
    let texts = ["GCTAGCTCTACGAGTCTA", "AAAAAAA", "ACGTACGTTACGACGT", "TTACCATTACAC"];
    for pattern in ["TCTA", "AAA", "ACGT", "AC", "TTAC", "CAC"] {
        let bm = BoyerMoore::new(pattern, DNA).unwrap();
        for text in texts {
            let (found, _, _) = boyer_moore_search(pattern, &bm, text).unwrap();
            assert_eq!(found, brute_force(pattern, text));
        }
    }
}

#[test]
fn search_repeated_symbol() {
    let bm = BoyerMoore::new("AAA", DNA).unwrap();
    assert_eq!(boyer_moore_search("AAA", &bm, "AAAAA").unwrap(), (vec![0, 1, 2], 3, 9));
}

#[test]
fn text_shorter_than_pattern() {
    let bm = BoyerMoore::new("ACGT", DNA).unwrap();
    assert_eq!(boyer_moore_search("ACGT", &bm, "ACG").unwrap(), (vec![], 0, 0));
    assert_eq!(boyer_moore_search("ACGT", &bm, "").unwrap(), (vec![], 0, 0));
}

#[test]
fn short_pattern_is_rejected() {
    assert_eq!(BoyerMoore::new("A", DNA).err(), Some(BmError::InvalidPatternLength));
    assert_eq!(BoyerMoore::new("", DNA).err(), Some(BmError::InvalidPatternLength));
}

#[test]
fn pattern_symbol_outside_alphabet_is_rejected() {
    assert_eq!(BoyerMoore::new("AXGY", DNA).err(), Some(BmError::SymbolNotInAlphabet('X')));
    assert_eq!(BoyerMoore::new("N", DNA).err(), Some(BmError::SymbolNotInAlphabet('N')));
}

#[test]
fn query_symbol_outside_alphabet_is_rejected() {
    let bm = BoyerMoore::new("ACTA", DNA).unwrap();
    assert_eq!(bm.bad_char_rule(0, 'N'), Err(BmError::SymbolNotInAlphabet('N')));
    assert_eq!(bm.bad_char_rule(9, 'N'), Err(BmError::SymbolNotInAlphabet('N')));
}

#[test]
fn search_stops_at_unknown_text_symbol() {
    let bm = BoyerMoore::new("ACGT", DNA).unwrap();
    assert_eq!(boyer_moore_search("ACGT", &bm, "ACGTNCGT"), Err(BmError::SymbolNotInAlphabet('N')));
    // An unknown symbol that is never the mismatched one does not stop the scan.
    assert_eq!(boyer_moore_search("ACGT", &bm, "NACGT").unwrap().0, vec![1]);
}

#[test]
fn alignment_step_reports_shifts() {
    let bm = BoyerMoore::new("TCTA", DNA).unwrap();
    let pattern: Vec<char> = "TCTA".chars().collect();
    let text: Vec<char> = "GCTAGCTCTACGAGTCTA".chars().collect();
    let first = align_at(&bm, &pattern, &text, 0).unwrap();
    assert_eq!(
        first,
        Alignment { mismatch: Some(0), skip_bc: 1, skip_gs: 4, shift: 4, comparisons: 4 }
    );
    let hit = align_at(&bm, &pattern, &text, 6).unwrap();
    assert_eq!(hit.mismatch, None);
    assert_eq!(hit.skip_bc, 0);
    assert_eq!(hit.skip_gs, bm.match_skip());
    assert_eq!(hit.comparisons, 4);
}

#[test]
fn alphabet_order_sets_nothing_but_indices() {
    let a = BoyerMoore::new("GATTACA", "ACGT").unwrap();
    let b = BoyerMoore::new("GATTACA", "TGCA").unwrap();
    for offset in 0..7 {
        for c in "ACGT".chars() {
            assert_eq!(a.bad_char_rule(offset, c), b.bad_char_rule(offset, c));
        }
    }
}
