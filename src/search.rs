//! The scan driver: slides the pattern along a text and records every occurrence.
use vstd::prelude::*;

use crate::bad_char::lemma_last_position;
use crate::error::BmError;
use crate::matcher::{
    bad_char_shift, good_suffix_shift, lemma_shift_tables_bounded, match_skip_shift, BoyerMoore,
};
use crate::shift_lemmas::{
    lemma_bad_char_shift_safe, lemma_good_suffix_shift_safe, lemma_match_skip_safe,
    lemma_occurs_at_reads, occurs_at,
};
use crate::text::chars_of;

verus! {

/// What happened at one alignment of the pattern against the text.
#[derive(Debug, Clone, Copy, PartialEq, Eq)]
pub struct Alignment {
    /// The rightmost pattern offset that mismatched, or `None` on a full match.
    pub mismatch: Option<usize>,
    /// The bad-character shift (0 on a full match).
    pub skip_bc: usize,
    /// The good-suffix shift, or the match skip on a full match.
    pub skip_gs: usize,
    /// How far the alignment moves: the largest of 1 and the shifts.
    pub shift: usize,
    /// How many symbols were compared.
    pub comparisons: usize,
}

/// The rightmost `k < j` at which `p` and `t` aligned at `i` differ, or -1.
pub open spec fn mismatch_before(p: Seq<char>, t: Seq<char>, i: int, j: int) -> int
    decreases j,
{
    if j <= 0 {
        -1
    } else if p[j - 1] != t[i + j - 1] {
        j - 1
    } else {
        mismatch_before(p, t, i, j - 1)
    }
}

/// The rightmost offset at which `p` aligned at `i` differs from `t`, or -1.
pub open spec fn last_mismatch(p: Seq<char>, t: Seq<char>, i: int) -> int {
    mismatch_before(p, t, i, p.len() as int)
}

/// The larger of two integers.
pub open spec fn max_of(a: int, b: int) -> int {
    if a >= b {
        a
    } else {
        b
    }
}

/// How far the alignment at `i` moves.
pub open spec fn alignment_shift(p: Seq<char>, t: Seq<char>, i: int) -> int {
    let k = last_mismatch(p, t, i);
    if k >= 0 {
        max_of(1, max_of(bad_char_shift(p, t[i + k], k), good_suffix_shift(p, k)))
    } else {
        max_of(1, match_skip_shift(p))
    }
}

/// How many symbols the alignment at `i` compares, right to left up to the mismatch.
pub open spec fn alignment_comparisons(p: Seq<char>, t: Seq<char>, i: int) -> int {
    let k = last_mismatch(p, t, i);
    if k >= 0 {
        p.len() - k
    } else {
        p.len() as int
    }
}

/// Whether the scan has an alignment at `i`.
pub open spec fn in_text(p: Seq<char>, t: Seq<char>, i: int) -> bool {
    0 <= i && i + p.len() <= t.len()
}

/// How many alignments the scan makes from `i` on.
pub open spec fn alignment_count(p: Seq<char>, t: Seq<char>, i: int) -> int
    decreases t.len() - i,
{
    if in_text(p, t, i) {
        let next = i + alignment_shift(p, t, i);
        1 + if in_text(p, t, next) {
            alignment_count(p, t, next)
        } else {
            0
        }
    } else {
        0
    }
}

/// How many symbols the scan compares from `i` on.
pub open spec fn comparison_count(p: Seq<char>, t: Seq<char>, i: int) -> int
    decreases t.len() - i,
{
    if in_text(p, t, i) {
        let next = i + alignment_shift(p, t, i);
        alignment_comparisons(p, t, i) + if in_text(p, t, next) {
            comparison_count(p, t, next)
        } else {
            0
        }
    } else {
        0
    }
}

/// The first symbol outside alphabet `a` at which the scan from `i` on mismatches, if any.
pub open spec fn scan_error(p: Seq<char>, a: Seq<char>, t: Seq<char>, i: int) -> Option<char>
    decreases t.len() - i,
{
    if in_text(p, t, i) {
        let k = last_mismatch(p, t, i);
        let next = i + alignment_shift(p, t, i);
        if k >= 0 && !a.contains(t[i + k]) {
            Some(t[i + k])
        } else if in_text(p, t, next) {
            scan_error(p, a, t, next)
        } else {
            None
        }
    } else {
        None
    }
}

/// The positions below `k` at which `p` occurs in `t`, in increasing order.
pub open spec fn occurrences_before(p: Seq<char>, t: Seq<char>, k: int) -> Seq<usize>
    decreases k,
{
    if k <= 0 {
        Seq::empty()
    } else if occurs_at(p, t, k - 1) {
        occurrences_before(p, t, k - 1).push((k - 1) as usize)
    } else {
        occurrences_before(p, t, k - 1)
    }
}

/// Every position at which `p` occurs in `t`, in increasing order.
pub open spec fn all_occurrences(p: Seq<char>, t: Seq<char>) -> Seq<usize> {
    occurrences_before(p, t, t.len() as int)
}

/// What `mismatch_before` finds, and that everything after it agrees.
pub proof fn lemma_mismatch_before(p: Seq<char>, t: Seq<char>, i: int, j: int)
    requires
        0 <= j <= p.len(),
    ensures
        -1 <= mismatch_before(p, t, i, j) < j,
        mismatch_before(p, t, i, j) >= 0 ==> p[mismatch_before(p, t, i, j)] != t[i
            + mismatch_before(p, t, i, j)],
        forall|v: int| mismatch_before(p, t, i, j) < v < j ==> #[trigger] p[v] == t[i + v],
    decreases j,
{
    if j > 0 {
        lemma_mismatch_before(p, t, i, j - 1);
    }
}

/// An alignment with no mismatch is an occurrence, and one with a mismatch is not.
pub proof fn lemma_mismatch_occurs(p: Seq<char>, t: Seq<char>, i: int)
    requires
        in_text(p, t, i),
    ensures
        last_mismatch(p, t, i) < 0 <==> occurs_at(p, t, i),
{
    lemma_mismatch_before(p, t, i, p.len() as int);
    let k = last_mismatch(p, t, i);
    if k < 0 {
        assert(t.subrange(i, i + p.len()) =~= p);
    } else if occurs_at(p, t, i) {
        lemma_occurs_at_reads(p, t, i, k);
    }
}

/// A shift is at least 1 and at most the pattern length.
pub proof fn lemma_alignment_shift_bound(p: Seq<char>, t: Seq<char>, i: int)
    requires
        1 < p.len() <= usize::MAX,
        in_text(p, t, i),
    ensures
        1 <= alignment_shift(p, t, i) <= p.len(),
{
    let k = last_mismatch(p, t, i);
    lemma_mismatch_before(p, t, i, p.len() as int);
    lemma_shift_tables_bounded(p, 1);
    if k >= 0 {
        lemma_last_position(p, t[i + k], k);
        if k < p.len() - 1 {
            lemma_shift_tables_bounded(p, k + 1);
        }
    }
}

/// No occurrence starts strictly between an alignment and the next one.
pub proof fn lemma_alignment_shift_safe(p: Seq<char>, t: Seq<char>, i: int, s: int)
    requires
        1 < p.len() <= usize::MAX,
        in_text(p, t, i),
        1 <= s < alignment_shift(p, t, i),
    ensures
        !occurs_at(p, t, i + s),
{
    let k = last_mismatch(p, t, i);
    lemma_mismatch_before(p, t, i, p.len() as int);
    if k >= 0 {
        if s < bad_char_shift(p, t[i + k], k) {
            lemma_bad_char_shift_safe(p, t, i, k, s);
        } else {
            lemma_good_suffix_shift_safe(p, t, i, k, s);
        }
    } else {
        lemma_mismatch_occurs(p, t, i);
        lemma_match_skip_safe(p, t, i, s);
    }
}

/// Positions without an occurrence add nothing to the list.
pub proof fn lemma_occurrences_skip(p: Seq<char>, t: Seq<char>, from: int, to: int)
    requires
        0 <= from <= to,
        forall|q: int| from <= q < to ==> !#[trigger] occurs_at(p, t, q),
    ensures
        occurrences_before(p, t, to) == occurrences_before(p, t, from),
    decreases to - from,
{
    if from < to {
        lemma_occurrences_skip(p, t, from, to - 1);
    }
}

/// The counts of the scan from `i` on fit in the text that is left.
pub proof fn lemma_counts_bound(p: Seq<char>, t: Seq<char>, i: int)
    requires
        1 < p.len() <= usize::MAX,
        0 <= i <= t.len(),
    ensures
        0 <= alignment_count(p, t, i) <= t.len() - i,
        0 <= comparison_count(p, t, i) <= p.len() * (t.len() - i),
    decreases t.len() - i,
{
    let m = p.len() as int;
    let n = t.len() as int;
    if in_text(p, t, i) {
        lemma_alignment_shift_bound(p, t, i);
        lemma_mismatch_before(p, t, i, m);
        let sh = alignment_shift(p, t, i);
        let next = i + sh;
        if in_text(p, t, next) {
            lemma_counts_bound(p, t, next);
        }
        let rest = if in_text(p, t, next) {
            comparison_count(p, t, next)
        } else {
            0
        };
        assert(rest <= m * (n - next)) by {
            assert(0 <= m * (n - next)) by (nonlinear_arith)
                requires
                    0 <= m,
                    0 <= n - next,
            ;
        }
        assert(m + m * (n - next) <= m * (n - i)) by (nonlinear_arith)
            requires
                0 <= m,
                n - next <= n - i - 1,
        ;
    } else {
        assert(0 <= m * (n - i)) by (nonlinear_arith)
            requires
                0 <= m,
                0 <= n - i,
        ;
    }
}

/// Compares `pattern` with `text` at alignment `i`, right to left, and works out the
/// shifts that the mismatch, or the full match, gives.
///
/// Fails with `SymbolNotInAlphabet` when the mismatched text symbol is not in the
/// alphabet.
pub fn align_at(bm: &BoyerMoore, pattern: &[char], text: &[char], i: usize) -> (r: Result<
    Alignment,
    BmError,
>)
    requires
        bm.wf(),
        pattern@ == bm.pattern(),
        i + pattern@.len() <= text@.len(),
    ensures
        ({
            let p = pattern@;
            let t = text@;
            let k = last_mismatch(p, t, i as int);
            match r {
                Ok(al) => {
                    &&& k < 0 || bm.alphabet().contains(t[i + k])
                    &&& al.mismatch == if k >= 0 {
                        Some(k as usize)
                    } else {
                        None::<usize>
                    }
                    &&& al.shift as int == alignment_shift(p, t, i as int)
                    &&& al.comparisons as int == alignment_comparisons(p, t, i as int)
                    &&& al.skip_bc as int == if k >= 0 {
                        bad_char_shift(p, t[i + k], k)
                    } else {
                        0
                    }
                    &&& al.skip_gs as int == if k >= 0 {
                        good_suffix_shift(p, k)
                    } else {
                        match_skip_shift(p)
                    }
                },
                Err(e) => k >= 0 && !bm.alphabet().contains(t[i + k]) && e
                    == BmError::SymbolNotInAlphabet(t[i + k]),
            }
        }),
{
    let ghost p = pattern@;
    let ghost t = text@;
    let m = pattern.len();
    let n = text.len();
    let mut j: usize = m;
    while j > 0
        invariant
            bm.wf(),
            p == bm.pattern(),
            p == pattern@,
            t == text@,
            n == t.len(),
            m == p.len(),
            j <= m,
            i + m <= t.len(),
            mismatch_before(p, t, i as int, m as int) == mismatch_before(p, t, i as int, j as int),
        decreases j,
    {
        j -= 1;
        if pattern[j] != text[i + j] {
            let c = text[i + j];
            let skip_bc = match bm.bad_char_rule(j, c) {
                Ok(shift) => shift,
                Err(e) => {
                    return Err(e);
                },
            };
            let skip_gs = match bm.good_suffix_rule(j) {
                Ok(shift) => shift,
                Err(e) => {
                    return Err(e);
                },
            };
            let mut shift: usize = 1;
            if skip_bc > shift {
                shift = skip_bc;
            }
            if skip_gs > shift {
                shift = skip_gs;
            }
            return Ok(Alignment { mismatch: Some(j), skip_bc, skip_gs, shift, comparisons: m - j });
        }
    }
    let skip_gs = bm.match_skip();
    let shift: usize = if skip_gs > 1 {
        skip_gs
    } else {
        1
    };
    Ok(Alignment { mismatch: None, skip_bc: 0, skip_gs, shift, comparisons: m })
}

/// Finds every occurrence of `pattern` in `text` with the tables of `bm`, and counts the
/// alignments made and the symbols compared.
///
/// Fails with `SymbolNotInAlphabet` at the first mismatched text symbol that is not in
/// the alphabet.
pub fn boyer_moore_search(pattern: &str, bm: &BoyerMoore, text: &str) -> (r: Result<
    (Vec<usize>, usize, usize),
    BmError,
>)
    requires
        bm.wf(),
        pattern@ == bm.pattern(),
        text@.len() * pattern@.len() <= usize::MAX,
    ensures
        match r {
            Ok((occurrences, alignments, comparisons)) => {
                &&& scan_error(pattern@, bm.alphabet(), text@, 0) is None
                &&& occurrences@ == all_occurrences(pattern@, text@)
                &&& alignments as int == alignment_count(pattern@, text@, 0)
                &&& comparisons as int == comparison_count(pattern@, text@, 0)
            },
            Err(e) => scan_error(pattern@, bm.alphabet(), text@, 0) matches Some(c) && e
                == BmError::SymbolNotInAlphabet(c),
        },
{
    let pat = chars_of(pattern);
    let txt = chars_of(text);
    let ghost p = pat@;
    let ghost t = txt@;
    let ghost a = bm.alphabet();
    let m = pat.len();
    let n = txt.len();
    let mut occurrences: Vec<usize> = Vec::new();
    let mut alignments: usize = 0;
    let mut comparisons: usize = 0;
    proof {
        lemma_counts_bound(p, t, 0);
        assert(m * n == n * m) by (nonlinear_arith);
    }
    let mut i: usize = 0;
    while m <= n - i
        invariant
            p == pat@,
            p == pattern@,
            p == bm.pattern(),
            t == txt@,
            t == text@,
            a == bm.alphabet(),
            m == p.len(),
            n == t.len(),
            bm.wf(),
            i <= n,
            comparison_count(p, t, 0) <= m * n <= usize::MAX,
            alignment_count(p, t, 0) <= n,
            occurrences@ == occurrences_before(p, t, i as int),
            scan_error(p, a, t, 0) == scan_error(p, a, t, i as int),
            alignments + alignment_count(p, t, i as int) == alignment_count(p, t, 0),
            comparisons + comparison_count(p, t, i as int) == comparison_count(p, t, 0),
        decreases n - i,
    {
        proof {
            lemma_counts_bound(p, t, i as int);
            lemma_alignment_shift_bound(p, t, i as int);
            lemma_mismatch_occurs(p, t, i as int);
        }
        let al = match align_at(bm, pat.as_slice(), txt.as_slice(), i) {
            Ok(al) => al,
            Err(e) => {
                proof {
                    let k = last_mismatch(p, t, i as int);
                    assert(scan_error(p, a, t, i as int) == Some(t[i + k]));
                }
                return Err(e);
            },
        };
        proof {
            let next = i + al.shift;
            if !in_text(p, t, next) {
                assert(alignment_count(p, t, next) == 0);
                assert(comparison_count(p, t, next) == 0);
                assert(scan_error(p, a, t, next) is None);
            }
            assert(alignment_count(p, t, i as int) == 1 + alignment_count(p, t, next));
            lemma_counts_bound(p, t, next);
        }
        alignments += 1;
        comparisons += al.comparisons;
        if al.mismatch.is_none() {
            occurrences.push(i);
        }
        proof {
            assert forall|q: int| i + 1 <= q < i + al.shift implies !#[trigger] occurs_at(p, t, q) by {
                lemma_alignment_shift_safe(p, t, i as int, q - i);
            }
            lemma_occurrences_skip(p, t, i + 1, i + al.shift);
        }
        i += al.shift;
    }
    proof {
        lemma_occurrences_skip(p, t, i as int, n as int);
    }
    Ok((occurrences, alignments, comparisons))
}

} // verus!
