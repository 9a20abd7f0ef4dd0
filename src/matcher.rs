//! The matcher: a pattern's preprocessed tables and the shift queries on them.
use vstd::prelude::*;

use std::collections::HashMap;

use crate::bad_char::{
    alphabet_map, code_point, dense_bad_char_table, is_alphabet_map, last_position,
    lemma_alphabet_index_distinct, lemma_last_position,
};
use crate::error::BmError;
use crate::good_suffix::{
    big_l_prime_value, good_suffix_table, last_index_with, n_seq, prefix_suffix_mark,
    running_max, small_l_prime_value,
};
use crate::text::chars_of;

verus! {

broadcast use vstd::std_specs::hash::group_hash_axioms;

/// The L' table of pattern `p`.
pub open spec fn big_l_prime_seq(p: Seq<char>) -> Seq<usize> {
    Seq::new(p.len(), |i: int| big_l_prime_value(n_seq(p), i) as usize)
}

/// `L[i]` of pattern `p`: the largest L' entry in `1..=i`.
pub open spec fn big_l_value(p: Seq<char>, i: int) -> int {
    running_max(big_l_prime_seq(p), i)
}

/// `l'[i]` of pattern `p`: the longest prefix that is also a suffix of `p[i..]`.
pub open spec fn small_l_prime_of(p: Seq<char>, i: int) -> int {
    small_l_prime_value(n_seq(p), i)
}

/// The bad-character shift: align the mismatched symbol `c` at `offset` with its last
/// occurrence before `offset`, or move past it.
pub open spec fn bad_char_shift(p: Seq<char>, c: char, offset: int) -> int {
    offset - last_position(p, c, offset)
}

/// The strong good-suffix shift after a mismatch at `offset`.
pub open spec fn good_suffix_shift(p: Seq<char>, offset: int) -> int {
    if offset == p.len() - 1 {
        0
    } else if big_l_value(p, offset + 1) > 0 {
        p.len() - big_l_value(p, offset + 1)
    } else {
        p.len() - small_l_prime_of(p, offset + 1)
    }
}

/// The shift after a full match.
pub open spec fn match_skip_shift(p: Seq<char>) -> int {
    p.len() - small_l_prime_of(p, 1)
}

/// `last_index_with` never exceeds the length it looks at.
proof fn lemma_last_index_with_bound(n: Seq<usize>, v: int, k: int)
    requires
        0 <= k,
    ensures
        0 <= last_index_with(n, v, k) <= k,
    decreases k,
{
    if k > 0 {
        lemma_last_index_with_bound(n, v, k - 1);
    }
}

/// A running maximum stays within the bound of the entries it ranges over.
proof fn lemma_running_max_bound(s: Seq<usize>, i: int, bound: int)
    requires
        0 <= i < s.len(),
        forall|k: int| 0 <= k < s.len() ==> s[k] <= bound,
        0 <= bound,
    ensures
        0 <= running_max(s, i) <= bound,
    decreases i,
{
    if i > 0 {
        lemma_running_max_bound(s, i - 1, bound);
    }
}

/// `l'[t]` never claims more than the `m - t` symbols from `t` on.
proof fn lemma_small_l_prime_bound(n: Seq<usize>, t: int)
    requires
        0 <= t < n.len(),
    ensures
        0 <= small_l_prime_value(n, t) <= n.len() - t,
    decreases n.len() - t,
{
    if t < n.len() - 1 && prefix_suffix_mark(n, t) == 0 {
        lemma_small_l_prime_bound(n, t + 1);
    }
}

/// The shift tables never claim a longer match than the pattern leaves room for:
/// `L[i] <= m` and `l'[i] <= m - i`.
pub proof fn lemma_shift_tables_bounded(p: Seq<char>, i: int)
    requires
        0 <= i < p.len() <= usize::MAX,
    ensures
        0 <= big_l_value(p, i) <= p.len(),
        0 <= small_l_prime_of(p, i) <= p.len() - i,
{
    let lp = big_l_prime_seq(p);
    assert forall|k: int| 0 <= k < lp.len() implies lp[k] <= p.len() by {
        lemma_last_index_with_bound(n_seq(p), n_seq(p).len() - k, n_seq(p).len() as int);
    }
    lemma_running_max_bound(lp, i, p.len() as int);
    lemma_small_l_prime_bound(n_seq(p), i);
}

/// Two matchers built from the same pattern and alphabet have the same tables: the tables
/// are a function of the pattern and the alphabet alone.
pub proof fn lemma_tables_determined(b1: &BoyerMoore, b2: &BoyerMoore)
    requires
        b1.wf(),
        b2.wf(),
        b1.pattern() == b2.pattern(),
        b1.alphabet() == b2.alphabet(),
    ensures
        b1.bad_char_table() == b2.bad_char_table(),
        b1.big_l_table() == b2.big_l_table(),
        b1.small_l_prime_table() == b2.small_l_prime_table(),
{
    let m = b1.pattern().len() as int;
    let w = b1.alphabet().len() as int;
    assert forall|i: int| 0 <= i < m implies #[trigger] b1.bad_char_table()[i]
        == b2.bad_char_table()[i] by {
        assert forall|j: int| 0 <= j < w implies b1.bad_char_table()[i][j]
            == b2.bad_char_table()[i][j] by {
            assert(b1.bad_char_table()[i][j] as int == b2.bad_char_table()[i][j] as int);
        }
        assert(b1.bad_char_table()[i] =~= b2.bad_char_table()[i]);
    }
    assert(b1.bad_char_table() =~= b2.bad_char_table());
    assert forall|i: int| 0 <= i < m implies b1.big_l_table()[i] == b2.big_l_table()[i] by {
        assert(b1.big_l_table()[i] as int == b2.big_l_table()[i] as int);
    }
    assert(b1.big_l_table() =~= b2.big_l_table());
    assert forall|i: int| 0 <= i < m implies b1.small_l_prime_table()[i]
        == b2.small_l_prime_table()[i] by {
        assert(b1.small_l_prime_table()[i] as int == b2.small_l_prime_table()[i] as int);
    }
    assert(b1.small_l_prime_table() =~= b2.small_l_prime_table());
}

/// A pattern over an alphabet, with the tables of the bad-character and the strong
/// good-suffix rules built once.
pub struct BoyerMoore {
    alpha_map: HashMap<u32, usize>,
    bad_char: Vec<Vec<usize>>,
    big_l: Vec<usize>,
    small_l_prime: Vec<usize>,
    pattern: Ghost<Seq<char>>,
    alphabet: Ghost<Seq<char>>,
}

impl BoyerMoore {
    /// The pattern the tables were built from.
    pub closed spec fn pattern(&self) -> Seq<char> {
        self.pattern@
    }

    /// The alphabet, in the order that gives each symbol its dense index.
    pub closed spec fn alphabet(&self) -> Seq<char> {
        self.alphabet@
    }

    /// The map from each symbol's code point to its dense index.
    pub closed spec fn alphabet_map(&self) -> Map<u32, usize> {
        self.alpha_map@
    }

    /// The bad-character table, by pattern offset and then by dense index.
    pub closed spec fn bad_char_table(&self) -> Seq<Seq<usize>> {
        Seq::new(self.bad_char@.len(), |i: int| self.bad_char@[i]@)
    }

    /// The L table.
    pub closed spec fn big_l_table(&self) -> Seq<usize> {
        self.big_l@
    }

    /// The l' table.
    pub closed spec fn small_l_prime_table(&self) -> Seq<usize> {
        self.small_l_prime@
    }

    /// The tables are those of `pattern()` over `alphabet()`.
    pub open spec fn wf(&self) -> bool {
        let p = self.pattern();
        let a = self.alphabet();
        &&& 1 < p.len() <= usize::MAX
        &&& a.no_duplicates()
        &&& forall|k: int| 0 <= k < p.len() ==> a.contains(#[trigger] p[k])
        &&& is_alphabet_map(self.alphabet_map(), a)
        &&& self.bad_char_table().len() == p.len()
        &&& forall|i: int|
            0 <= i < p.len() ==> (#[trigger] self.bad_char_table()[i]).len() == a.len()
        &&& forall|i: int, j: int|
            0 <= i < p.len() && 0 <= j < a.len() ==> #[trigger] self.bad_char_table()[i][j] as int
                == last_position(p, a[j], i) + 1
        &&& self.big_l_table().len() == p.len()
        &&& forall|i: int|
            0 <= i < p.len() ==> #[trigger] self.big_l_table()[i] as int == big_l_value(p, i)
        &&& self.small_l_prime_table().len() == p.len()
        &&& forall|i: int|
            0 <= i < p.len() ==> #[trigger] self.small_l_prime_table()[i] as int
                == small_l_prime_of(p, i)
    }

    /// Builds the tables of `pattern` over `alphabet`.
    ///
    /// Fails with `SymbolNotInAlphabet` at the first symbol of the pattern that is not in
    /// the alphabet, and otherwise with `InvalidPatternLength` when the pattern has fewer
    /// than two symbols.
    pub fn new(pattern: &str, alphabet: &str) -> (r: Result<Self, BmError>)
        requires
            alphabet@.no_duplicates(),
        ensures
            match r {
                Ok(bm) => bm.wf() && bm.pattern() == pattern@ && bm.alphabet() == alphabet@,
                Err(e) => {
                    ||| exists|i: int|
                        0 <= i < pattern@.len() && (forall|k: int|
                            0 <= k < i ==> alphabet@.contains(#[trigger] pattern@[k]))
                            && !alphabet@.contains(pattern@[i]) && e
                            == BmError::SymbolNotInAlphabet(pattern@[i])
                    ||| (forall|k: int|
                        0 <= k < pattern@.len() ==> alphabet@.contains(#[trigger] pattern@[k]))
                        && pattern@.len() <= 1 && e == BmError::InvalidPatternLength
                },
            },
    {
        let alpha_chars = chars_of(alphabet);
        let alpha_map = alphabet_map(alpha_chars.as_slice());
        let pat = chars_of(pattern);
        let ghost a = alphabet@;
        let ghost p = pattern@;
        let ghost m = alpha_map@;
        proof {
            assert(p.len() == pat.len());
            assert forall|c: char| #[trigger] m.contains_key(code_point(c)) implies m[code_point(c)]
                < m.len() by {
                lemma_last_position(a, c, a.len() as int);
            }
            assert forall|c: char, d: char|
                #[trigger] m.contains_key(code_point(c)) && #[trigger] m.contains_key(code_point(d))
                    && m[code_point(c)] == m[code_point(d)] implies c == d by {
                lemma_last_position(a, c, a.len() as int);
                lemma_last_position(a, d, a.len() as int);
            }
        }
        let bad_char = match dense_bad_char_table(pat.as_slice(), &alpha_map) {
            Ok(table) => table,
            Err(e) => {
                proof {
                    let i = choose|i: int|
                        0 <= i < p.len() && crate::bad_char::all_mapped(p, m, i)
                            && !m.contains_key(code_point(p[i]))
                            && e == BmError::SymbolNotInAlphabet(p[i]);
                    assert forall|k: int| 0 <= k < i implies a.contains(#[trigger] p[k]) by {
                        assert(m.contains_key(code_point(p[k])));
                    }
                    assert(!a.contains(p[i]));
                }
                return Err(e);
            },
        };
        proof {
            assert forall|k: int| 0 <= k < p.len() implies a.contains(#[trigger] p[k]) by {
                assert(m.contains_key(code_point(p[k])));
            }
        }
        let (l_prime, big_l, small_l_prime) = match good_suffix_table(pat.as_slice()) {
            Ok(tables) => tables,
            Err(e) => {
                return Err(e);
            },
        };
        let bm = BoyerMoore {
            alpha_map,
            bad_char,
            big_l,
            small_l_prime,
            pattern: Ghost(p),
            alphabet: Ghost(a),
        };
        proof {
            assert(bm.bad_char_table().len() == p.len());
            assert forall|i: int, j: int| 0 <= i < p.len() && 0 <= j < a.len()
                implies #[trigger] bm.bad_char_table()[i][j] as int == last_position(p, a[j], i) + 1 by {
                lemma_alphabet_index_distinct(a, j);
                assert(a.contains(a[j]));
                assert(m.contains_key(code_point(a[j])));
            }
            assert forall|i: int| 0 <= i < p.len() implies (#[trigger] bm.bad_char_table()[i]).len() == a.len() by {}
            let lp = big_l_prime_seq(p);
            assert forall|k: int| 0 <= k < p.len() implies lp[k] == l_prime@[k] by {
                lemma_last_index_with_bound(n_seq(p), n_seq(p).len() - k, n_seq(p).len() as int);
            }
            assert(lp =~= l_prime@);
        }
        Ok(bm)
    }

    /// The shift that the bad-character rule gives for a mismatch of `character` at
    /// `offset`.
    ///
    /// Fails with `SymbolNotInAlphabet` when `character` is not in the alphabet, and
    /// otherwise with `InvalidOffset` when `offset` is not below the pattern length.
    pub fn bad_char_rule(&self, offset: usize, character: char) -> (r: Result<usize, BmError>)
        requires
            self.wf(),
        ensures
            !self.alphabet().contains(character) ==> r == Err::<usize, BmError>(
                BmError::SymbolNotInAlphabet(character),
            ),
            self.alphabet().contains(character) && offset >= self.pattern().len() ==> r == Err::<
                usize,
                BmError,
            >(BmError::InvalidOffset(offset)),
            self.alphabet().contains(character) && offset < self.pattern().len() ==> (r matches Ok(
                shift,
            ) && shift as int == bad_char_shift(self.pattern(), character, offset as int)),
    {
        let ghost a = self.alphabet();
        let ghost p = self.pattern();
        let index = match self.alpha_map.get(&(character as u32)) {
            Some(index) => *index,
            None => {
                proof {
                    assert(!self.alphabet_map().contains_key(code_point(character)));
                }
                return Err(BmError::SymbolNotInAlphabet(character));
            },
        };
        proof {
            assert(self.alphabet_map().contains_key(code_point(character)));
            lemma_last_position(a, character, a.len() as int);
        }
        if offset >= self.bad_char.len() {
            return Err(BmError::InvalidOffset(offset));
        }
        let row = &self.bad_char[offset];
        proof {
            assert(self.bad_char_table()[offset as int] == row@);
            assert(self.bad_char_table()[offset as int][index as int] as int == last_position(
                p,
                a[index as int],
                offset as int,
            ) + 1);
            lemma_last_position(p, character, offset as int);
        }
        let last = row[index];
        Ok(offset + 1 - last)
    }

    /// The shift that the strong good-suffix rule gives for a mismatch at `offset`: 0 at
    /// the last offset, where no suffix has matched.
    ///
    /// Fails with `InvalidOffset` when `offset` is not below the pattern length.
    pub fn good_suffix_rule(&self, offset: usize) -> (r: Result<usize, BmError>)
        requires
            self.wf(),
        ensures
            offset >= self.pattern().len() ==> r == Err::<usize, BmError>(
                BmError::InvalidOffset(offset),
            ),
            offset < self.pattern().len() ==> (r matches Ok(shift) && shift as int
                == good_suffix_shift(self.pattern(), offset as int)),
    {
        let len = self.big_l.len();
        if offset >= len {
            return Err(BmError::InvalidOffset(offset));
        }
        if offset == len - 1 {
            return Ok(0);
        }
        // The leftmost position of the matched suffix.
        let offset = offset + 1;
        proof {
            lemma_shift_tables_bounded(self.pattern(), offset as int);
        }
        if self.big_l[offset] > 0 {
            return Ok(len - self.big_l[offset]);
        }
        Ok(len - self.small_l_prime[offset])
    }

    /// The shift after a full match of the pattern.
    pub fn match_skip(&self) -> (r: usize)
        requires
            self.wf(),
        ensures
            r as int == match_skip_shift(self.pattern()),
    {
        proof {
            lemma_shift_tables_bounded(self.pattern(), 1);
        }
        self.small_l_prime.len() - self.small_l_prime[1]
    }
}

} // verus!
