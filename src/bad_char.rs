//! The alphabet map and the dense bad-character table.
use vstd::prelude::*;

use std::collections::HashMap;

use crate::error::BmError;

verus! {

broadcast use vstd::std_specs::hash::group_hash_axioms;

/// The largest `q < k` with `s[q] == c`, or -1 when there is none.
pub open spec fn last_position(s: Seq<char>, c: char, k: int) -> int
    decreases k,
{
    if k <= 0 {
        -1
    } else if s[k - 1] == c {
        k - 1
    } else {
        last_position(s, c, k - 1)
    }
}

/// The dense index of `c`: its (last) position in the alphabet, or -1.
pub open spec fn alphabet_index(a: Seq<char>, c: char) -> int {
    last_position(a, c, a.len() as int)
}

/// The map from each symbol's code point to its dense index in `a`.
pub open spec fn is_alphabet_map(m: Map<u32, usize>, a: Seq<char>) -> bool {
    &&& forall|c: char| #[trigger] m.contains_key(code_point(c)) <==> a.contains(c)
    &&& forall|c: char| #[trigger]
        m.contains_key(code_point(c)) ==> m[code_point(c)] as int == alphabet_index(a, c)
}

/// The key under which a symbol is kept in the alphabet map.
pub open spec fn code_point(c: char) -> u32 {
    c as u32
}

/// Distinct symbols have distinct code points.
pub proof fn lemma_code_point_injective(c: char, d: char)
    requires
        code_point(c) == code_point(d),
    ensures
        c == d,
{
}

/// Every symbol of `s[..k]` has a dense index in `m`.
pub open spec fn all_mapped(s: Seq<char>, m: Map<u32, usize>, k: int) -> bool {
    forall|q: int| 0 <= q < k ==> #[trigger] m.contains_key(code_point(s[q]))
}

/// What `last_position` finds, and that nothing after it matches.
pub proof fn lemma_last_position(s: Seq<char>, c: char, k: int)
    requires
        0 <= k <= s.len(),
    ensures
        -1 <= last_position(s, c, k) < k,
        last_position(s, c, k) >= 0 ==> s[last_position(s, c, k)] == c,
        forall|q: int| last_position(s, c, k) < q < k ==> s[q] != c,
    decreases k,
{
    if k > 0 {
        lemma_last_position(s, c, k - 1);
    }
}

/// In an alphabet without repeats, the symbol at `i` has dense index `i`.
pub proof fn lemma_alphabet_index_distinct(a: Seq<char>, i: int)
    requires
        a.no_duplicates(),
        0 <= i < a.len(),
    ensures
        alphabet_index(a, a[i]) == i,
{
    lemma_last_position(a, a[i], a.len() as int);
}

/// Builds the map from each symbol's code point to its index in `alphabet`.
pub fn alphabet_map(alphabet: &[char]) -> (r: HashMap<u32, usize>)
    ensures
        is_alphabet_map(r@, alphabet@),
        alphabet@.no_duplicates() ==> r@.len() == alphabet@.len(),
{
    let mut alpha_map: HashMap<u32, usize> = HashMap::new();
    let ghost a = alphabet@;
    for i in 0..alphabet.len()
        invariant
            a == alphabet@,
            is_alphabet_map(alpha_map@, a.subrange(0, i as int)),
            a.no_duplicates() ==> alpha_map@.len() == i,
    {
        let c = alphabet[i];
        proof {
            let pre = a.subrange(0, i as int);
            let post = a.subrange(0, i + 1);
            assert(post.drop_last() =~= pre);
            assert forall|d: char| #[trigger] post.contains(d) <==> pre.contains(d) || d == c by {
                if pre.contains(d) {
                    let q = choose|q: int| 0 <= q < pre.len() && pre[q] == d;
                    assert(post[q] == d);
                }
                if post.contains(d) && d != c {
                    let q = choose|q: int| 0 <= q < post.len() && post[q] == d;
                    assert(pre[q] == d);
                }
                if d == c {
                    assert(post[i as int] == d);
                }
            }
            assert forall|d: char| d != c implies alphabet_index(post, d) == alphabet_index(pre, d) by {
                assert(post[i as int] == c);
                assert forall|k: int| 0 <= k <= i implies last_position(post, d, k) == last_position(pre, d, k) by {
                    lemma_prefix_last_position(post, pre, d, k);
                }
            }
            if a.no_duplicates() {
                assert(!pre.contains(c)) by {
                    if pre.contains(c) {
                        let q = choose|q: int| 0 <= q < pre.len() && pre[q] == c;
                        assert(a[q] == a[i as int]);
                    }
                }
                assert(!alpha_map@.contains_key(code_point(c)));
            }
        }
        alpha_map.insert(c as u32, i);
        proof {
            let pre = a.subrange(0, i as int);
            let post = a.subrange(0, i + 1);
            assert(post[i as int] == c);
            assert forall|d: char| #[trigger] alpha_map@.contains_key(code_point(d)) <==> post.contains(d) by {
                if code_point(d) == code_point(c) {
                    lemma_code_point_injective(c, d);
                }
            }
            assert forall|d: char| #[trigger] alpha_map@.contains_key(code_point(d))
                implies alpha_map@[code_point(d)] as int == alphabet_index(post, d) by {
                if code_point(d) == code_point(c) {
                    lemma_code_point_injective(c, d);
                }
            }
        }
    }
    proof {
        assert(a.subrange(0, a.len() as int) =~= a);
    }
    alpha_map
}

/// The dense bad-character table: row `i`, column `alpha_map[c]` holds one more than the
/// last position of `c` before `i` (0 when `c` does not occur before `i`).
///
/// Fails with `SymbolNotInAlphabet` at the first symbol of `pattern` that has no index.
pub fn dense_bad_char_table(pattern: &[char], alpha_map: &HashMap<u32, usize>) -> (r: Result<
    Vec<Vec<usize>>,
    BmError,
>)
    requires
        forall|c: char| #[trigger]
            alpha_map@.contains_key(code_point(c)) ==> alpha_map@[code_point(c)] < alpha_map@.len(),
        forall|c: char, d: char|
            #[trigger] alpha_map@.contains_key(code_point(c)) && #[trigger] alpha_map@.contains_key(
                code_point(d),
            ) && alpha_map@[code_point(c)] == alpha_map@[code_point(d)] ==> c == d,
    ensures
        match r {
            Ok(table) => {
                &&& all_mapped(pattern@, alpha_map@, pattern@.len() as int)
                &&& table@.len() == pattern@.len()
                &&& forall|i: int| 0 <= i < table@.len() ==> (#[trigger] table@[i])@.len() == alpha_map@.len()
                &&& forall|i: int, c: char|
                    0 <= i < table@.len() && #[trigger] alpha_map@.contains_key(code_point(c))
                    ==> (#[trigger] table@[i])@[alpha_map@[code_point(c)] as int] as int
                        == last_position(pattern@, c, i) + 1
            },
            Err(e) => exists|i: int|
                0 <= i < pattern@.len() && all_mapped(pattern@, alpha_map@, i)
                    && !alpha_map@.contains_key(code_point(pattern@[i]))
                    && e == BmError::SymbolNotInAlphabet(pattern@[i]),
        },
{
    let mut table: Vec<Vec<usize>> = Vec::new();
    let mut next: Vec<usize> = vec![0; alpha_map.len()];
    let ghost m = alpha_map@;
    for i in 0..pattern.len()
        invariant
            m == alpha_map@,
            forall|c: char| #[trigger]
                m.contains_key(code_point(c)) ==> m[code_point(c)] < m.len(),
            forall|c: char, d: char|
                #[trigger] m.contains_key(code_point(c)) && #[trigger] m.contains_key(code_point(d))
                    && m[code_point(c)] == m[code_point(d)] ==> c == d,
            all_mapped(pattern@, m, i as int),
            next@.len() == m.len(),
            forall|c: char| #[trigger] m.contains_key(code_point(c))
                ==> next@[m[code_point(c)] as int] as int == last_position(pattern@, c, i as int) + 1,
            table@.len() == i,
            forall|k: int| 0 <= k < i ==> (#[trigger] table@[k])@.len() == m.len(),
            forall|k: int, c: char|
                0 <= k < i && #[trigger] m.contains_key(code_point(c))
                ==> (#[trigger] table@[k])@[m[code_point(c)] as int] as int
                    == last_position(pattern@, c, k) + 1,
    {
        let character = pattern[i];
        let index = match alpha_map.get(&(character as u32)) {
            Some(index) => *index,
            None => {
                return Err(BmError::SymbolNotInAlphabet(character));
            },
        };
        table.push(next.clone());
        proof {
            assert(m.contains_key(code_point(character)));
        }
        next.set(index, i + 1);
        proof {
            assert forall|c: char| #[trigger] m.contains_key(code_point(c))
                implies next@[m[code_point(c)] as int] as int == last_position(pattern@, c, i + 1) + 1 by {
                if c != character {
                    assert(m[code_point(c)] != index);
                }
            }
        }
    }
    Ok(table)
}

/// `last_position` looks only at the symbols before `k`.
pub proof fn lemma_prefix_last_position(s: Seq<char>, t: Seq<char>, c: char, k: int)
    requires
        0 <= k <= s.len(),
        k <= t.len(),
        forall|q: int| 0 <= q < k ==> s[q] == t[q],
    ensures
        last_position(s, c, k) == last_position(t, c, k),
    decreases k,
{
    if k > 0 {
        lemma_prefix_last_position(s, t, c, k - 1);
    }
}

} // verus!
