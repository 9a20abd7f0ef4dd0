//! The Z-algorithm: for each position of a string, the length of the longest
//! substring starting there that is also a prefix of the string.
use vstd::prelude::*;

use crate::error::BmError;

verus! {

/// Length of the longest run on which `s` read from `a` agrees with `s` read from `b`.
pub open spec fn match_len(s: Seq<char>, a: int, b: int) -> nat
    decreases s.len() - b,
{
    if 0 <= a < s.len() && 0 <= b < s.len() && s[a] == s[b] {
        1 + match_len(s, a + 1, b + 1)
    } else {
        0
    }
}

/// `Z[k]`: the whole length at 0, elsewhere the longest prefix of `s` that starts again at `k`.
pub open spec fn z_value(s: Seq<char>, k: int) -> int {
    if k == 0 {
        s.len() as int
    } else {
        match_len(s, 0, k) as int
    }
}

/// Within the run, the two readings agree.
pub proof fn lemma_match_len_agrees(s: Seq<char>, a: int, b: int, t: int)
    requires
        0 <= t < match_len(s, a, b),
    ensures
        0 <= a + t < s.len(),
        0 <= b + t < s.len(),
        s[a + t] == s[b + t],
    decreases t,
{
    if t > 0 {
        lemma_match_len_agrees(s, a + 1, b + 1, t - 1);
    }
}

/// A run that is known to agree for `p` symbols continues from there.
pub proof fn lemma_match_len_split(s: Seq<char>, a: int, b: int, p: int)
    requires
        0 <= p,
        0 <= a,
        0 <= b,
        a + p <= s.len(),
        b + p <= s.len(),
        s.subrange(a, a + p) == s.subrange(b, b + p),
    ensures
        match_len(s, a, b) == p + match_len(s, a + p, b + p),
    decreases p,
{
    if p > 0 {
        assert(s[a] == s.subrange(a, a + p)[0]);
        assert(s[b] == s.subrange(b, b + p)[0]);
        assert(s.subrange(a + 1, a + p) =~= s.subrange(a, a + p).subrange(1, p));
        assert(s.subrange(b + 1, b + p) =~= s.subrange(b, b + p).subrange(1, p));
        lemma_match_len_split(s, a + 1, b + 1, p - 1);
    }
}

/// A run never reaches past the end of the string.
pub proof fn lemma_match_len_bound(s: Seq<char>, a: int, b: int)
    requires
        0 <= a <= s.len(),
        0 <= b <= s.len(),
    ensures
        match_len(s, a, b) <= s.len() - b,
        match_len(s, a, b) <= s.len() - a,
    decreases s.len() - b,
{
    if 0 <= a < s.len() && 0 <= b < s.len() && s[a] == s[b] {
        lemma_match_len_bound(s, a + 1, b + 1);
    }
}

/// The run stops where the two readings first differ.
pub proof fn lemma_match_len_stops(s: Seq<char>, a: int, b: int)
    requires
        0 <= a,
        0 <= b,
        a + match_len(s, a, b) < s.len(),
        b + match_len(s, a, b) < s.len(),
    ensures
        s[a + match_len(s, a, b)] != s[b + match_len(s, a, b)],
    decreases s.len() - b,
{
    if 0 <= a < s.len() && 0 <= b < s.len() && s[a] == s[b] {
        lemma_match_len_stops(s, a + 1, b + 1);
    }
}

/// Two stretches of `p` symbols from `a` and `b` agree when the run from them is that long.
pub proof fn lemma_match_len_subrange(s: Seq<char>, a: int, b: int, p: int)
    requires
        0 <= a <= s.len(),
        0 <= b <= s.len(),
        0 <= p <= match_len(s, a, b),
    ensures
        a + p <= s.len(),
        b + p <= s.len(),
        s.subrange(a, a + p) == s.subrange(b, b + p),
{
    if p > 0 {
        lemma_match_len_agrees(s, a, b, p - 1);
    }
    assert forall|t: int| 0 <= t < p implies #[trigger] s.subrange(a, a + p)[t] == s.subrange(b, b + p)[t] by {
        lemma_match_len_agrees(s, a, b, t);
    }
    assert(s.subrange(a, a + p) =~= s.subrange(b, b + p));
}

/// The length of the run from `a` and `b`, found by direct comparison.
fn extend_match(s: &[char], a: usize, b: usize) -> (r: usize)
    requires
        a <= b <= s@.len(),
    ensures
        r as int == match_len(s@, a as int, b as int),
{
    let mut n: usize = 0;
    while n < s.len() - b && s[a + n] == s[b + n]
        invariant
            a <= b <= s@.len(),
            b + n <= s@.len(),
            match_len(s@, a as int, b as int) == n + match_len(s@, (a + n) as int, (b + n) as int),
        decreases s@.len() - b - n,
    {
        n += 1;
    }
    n
}

/// The Z-array of `s`: entry `k` is `z_value(s, k)`.
///
/// Fails with `InvalidPatternLength` when `s` has fewer than two symbols.
pub fn z_array(s: &[char]) -> (r: Result<Vec<usize>, BmError>)
    ensures
        match r {
            Ok(z) => {
                &&& s@.len() > 1
                &&& z@.len() == s@.len()
                &&& forall|k: int| 0 <= k < s@.len() ==> z@[k] as int == z_value(s@, k)
            },
            Err(e) => s@.len() <= 1 && e == BmError::InvalidPatternLength,
        },
{
    let len = s.len();
    if len <= 1 {
        return Err(BmError::InvalidPatternLength);
    }
    let mut z: Vec<usize> = vec![0; len];
    z.set(0, len);

    // Direct comparison of s[1..] with the prefix.
    let z1 = extend_match(s, 0, 1);
    z.set(1, z1);

    // The window [left, right] is the rightmost stretch known to repeat the prefix.
    let mut right: usize = 0;
    let mut left: usize = 0;
    if z1 > 0 {
        right = z1;
        left = 1;
    }
    proof {
        lemma_match_len_bound(s@, 0, 1);
    }

    for k in 2..len
        invariant
            len == s@.len(),
            len > 1,
            z@.len() == len,
            left < len,
            forall|j: int| 0 <= j < k ==> z@[j] as int == z_value(s@, j),
            k <= right ==> {
                &&& 1 <= left < k
                &&& right + 1 == left + z@[left as int]
            },
    {
        proof {
            lemma_match_len_bound(s@, 0, left as int);
            lemma_match_len_bound(s@, 0, k as int);
        }
        if k > right {
            let zk = extend_match(s, 0, k);
            z.set(k, zk);
            right = k + zk - 1;
            left = k;
        } else if right - k + 1 > z[k - left] {
            // The prefix that starts again at k lies inside the window.
            let d = k - left;
            let zd = z[d];
            proof {
                let sq = s@;
                lemma_match_len_bound(sq, 0, d as int);
                lemma_match_len_subrange(sq, 0, d as int, zd as int);
                lemma_match_len_subrange(sq, 0, left as int, (right + 1 - left) as int);
                assert(sq.subrange(0, zd as int) =~= sq.subrange(k as int, (k + zd) as int)) by {
                    assert forall|t: int| 0 <= t < zd implies #[trigger] sq[t] == sq[k + t] by {
                        assert(sq.subrange(0, zd as int)[t] == sq.subrange(d as int, (d + zd) as int)[t]);
                        assert(sq.subrange(0, (right + 1 - left) as int)[d + t]
                            == sq.subrange(left as int, right + 1)[d + t]);
                    }
                }
                lemma_match_len_split(sq, 0, k as int, zd as int);
                lemma_match_len_stops(sq, 0, d as int);
                assert(sq.subrange(0, (right + 1 - left) as int)[d + zd]
                    == sq.subrange(left as int, right + 1)[d + zd]);
            }
            z.set(k, zd);
        } else {
            // The prefix reaches the window's end: compare past it.
            let d = k - left;
            let beta = right - k + 1;
            proof {
                let sq = s@;
                lemma_match_len_subrange(sq, 0, d as int, beta as int);
                lemma_match_len_subrange(sq, 0, left as int, (right + 1 - left) as int);
                assert(sq.subrange(0, beta as int) =~= sq.subrange(k as int, (k + beta) as int)) by {
                    assert forall|t: int| 0 <= t < beta implies #[trigger] sq[t] == sq[k + t] by {
                        assert(sq.subrange(0, beta as int)[t] == sq.subrange(d as int, (d + beta) as int)[t]);
                        assert(sq.subrange(0, (right + 1 - left) as int)[d + t]
                            == sq.subrange(left as int, right + 1)[d + t]);
                    }
                }
                lemma_match_len_split(sq, 0, k as int, beta as int);
            }
            let matches = extend_match(s, right + 1 - k, right + 1);
            left = k;
            right = right + matches;
            z.set(k, right - k + 1);
        }
    }
    Ok(z)
}

} // verus!
