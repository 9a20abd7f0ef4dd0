//! Tables of the strong good-suffix rule: the N-array and, from it, L', L and l'.
use vstd::prelude::*;

use crate::error::BmError;
use crate::z_array::{z_array, z_value};

verus! {

/// `N[i]`: the Z-value of the reversed pattern, read back to front.
pub open spec fn n_value(p: Seq<char>, i: int) -> int {
    z_value(p.reverse(), p.len() - 1 - i)
}

/// The N-array of `p` as a sequence.
pub open spec fn n_seq(p: Seq<char>) -> Seq<usize> {
    Seq::new(p.len(), |i: int| n_value(p, i) as usize)
}

/// One more than the largest `j < k` with `n[j] == v`, or 0 when there is none.
pub open spec fn last_index_with(n: Seq<usize>, v: int, k: int) -> int
    decreases k,
{
    if k <= 0 {
        0
    } else if n[k - 1] == v {
        k
    } else {
        last_index_with(n, v, k - 1)
    }
}

/// `L'[i]`: one more than the largest `j` with `N[j] == m - i`, or 0.
pub open spec fn big_l_prime_value(n: Seq<usize>, i: int) -> int {
    last_index_with(n, n.len() - i, n.len() as int)
}

/// The running maximum of `s[1..=i]`; 0 at `i == 0`.
pub open spec fn running_max(s: Seq<usize>, i: int) -> int
    decreases i,
{
    if i <= 0 {
        0
    } else {
        let prev = running_max(s, i - 1);
        if prev >= s[i] {
            prev
        } else {
            s[i] as int
        }
    }
}

/// `m - t` where the prefix of that length is also a suffix (`N[m - t - 1] == m - t`), else 0.
pub open spec fn prefix_suffix_mark(n: Seq<usize>, t: int) -> int {
    if n[n.len() - t - 1] == n.len() - t {
        n.len() - t
    } else {
        0
    }
}

/// `l'[t]`: the first nonzero mark at or after `t`, or 0.
pub open spec fn small_l_prime_value(n: Seq<usize>, t: int) -> int
    decreases n.len() - t,
{
    if t >= n.len() - 1 {
        prefix_suffix_mark(n, t)
    } else if prefix_suffix_mark(n, t) != 0 {
        prefix_suffix_mark(n, t)
    } else {
        small_l_prime_value(n, t + 1)
    }
}

/// The Z-value of a string is never longer than the string.
pub proof fn lemma_z_value_bound(s: Seq<char>, k: int)
    requires
        0 <= k < s.len(),
    ensures
        0 <= z_value(s, k) <= s.len(),
        k > 0 ==> z_value(s, k) <= s.len() - k,
{
    if k > 0 {
        crate::z_array::lemma_match_len_bound(s, 0, k);
    }
}

/// Every entry of the N-array lies in `[0, m]`.
pub proof fn lemma_n_value_bound(p: Seq<char>, i: int)
    requires
        0 <= i < p.len() <= usize::MAX,
    ensures
        0 <= n_value(p, i) <= p.len(),
        n_value(p, i) == n_seq(p)[i],
{
    lemma_z_value_bound(p.reverse(), p.len() - 1 - i);
}

/// The N-array: `N[i]` is the length of the longest suffix of `s[..=i]` that is also a
/// suffix of `s`.
///
/// Fails with `InvalidPatternLength` when `s` has fewer than two symbols.
pub fn n_array(s: &[char]) -> (r: Result<Vec<usize>, BmError>)
    ensures
        match r {
            Ok(n) => s@.len() > 1 && n@ == n_seq(s@),
            Err(e) => s@.len() <= 1 && e == BmError::InvalidPatternLength,
        },
{
    let len = s.len();
    let mut reversed: Vec<char> = Vec::new();
    let mut i: usize = len;
    while i > 0
        invariant
            i <= len == s@.len(),
            reversed@ == s@.subrange(i as int, len as int).reverse(),
        decreases i,
    {
        i -= 1;
        reversed.push(s[i]);
        assert(reversed@ =~= s@.subrange(i as int, len as int).reverse());
    }
    assert(s@.subrange(0, len as int) =~= s@);
    let z = z_array(reversed.as_slice())?;

    let mut n_arr: Vec<usize> = Vec::new();
    let mut j: usize = len;
    while j > 0
        invariant
            j <= len == s@.len(),
            len > 1,
            reversed@ == s@.reverse(),
            z@.len() == len,
            forall|k: int| 0 <= k < len ==> z@[k] as int == z_value(s@.reverse(), k),
            n_arr@.len() == len - j,
            forall|k: int| 0 <= k < len - j ==> n_arr@[k] == n_seq(s@)[k],
        decreases j,
    {
        j -= 1;
        proof {
            lemma_n_value_bound(s@, len - 1 - j);
        }
        n_arr.push(z[j]);
    }
    assert(n_arr@ =~= n_seq(s@));
    Ok(n_arr)
}

/// The L' array: entry `i` is `big_l_prime_value(n, i)`.
pub fn big_l_prime_array(pattern: &[char], n_arr: &[usize]) -> (r: Vec<usize>)
    requires
        n_arr@.len() == pattern@.len(),
        forall|j: int| 0 <= j < n_arr@.len() ==> n_arr@[j] <= n_arr@.len(),
    ensures
        r@.len() == pattern@.len(),
        forall|i: int| 0 <= i < r@.len() ==> r@[i] as int == big_l_prime_value(n_arr@, i),
{
    let len = pattern.len();
    let mut l_prime: Vec<usize> = vec![0; len];
    for j in 0..len
        invariant
            len == n_arr@.len(),
            l_prime@.len() == len,
            forall|j: int| 0 <= j < n_arr@.len() ==> n_arr@[j] <= n_arr@.len(),
            forall|i: int|
                0 <= i < len ==> l_prime@[i] as int == last_index_with(n_arr@, len - i, j as int),
    {
        let i = len - n_arr[j];
        if i < len {
            l_prime.set(i, j + 1);
        }
    }
    l_prime
}

/// The L array: the running maximum of L' from index 1 on; entry 0 is 0.
pub fn big_l_array(pattern: &[char], l_prime_arr: &[usize]) -> (r: Vec<usize>)
    requires
        l_prime_arr@.len() == pattern@.len(),
        pattern@.len() > 1,
    ensures
        r@.len() == pattern@.len(),
        forall|i: int| 0 <= i < r@.len() ==> r@[i] as int == running_max(l_prime_arr@, i),
{
    let len = pattern.len();
    let mut l_arr: Vec<usize> = vec![0; len];
    l_arr.set(1, l_prime_arr[1]);
    assert(running_max(l_prime_arr@, 0) == 0);
    assert(running_max(l_prime_arr@, 1) == l_prime_arr@[1]);
    for i in 2..len
        invariant
            len == l_prime_arr@.len(),
            len > 1,
            l_arr@.len() == len,
            forall|k: int| 0 <= k < i ==> l_arr@[k] as int == running_max(l_prime_arr@, k),
    {
        let prev = l_arr[i - 1];
        let cur = l_prime_arr[i];
        if prev >= cur {
            l_arr.set(i, prev);
        } else {
            l_arr.set(i, cur);
        }
    }
    l_arr
}

/// The l' array: entry `t` is `small_l_prime_value(n, t)`.
pub fn small_l_prime_array(n_arr: &[usize]) -> (r: Vec<usize>)
    requires
        n_arr@.len() > 1,
    ensures
        r@.len() == n_arr@.len(),
        forall|t: int| 0 <= t < r@.len() ==> r@[t] as int == small_l_prime_value(n_arr@, t),
{
    let len = n_arr.len();
    let mut small_l_prime: Vec<usize> = vec![0; len];
    for i in 0..len
        invariant
            len == n_arr@.len(),
            len > 1,
            small_l_prime@.len() == len,
            forall|t: int|
                0 <= t < len ==> small_l_prime@[t] as int == if len - t - 1 < i {
                    prefix_suffix_mark(n_arr@, t)
                } else {
                    0
                },
    {
        // A prefix that is also a suffix
        if n_arr[i] == i + 1 {
            small_l_prime.set(len - i - 1, i + 1);
        }
    }

    // Smear the marks out to the left.
    let mut i: usize = len - 1;
    while i > 0
        invariant
            len == n_arr@.len(),
            len > 1,
            i < len,
            small_l_prime@.len() == len,
            forall|t: int|
                i <= t < len ==> small_l_prime@[t] as int == small_l_prime_value(n_arr@, t),
            forall|t: int| 0 <= t < i ==> small_l_prime@[t] as int == prefix_suffix_mark(n_arr@, t),
        decreases i,
    {
        i -= 1;
        if small_l_prime[i] == 0 {
            let next = small_l_prime[i + 1];
            small_l_prime.set(i, next);
        }
    }
    small_l_prime
}

/// The tables of the good-suffix rule: (L', L, l').
///
/// Fails with `InvalidPatternLength` when the pattern has fewer than two symbols.
pub fn good_suffix_table(pattern: &[char]) -> (r: Result<(Vec<usize>, Vec<usize>, Vec<usize>), BmError>)
    ensures
        match r {
            Ok((l_prime, big_l, small_l_prime)) => {
                &&& pattern@.len() > 1
                &&& l_prime@.len() == pattern@.len()
                &&& big_l@.len() == pattern@.len()
                &&& small_l_prime@.len() == pattern@.len()
                &&& forall|i: int| 0 <= i < pattern@.len()
                    ==> l_prime@[i] as int == big_l_prime_value(n_seq(pattern@), i)
                &&& forall|i: int| 0 <= i < pattern@.len()
                    ==> big_l@[i] as int == running_max(l_prime@, i)
                &&& forall|i: int| 0 <= i < pattern@.len()
                    ==> small_l_prime@[i] as int == small_l_prime_value(n_seq(pattern@), i)
            },
            Err(e) => pattern@.len() <= 1 && e == BmError::InvalidPatternLength,
        },
{
    let len = pattern.len();
    let n_arr = n_array(pattern)?;
    proof {
        assert forall|j: int| 0 <= j < n_arr@.len() implies n_arr@[j] <= n_arr@.len() by {
            lemma_n_value_bound(pattern@, j);
        }
    }
    let l_prime_arr = big_l_prime_array(pattern, n_arr.as_slice());
    let big_l_arr = big_l_array(pattern, l_prime_arr.as_slice());
    let small_l_prime_arr = small_l_prime_array(n_arr.as_slice());
    Ok((l_prime_arr, big_l_arr, small_l_prime_arr))
}

} // verus!
