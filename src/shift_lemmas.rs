//! Why the shifts are safe: no occurrence of the pattern lies strictly between an
//! alignment and the alignment that a shift moves to.
use vstd::prelude::*;

use crate::bad_char::{last_position, lemma_last_position};
use crate::good_suffix::{
    last_index_with, lemma_n_value_bound, n_seq, n_value, prefix_suffix_mark, running_max,
    small_l_prime_value,
};
use crate::matcher::{
    bad_char_shift, big_l_prime_seq, big_l_value, good_suffix_shift, lemma_shift_tables_bounded,
    match_skip_shift, small_l_prime_of,
};
use crate::z_array::{lemma_match_len_bound, lemma_match_len_split};

verus! {

/// Whether `p` occurs in `t` at position `q`.
pub open spec fn occurs_at(p: Seq<char>, t: Seq<char>, q: int) -> bool {
    0 <= q && q + p.len() <= t.len() && t.subrange(q, q + p.len()) == p
}

/// `N[x] <= x + 1`: a suffix of `p[..=x]` is at most that long.
pub proof fn lemma_n_value_le(p: Seq<char>, x: int)
    requires
        0 <= x < p.len(),
    ensures
        n_value(p, x) <= x + 1,
{
    if x < p.len() - 1 {
        lemma_match_len_bound(p.reverse(), 0, p.len() - 1 - x);
    }
}

/// The `N[x]` symbols ending at `x` equal the last `N[x]` symbols of `p`.
pub proof fn lemma_n_value_agrees(p: Seq<char>, x: int, u: int)
    requires
        0 <= x < p.len() - 1,
        0 <= u < n_value(p, x),
    ensures
        u <= x,
        p[x - u] == p[p.len() - 1 - u],
{
    let m = p.len() as int;
    crate::z_array::lemma_match_len_agrees(p.reverse(), 0, m - 1 - x, u);
}

/// `N[x] >= len` when the `len` symbols ending at `x` equal the last `len` symbols of `p`.
pub proof fn lemma_n_value_at_least(p: Seq<char>, x: int, len: int)
    requires
        0 <= x < p.len(),
        0 <= len <= x + 1,
        forall|u: int| 0 <= u < len ==> p[x - u] == #[trigger] p[p.len() - 1 - u],
    ensures
        n_value(p, x) >= len,
{
    let m = p.len() as int;
    if x < m - 1 {
        let r = p.reverse();
        let d = m - 1 - x;
        assert(r.subrange(0, len) =~= r.subrange(d, d + len)) by {
            assert forall|u: int| 0 <= u < len implies r.subrange(0, len)[u] == r.subrange(d, d + len)[u] by {
                assert(p[x - u] == p[m - 1 - u]);
            }
        }
        lemma_match_len_split(r, 0, d, len);
    }
}

/// `last_index_with` finds at least every match below `k`.
pub proof fn lemma_last_index_with_ge(n: Seq<usize>, v: int, k: int, x: int)
    requires
        0 <= x < k <= n.len(),
        n[x] == v,
    ensures
        last_index_with(n, v, k) >= x + 1,
    decreases k,
{
    if x < k - 1 && n[k - 1] != v {
        lemma_last_index_with_ge(n, v, k - 1, x);
    }
}

/// What `last_index_with` finds is a match.
pub proof fn lemma_last_index_with_found(n: Seq<usize>, v: int, k: int)
    requires
        0 <= k <= n.len(),
    ensures
        0 <= last_index_with(n, v, k) <= k,
        last_index_with(n, v, k) > 0 ==> n[last_index_with(n, v, k) - 1] == v,
    decreases k,
{
    if k > 0 {
        lemma_last_index_with_found(n, v, k - 1);
    }
}

/// A running maximum is at least each entry it ranges over.
pub proof fn lemma_running_max_ge(s: Seq<usize>, i: int, kk: int)
    requires
        1 <= kk <= i < s.len(),
    ensures
        running_max(s, i) >= s[kk],
    decreases i,
{
    if kk < i {
        lemma_running_max_ge(s, i - 1, kk);
    }
}

/// A running maximum over entries that are each 0 or at least `bound` is 0 or at least
/// `bound`.
pub proof fn lemma_running_max_gap(s: Seq<usize>, i: int, bound: int)
    requires
        0 <= i < s.len(),
        forall|kk: int| 1 <= kk <= i ==> s[kk] == 0 || s[kk] >= bound,
    ensures
        running_max(s, i) == 0 || running_max(s, i) >= bound,
    decreases i,
{
    if i > 0 {
        lemma_running_max_gap(s, i - 1, bound);
    }
}

/// `l'[t]` is at least every mark at or after `t`.
pub proof fn lemma_small_l_prime_ge_mark(n: Seq<usize>, t: int, u: int)
    requires
        0 <= t <= u < n.len(),
    ensures
        small_l_prime_value(n, t) >= prefix_suffix_mark(n, u),
    decreases u - t,
{
    if t < u {
        if prefix_suffix_mark(n, t) == 0 {
            lemma_small_l_prime_ge_mark(n, t + 1, u);
        }
    } else if t < n.len() - 1 && prefix_suffix_mark(n, t) == 0 {
        lemma_small_l_prime_nonneg(n, t + 1);
    }
}

/// `l'` has no negative entries.
pub proof fn lemma_small_l_prime_nonneg(n: Seq<usize>, t: int)
    requires
        0 <= t < n.len(),
    ensures
        small_l_prime_value(n, t) >= 0,
    decreases n.len() - t,
{
    if t < n.len() - 1 && prefix_suffix_mark(n, t) == 0 {
        lemma_small_l_prime_nonneg(n, t + 1);
    }
}

/// When the first `m - s` symbols of `p` are also its last ones, `l'[t] >= m - s` for
/// every `t <= s`.
pub proof fn lemma_border_in_small_l_prime(p: Seq<char>, s: int, t: int)
    requires
        1 < p.len() <= usize::MAX,
        0 <= t <= s,
        1 <= s < p.len(),
        forall|v: int| s <= v < p.len() ==> p[v - s] == #[trigger] p[v],
    ensures
        small_l_prime_of(p, t) >= p.len() - s,
{
    let m = p.len() as int;
    let x = m - 1 - s;
    assert forall|u: int| 0 <= u < x + 1 implies p[x - u] == #[trigger] p[m - 1 - u] by {
        assert(p[(m - 1 - u) - s] == p[m - 1 - u]);
    }
    lemma_n_value_at_least(p, x, x + 1);
    lemma_n_value_le(p, x);
    lemma_n_value_bound(p, x);
    assert(prefix_suffix_mark(n_seq(p), s) == m - s);
    lemma_small_l_prime_ge_mark(n_seq(p), t, s);
}

/// Every nonzero `L[off]` is at least `m - off`.
pub proof fn lemma_big_l_gap(p: Seq<char>, off: int)
    requires
        1 < p.len() <= usize::MAX,
        1 <= off < p.len(),
    ensures
        big_l_value(p, off) == 0 || big_l_value(p, off) >= p.len() - off,
{
    let m = p.len() as int;
    let n = n_seq(p);
    let lp = big_l_prime_seq(p);
    assert(n.len() == m);
    assert forall|kk: int| 1 <= kk <= off implies lp[kk] == 0 || lp[kk] >= m - off by {
        lemma_last_index_with_found(n, m - kk, m);
        let r = last_index_with(n, m - kk, m);
        assert(lp[kk] == r);
        if r > 0 {
            lemma_n_value_le(p, r - 1);
            lemma_n_value_bound(p, r - 1);
        }
    }
    lemma_running_max_gap(lp, off, m - off);
}

/// Without a border, every mark from `t` on is 0, and so is `l'[t]`.
proof fn lemma_small_l_prime_zero(p: Seq<char>, t: int)
    requires
        1 < p.len() <= usize::MAX,
        1 <= t < p.len(),
        forall|s: int|
            1 <= s < p.len() ==> #[trigger] p.subrange(0, p.len() - s) != p.subrange(s, p.len() as int),
    ensures
        small_l_prime_of(p, t) == 0,
    decreases p.len() - t,
{
    let m = p.len() as int;
    let n = n_seq(p);
    let x = m - t - 1;
    lemma_n_value_bound(p, x);
    if prefix_suffix_mark(n, t) != 0 {
        assert(p.subrange(0, m - t) =~= p.subrange(t, m)) by {
            assert forall|w: int| 0 <= w < m - t implies p.subrange(0, m - t)[w] == p.subrange(t, m)[w] by {
                lemma_n_value_agrees(p, x, x - w);
            }
        }
    }
    if t < m - 1 {
        lemma_small_l_prime_zero(p, t + 1);
    }
}

/// A pattern none of whose proper prefixes is also a suffix moves by its whole length
/// after a full match.
pub proof fn lemma_match_skip_without_border(p: Seq<char>)
    requires
        1 < p.len() <= usize::MAX,
        forall|s: int|
            1 <= s < p.len() ==> #[trigger] p.subrange(0, p.len() - s) != p.subrange(s, p.len() as int),
    ensures
        match_skip_shift(p) == p.len(),
{
    lemma_small_l_prime_zero(p, 1);
}

/// An occurrence reads the pattern off the text.
pub proof fn lemma_occurs_at_reads(p: Seq<char>, t: Seq<char>, q: int, u: int)
    requires
        occurs_at(p, t, q),
        0 <= u < p.len(),
    ensures
        t[q + u] == p[u],
{
    assert(t.subrange(q, q + p.len())[u] == t[q + u]);
}

/// After a mismatch of `t[i + k]` at `k`, no occurrence starts before the bad-character
/// shift.
pub proof fn lemma_bad_char_shift_safe(p: Seq<char>, t: Seq<char>, i: int, k: int, s: int)
    requires
        0 <= i,
        0 <= k < p.len(),
        i + k < t.len(),
        1 <= s < bad_char_shift(p, t[i + k], k),
    ensures
        !occurs_at(p, t, i + s),
{
    let c = t[i + k];
    lemma_last_position(p, c, k);
    assert(last_position(p, c, k) < k - s < k);
    assert(p[k - s] != c);
    if occurs_at(p, t, i + s) {
        lemma_occurs_at_reads(p, t, i + s, k - s);
    }
}

/// After a mismatch at `k` below a matched suffix, no occurrence starts before the
/// good-suffix shift.
pub proof fn lemma_good_suffix_shift_safe(p: Seq<char>, t: Seq<char>, i: int, k: int, s: int)
    requires
        1 < p.len() <= usize::MAX,
        0 <= i,
        i + p.len() <= t.len(),
        0 <= k < p.len() - 1,
        forall|v: int| k < v < p.len() ==> #[trigger] p[v] == t[i + v],
        1 <= s < good_suffix_shift(p, k),
    ensures
        !occurs_at(p, t, i + s),
{
    let m = p.len() as int;
    let off = k + 1;
    lemma_shift_tables_bounded(p, off);
    if occurs_at(p, t, i + s) {
        assert forall|v: int| s <= v < m && off <= v implies p[v - s] == #[trigger] p[v] by {
            lemma_occurs_at_reads(p, t, i + s, v - s);
        }
        if s <= off {
            let x = m - 1 - s;
            assert forall|u: int| 0 <= u < m - off implies p[x - u] == #[trigger] p[m - 1 - u] by {
                assert(p[(m - 1 - u) - s] == p[m - 1 - u]);
            }
            lemma_n_value_at_least(p, x, m - off);
            lemma_n_value_le(p, x);
            lemma_n_value_bound(p, x);
            let n = n_seq(p);
            let v0 = n[x] as int;
            let kk = m - v0;
            lemma_last_index_with_ge(n, v0, m, x);
            lemma_last_index_with_found(n, v0, m);
            assert(big_l_prime_seq(p)[kk] as int == last_index_with(n, v0, m));
            lemma_running_max_ge(big_l_prime_seq(p), off, kk);
        } else {
            assert forall|v: int| s <= v < m implies p[v - s] == #[trigger] p[v] by {
                lemma_occurs_at_reads(p, t, i + s, v - s);
            }
            lemma_border_in_small_l_prime(p, s, off);
            lemma_big_l_gap(p, off);
        }
    }
}

/// After a full match, no occurrence starts before the match skip.
pub proof fn lemma_match_skip_safe(p: Seq<char>, t: Seq<char>, i: int, s: int)
    requires
        1 < p.len() <= usize::MAX,
        occurs_at(p, t, i),
        1 <= s < match_skip_shift(p),
    ensures
        !occurs_at(p, t, i + s),
{
    let m = p.len() as int;
    lemma_shift_tables_bounded(p, 1);
    if occurs_at(p, t, i + s) {
        assert forall|v: int| s <= v < m implies p[v - s] == #[trigger] p[v] by {
            lemma_occurs_at_reads(p, t, i + s, v - s);
            lemma_occurs_at_reads(p, t, i, v);
        }
        lemma_border_in_small_l_prime(p, s, 1);
    }
}

} // verus!
