//! Longest common subsequences: what the minimal searches rest on.

use vstd::prelude::*;
use crate::script::{is_alignment, lcs_len, runs_equal};

verus! {

/// The length of a longest common subsequence depends only on which
/// element of the one sequence equals which of the other.
pub proof fn lemma_lcs_pattern<S, T>(ia: Seq<S>, ib: Seq<S>, la: Seq<T>, lb: Seq<T>, i: int, j: int)
    requires
        ia.len() == la.len(),
        ib.len() == lb.len(),
        forall|x: int, y: int|
            0 <= x < ia.len() && 0 <= y < ib.len() ==> ((#[trigger] ia[x] == #[trigger] ib[y]) <==> la[x] == lb[y]),
    ensures
        lcs_len(ia, ib, i, j) == lcs_len(la, lb, i, j),
    decreases ia.len() - i, ib.len() - j,
{
    if 0 <= i < ia.len() && 0 <= j < ib.len() {
        assert((ia[i] == ib[j]) <==> la[i] == lb[j]);
        lemma_lcs_pattern(ia, ib, la, lb, i + 1, j + 1);
        lemma_lcs_pattern(ia, ib, la, lb, i + 1, j);
        lemma_lcs_pattern(ia, ib, la, lb, i, j + 1);
    }
}

/// What lies before the places `i` and `j` has no part in the longest
/// common subsequence from there on.
pub proof fn lemma_lcs_shift<T>(a: Seq<T>, b: Seq<T>, pa: int, pb: int, i: int, j: int)
    requires
        0 <= pa <= a.len(),
        0 <= pb <= b.len(),
        0 <= i,
        0 <= j,
    ensures
        lcs_len(a, b, pa + i, pb + j) == lcs_len(
            a.subrange(pa, a.len() as int),
            b.subrange(pb, b.len() as int),
            i,
            j,
        ),
    decreases a.len() - pa - i, b.len() - pb - j,
{
    let sa = a.subrange(pa, a.len() as int);
    let sb = b.subrange(pb, b.len() as int);
    if pa + i < a.len() && pb + j < b.len() {
        assert(sa[i] == a[pa + i]);
        assert(sb[j] == b[pb + j]);
        lemma_lcs_shift(a, b, pa, pb, i + 1, j + 1);
        lemma_lcs_shift(a, b, pa, pb, i + 1, j);
        lemma_lcs_shift(a, b, pa, pb, i, j + 1);
    }
}

/// A common beginning of `p` elements is part of a longest common
/// subsequence.
pub proof fn lemma_lcs_common_head<T>(a: Seq<T>, b: Seq<T>, p: int)
    requires
        0 <= p <= a.len(),
        p <= b.len(),
        runs_equal(a, b, 0, 0, p),
    ensures
        lcs_len(a, b, 0, 0) == p + lcs_len(a, b, p, p),
    decreases p,
{
    if p > 0 {
        assert(runs_equal(a, b, 0, 0, p - 1));
        lemma_lcs_common_head(a, b, p - 1);
        assert(a[0 + (p - 1)] == b[0 + (p - 1)]);
    }
}

/// A common last element is part of a longest common subsequence.
pub proof fn lemma_lcs_common_last<T>(a: Seq<T>, b: Seq<T>, i: int, j: int)
    requires
        a.len() > 0,
        b.len() > 0,
        a.last() == b.last(),
        0 <= i < a.len(),
        0 <= j < b.len(),
    ensures
        lcs_len(a, b, i, j) == lcs_len(a.drop_last(), b.drop_last(), i, j) + 1,
    decreases a.len() - i, b.len() - j,
{
    let n = a.len() as int;
    let m = b.len() as int;
    let a1 = a.drop_last();
    let b1 = b.drop_last();
    assert(a[n - 1] == b[m - 1]);
    if i == n - 1 && j == m - 1 {
        assert(lcs_len(a, b, n, m) == 0);
        assert(lcs_len(a1, b1, i, j) == 0);
    } else if i == n - 1 {
        lemma_lcs_common_last(a, b, i, j + 1);
        assert(lcs_len(a, b, n, j + 1) == 0);
        assert(lcs_len(a, b, n, j) == 0);
        assert(lcs_len(a1, b1, i, j + 1) == 0);
        assert(lcs_len(a1, b1, i, j) == 0);
    } else if j == m - 1 {
        lemma_lcs_common_last(a, b, i + 1, j);
        assert(lcs_len(a, b, i + 1, m) == 0);
        assert(lcs_len(a, b, i, m) == 0);
        assert(lcs_len(a1, b1, i + 1, j) == 0);
        assert(lcs_len(a1, b1, i, j) == 0);
    } else {
        assert(a1[i] == a[i]);
        assert(b1[j] == b[j]);
        lemma_lcs_common_last(a, b, i + 1, j + 1);
        lemma_lcs_common_last(a, b, i + 1, j);
        lemma_lcs_common_last(a, b, i, j + 1);
    }
}

/// A common ending of `q` elements is part of a longest common
/// subsequence of what lies before it and itself.
pub proof fn lemma_lcs_common_tail<T>(a: Seq<T>, b: Seq<T>, i: int, j: int, q: int)
    requires
        0 <= q,
        0 <= i <= a.len() - q,
        0 <= j <= b.len() - q,
        runs_equal(a, b, a.len() - q, b.len() - q, q),
    ensures
        lcs_len(a, b, i, j) == lcs_len(a.take(a.len() - q), b.take(b.len() - q), i, j) + q,
    decreases q,
{
    if q == 0 {
        assert(a.take(a.len() - 0) =~= a);
        assert(b.take(b.len() - 0) =~= b);
    } else {
        let n = a.len() as int;
        let m = b.len() as int;
        assert(a[n - q + (q - 1)] == b[m - q + (q - 1)]);
        lemma_lcs_common_last(a, b, i, j);
        let a1 = a.drop_last();
        let b1 = b.drop_last();
        assert forall|t: int| 0 <= t < q - 1 implies #[trigger] a1[a1.len() - (q - 1) + t] == b1[b1.len() - (q
            - 1) + t] by {
            assert(a[n - q + t] == b[m - q + t]);
        }
        lemma_lcs_common_tail(a1, b1, i, j, q - 1);
        assert(a1.take(a1.len() - (q - 1)) =~= a.take(n - q));
        assert(b1.take(b1.len() - (q - 1)) =~= b.take(m - q));
    }
}

/// The longest common subsequence of two sequences holds their common
/// beginning of `p` elements, their common ending of `q` elements, and a
/// longest common subsequence of what lies between.
pub proof fn lemma_lcs_trimmed<T>(a: Seq<T>, b: Seq<T>, p: int, q: int)
    requires
        0 <= p,
        0 <= q,
        p + q <= a.len(),
        p + q <= b.len(),
        runs_equal(a, b, 0, 0, p),
        runs_equal(a, b, a.len() - q, b.len() - q, q),
    ensures
        lcs_len(a, b, 0, 0) == p + lcs_len(a.subrange(p, a.len() - q), b.subrange(p, b.len() - q), 0, 0) + q,
{
    lemma_lcs_common_head(a, b, p);
    lemma_lcs_common_tail(a, b, p, p, q);
    let a1 = a.take(a.len() - q);
    let b1 = b.take(b.len() - q);
    lemma_lcs_shift(a1, b1, p, p, 0, 0);
    assert(a1.subrange(p, a1.len() as int) =~= a.subrange(p, a.len() - q));
    assert(b1.subrange(p, b1.len() as int) =~= b.subrange(p, b.len() - q));
}

/// No alignment whose pairs lie at or behind the places `i` and `j` holds
/// more pairs than a longest common subsequence from there on has elements.
pub proof fn lemma_alignment_bound<T>(a: Seq<T>, b: Seq<T>, ms: Seq<(usize, usize)>, i: int, j: int)
    requires
        is_alignment(a, b, ms),
        0 <= i,
        0 <= j,
        forall|k: int| 0 <= k < ms.len() ==> (#[trigger] ms[k]).0 >= i && ms[k].1 >= j,
    ensures
        ms.len() <= lcs_len(a, b, i, j),
    decreases a.len() - i, b.len() - j,
{
    if ms.len() > 0 {
        let first = ms[0];
        assert(first.0 >= i && first.1 >= j);
        assert(first.0 < a.len() && first.1 < b.len());
        let rest = ms.drop_first();
        assert(is_alignment(a, b, rest)) by {
            assert forall|k: int| 0 <= k < rest.len() implies (#[trigger] rest[k]).0 < a.len() && rest[k].1
                < b.len() && a[rest[k].0 as int] == b[rest[k].1 as int] by {
                assert(rest[k] == ms[k + 1]);
            }
            assert forall|k: int, l: int| 0 <= k < l < rest.len() implies (#[trigger] rest[k]).0 < (
            #[trigger] rest[l]).0 && rest[k].1 < rest[l].1 by {
                assert(rest[k] == ms[k + 1]);
                assert(rest[l] == ms[l + 1]);
            }
        }
        if a[i] == b[j] {
            assert forall|k: int| 0 <= k < rest.len() implies (#[trigger] rest[k]).0 >= i + 1 && rest[k].1 >= j
                + 1 by {
                assert(rest[k] == ms[k + 1]);
                assert(ms[0].0 < ms[k + 1].0);
            }
            lemma_alignment_bound(a, b, rest, i + 1, j + 1);
        } else if first.0 > i {
            assert forall|k: int| 0 <= k < ms.len() implies (#[trigger] ms[k]).0 >= i + 1 && ms[k].1 >= j by {
                if k > 0 {
                    assert(ms[0].0 < ms[k].0);
                }
            }
            lemma_alignment_bound(a, b, ms, i + 1, j);
        } else {
            assert(first.1 > j);
            assert forall|k: int| 0 <= k < ms.len() implies (#[trigger] ms[k]).0 >= i && ms[k].1 >= j + 1 by {
                if k > 0 {
                    assert(ms[0].1 < ms[k].1);
                }
            }
            lemma_alignment_bound(a, b, ms, i, j + 1);
        }
    }
}

/// No alignment of two sequences holds more pairs than their longest
/// common subsequence has elements.
pub proof fn law_no_alignment_beats_lcs<T>(a: Seq<T>, b: Seq<T>, ms: Seq<(usize, usize)>)
    requires
        is_alignment(a, b, ms),
    ensures
        ms.len() <= lcs_len(a, b, 0, 0),
{
    lemma_alignment_bound(a, b, ms, 0, 0);
}

} // verus!
