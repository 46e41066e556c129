//! A longest common subsequence by the full table of subproblems.

use vstd::prelude::*;
use crate::maximal::{box_maximal, lemma_longest_is_maximal};
use crate::script::{
    bounded_by, box_post, box_pre, extends_within, is_alignment, lcs_len, lemma_bounded_by_weaken,
    lemma_box_post_unchanged, lemma_lcs_len_bound, push_match,
};

verus! {

/// The place of the entry `(i, j)` in a table with `m + 1` entries in a row.
pub open spec fn at(i: int, j: int, m: int) -> int {
    i * (m + 1) + j
}

/// Entries of different rows or columns have different places, all of them
/// in the table.
pub proof fn lemma_at(i: int, j: int, n: int, m: int)
    requires
        0 <= i <= n,
        0 <= j <= m,
    ensures
        0 <= at(i, j, m) < (n + 1) * (m + 1),
        at(i + 1, j, m) == at(i, j, m) + m + 1,
        at(i, j + 1, m) == at(i, j, m) + 1,
{
    assert(0 <= i * (m + 1) + j < (n + 1) * (m + 1)) by (nonlinear_arith)
        requires
            0 <= i <= n,
            0 <= j <= m,
    ;
    assert((i + 1) * (m + 1) == i * (m + 1) + m + 1) by (nonlinear_arith);
}

/// An entry of a later row lies behind every entry of an earlier row.
pub proof fn lemma_at_rows(i: int, j: int, i2: int, j2: int, m: int)
    requires
        0 <= i < i2,
        0 <= j <= m,
        0 <= j2 <= m,
    ensures
        at(i, j, m) < at(i2, j2, m),
{
    assert(i * (m + 1) + j < i2 * (m + 1) + j2) by (nonlinear_arith)
        requires
            0 <= i < i2,
            0 <= j <= m,
            0 <= j2 <= m,
    ;
}

/// Computes the place of the entry `(i, j)`.
fn cell(i: usize, j: usize, n: usize, m: usize) -> (c: usize)
    requires
        i <= n,
        j <= m,
        (n + 1) * (m + 1) <= usize::MAX,
    ensures
        c == at(i as int, j as int, m as int),
{
    proof {
        lemma_at(i as int, j as int, n as int, m as int);
        assert(m + 1 <= (n + 1) * (m + 1) && 0 <= i * (m + 1)) by (nonlinear_arith)
            requires
                i >= 0,
                n >= 0,
                m >= 0,
        ;
    }
    i * (m + 1) + j
}

/// The table holds, from row `from` on, the lengths of the longest common
/// subsequences of the corresponding endings of `la` and `lb`.
pub open spec fn table_filled(t: Seq<usize>, la: Seq<usize>, lb: Seq<usize>, from: int) -> bool {
    forall|i: int, j: int|
        from <= i <= la.len() && 0 <= j <= lb.len() ==> t[#[trigger] at(i, j, lb.len() as int)] == lcs_len(
            la,
            lb,
            i,
            j,
        )
}

/// Fills the table of the lengths of the longest common subsequences of all
/// pairs of endings of `a[alo..ahi]` and `b[blo..bhi]`.
fn fill_table(a: &Vec<usize>, b: &Vec<usize>, alo: usize, ahi: usize, blo: usize, bhi: usize) -> (t: Vec<
    usize,
>)
    requires
        alo <= ahi <= a@.len(),
        blo <= bhi <= b@.len(),
        a@.len() + b@.len() + 2 <= usize::MAX,
        (ahi - alo + 1) * (bhi - blo + 1) <= usize::MAX,
    ensures
        t@.len() == (ahi - alo + 1) * (bhi - blo + 1),
        table_filled(t@, a@.subrange(alo as int, ahi as int), b@.subrange(blo as int, bhi as int), 0),
{
    let n: usize = ahi - alo;
    let m: usize = bhi - blo;
    let ghost la = a@.subrange(alo as int, ahi as int);
    let ghost lb = b@.subrange(blo as int, bhi as int);
    let total: usize = (n + 1) * (m + 1);
    let mut t: Vec<usize> = Vec::new();
    let mut f: usize = 0;
    while f < total
        invariant
            f <= total,
            t@.len() == f,
        decreases total - f,
    {
        t.push(0);
        f += 1;
    }
    let mut j0: usize = 0;
    while j0 <= m
        invariant
            n == ahi - alo,
            m == bhi - blo,
            la.len() == n,
            lb.len() == m,
            a@.len() + b@.len() + 2 <= usize::MAX,
            (n + 1) * (m + 1) <= usize::MAX,
            total == (n + 1) * (m + 1),
            t@.len() == total,
            j0 <= m + 1,
            forall|jj: int| 0 <= jj < j0 ==> t@[#[trigger] at(n as int, jj, m as int)] == 0,
        decreases m + 1 - j0,
    {
        let c: usize = cell(n, j0, n, m);
        proof {
            lemma_at(n as int, j0 as int, n as int, m as int);
        }
        let ghost before = t@;
        t.set(c, 0);
        proof {
            assert forall|jj: int| 0 <= jj < j0 + 1 implies t@[#[trigger] at(n as int, jj, m as int)] == 0 by {
                if jj < j0 {
                    assert(before[at(n as int, jj, m as int)] == 0);
                }
            }
        }
        j0 += 1;
    }
    proof {
        assert forall|i: int, j: int| n <= i <= la.len() && 0 <= j <= lb.len() implies t@[#[trigger] at(
            i,
            j,
            lb.len() as int,
        )] == lcs_len(la, lb, i, j) by {
            assert(i == n);
        }
    }
    let mut i: usize = n;
    while i > 0
        invariant
            alo <= ahi <= a@.len(),
            blo <= bhi <= b@.len(),
            n == ahi - alo,
            m == bhi - blo,
            a@.len() + b@.len() + 2 <= usize::MAX,
            (n + 1) * (m + 1) <= usize::MAX,
            total == (n + 1) * (m + 1),
            la == a@.subrange(alo as int, ahi as int),
            lb == b@.subrange(blo as int, bhi as int),
            la.len() == n,
            lb.len() == m,
            i <= n,
            t@.len() == total,
            table_filled(t@, la, lb, i as int),
        decreases i,
    {
        i -= 1;
        let last: usize = cell(i, m, n, m);
        let ghost before_row = t@;
        proof {
            lemma_at(i as int, m as int, n as int, m as int);
        }
        t.set(last, 0);
        proof {
            assert forall|ii: int, jj: int| i + 1 <= ii <= la.len() && 0 <= jj <= lb.len() implies t@[#[trigger] at(
                ii,
                jj,
                lb.len() as int,
            )] == lcs_len(la, lb, ii, jj) by {
                lemma_at_rows(i as int, m as int, ii, jj, m as int);
                lemma_at(ii, jj, n as int, m as int);
                assert(before_row[at(ii, jj, lb.len() as int)] == lcs_len(la, lb, ii, jj));
            }
        }
        let mut j: usize = m;
        while j > 0
            invariant
                alo <= ahi <= a@.len(),
                blo <= bhi <= b@.len(),
                n == ahi - alo,
                m == bhi - blo,
                a@.len() + b@.len() + 2 <= usize::MAX,
                (n + 1) * (m + 1) <= usize::MAX,
                total == (n + 1) * (m + 1),
                la == a@.subrange(alo as int, ahi as int),
                lb == b@.subrange(blo as int, bhi as int),
                la.len() == n,
                lb.len() == m,
                i < n,
                j <= m,
                t@.len() == total,
                table_filled(t@, la, lb, i + 1),
                forall|jj: int| j <= jj <= m ==> t@[#[trigger] at(i as int, jj, m as int)] == lcs_len(
                    la,
                    lb,
                    i as int,
                    jj,
                ),
            decreases j,
        {
            j -= 1;
            let here: usize = cell(i, j, n, m);
            let diag: usize = cell(i + 1, j + 1, n, m);
            let down: usize = cell(i + 1, j, n, m);
            let right: usize = cell(i, j + 1, n, m);
            proof {
                lemma_at(i as int, j as int, n as int, m as int);
                lemma_at(i + 1, j + 1, n as int, m as int);
                lemma_at(i + 1, j as int, n as int, m as int);
                lemma_at(i as int, j + 1, n as int, m as int);
                assert(t@[at(i + 1, j + 1, lb.len() as int)] == lcs_len(la, lb, i + 1, j + 1));
                assert(t@[at(i + 1, j as int, lb.len() as int)] == lcs_len(la, lb, i + 1, j as int));
                assert(t@[at(i as int, j + 1, m as int)] == lcs_len(la, lb, i as int, j + 1));
                lemma_lcs_len_bound(la, lb, i + 1, j + 1);
                assert(la[i as int] == a@[alo + i]);
                assert(lb[j as int] == b@[blo + j]);
            }
            let value: usize = if a[alo + i] == b[blo + j] {
                t[diag] + 1
            } else if t[down] >= t[right] {
                t[down]
            } else {
                t[right]
            };
            let ghost before = t@;
            t.set(here, value);
            proof {
                assert forall|ii: int, jj: int| i + 1 <= ii <= la.len() && 0 <= jj <= lb.len() implies t@[#[trigger] at(
                    ii,
                    jj,
                    lb.len() as int,
                )] == lcs_len(la, lb, ii, jj) by {
                    lemma_at_rows(i as int, j as int, ii, jj, m as int);
                    lemma_at(ii, jj, n as int, m as int);
                    assert(before[at(ii, jj, lb.len() as int)] == lcs_len(la, lb, ii, jj));
                }
                assert forall|jj: int| j <= jj <= m implies t@[#[trigger] at(i as int, jj, m as int)]
                    == lcs_len(la, lb, i as int, jj) by {
                    if jj > j {
                        lemma_at(i as int, jj, n as int, m as int);
                        assert(before[at(i as int, jj, m as int)] == lcs_len(la, lb, i as int, jj));
                    }
                }
            }
        }
        proof {
            assert forall|ii: int, jj: int| i <= ii <= la.len() && 0 <= jj <= lb.len() implies t@[#[trigger] at(
                ii,
                jj,
                lb.len() as int,
            )] == lcs_len(la, lb, ii, jj) by {
                if ii == i {
                    assert(t@[at(i as int, jj, m as int)] == lcs_len(la, lb, i as int, jj));
                }
            }
        }
    }
    t
}

/// The pairs that the search keeps from the places `i` and `j` on, of all
/// longest common subsequences the one that the table leads to first:
/// equal elements are paired; of unequal ones the element of `a` is passed
/// over unless more can be kept by passing over that of `b`.
pub open spec fn lcs_pairs(a: Seq<usize>, b: Seq<usize>, i: int, j: int) -> Seq<(int, int)>
    decreases a.len() - i, b.len() - j,
{
    if i < 0 || j < 0 || i >= a.len() || j >= b.len() {
        Seq::empty()
    } else if a[i] == b[j] {
        seq![(i, j)] + lcs_pairs(a, b, i + 1, j + 1)
    } else if lcs_len(a, b, i + 1, j) >= lcs_len(a, b, i, j + 1) {
        lcs_pairs(a, b, i + 1, j)
    } else {
        lcs_pairs(a, b, i, j + 1)
    }
}

/// The pairs of `ms` from the place `from` on, counted from the start
/// `(alo, blo)` of a box.
pub open spec fn from_box(ms: Seq<(usize, usize)>, from: int, alo: int, blo: int) -> Seq<(int, int)> {
    Seq::new((ms.len() - from) as nat, |k: int| (ms[from + k].0 - alo, ms[from + k].1 - blo))
}

/// Adds to `ms` the pairs of a longest common subsequence of the box
/// `[alo, ahi) x [blo, bhi)`, as `lcs_pairs` names them.
pub fn lcs_box(
    a: &Vec<usize>,
    b: &Vec<usize>,
    alo: usize,
    ahi: usize,
    blo: usize,
    bhi: usize,
    ms: &mut Vec<(usize, usize)>,
)
    requires
        box_pre(a@, b@, old(ms)@, alo as int, ahi as int, blo as int, bhi as int),
        (ahi - alo + 1) * (bhi - blo + 1) <= usize::MAX,
    ensures
        box_post(a@, b@, old(ms)@, final(ms)@, alo as int, ahi as int, blo as int, bhi as int),
        final(ms)@.len() - old(ms)@.len() == lcs_len(
            a@.subrange(alo as int, ahi as int),
            b@.subrange(blo as int, bhi as int),
            0,
            0,
        ),
        box_maximal(a@, b@, final(ms)@, old(ms)@.len() as int, alo as int, ahi as int, blo as int, bhi as int),
        from_box(final(ms)@, old(ms)@.len() as int, alo as int, blo as int) == lcs_pairs(
            a@.subrange(alo as int, ahi as int),
            b@.subrange(blo as int, bhi as int),
            0,
            0,
        ),
{
    let n: usize = ahi - alo;
    let m: usize = bhi - blo;
    let ghost la = a@.subrange(alo as int, ahi as int);
    let ghost lb = b@.subrange(blo as int, bhi as int);
    let ghost from = old(ms)@.len() as int;
    let t = fill_table(a, b, alo, ahi, blo, bhi);
    let mut i: usize = 0;
    let mut j: usize = 0;
    proof {
        lemma_box_post_unchanged(a@, b@, ms@, alo as int, ahi as int, blo as int, bhi as int);
        assert(from_box(ms@, from, alo as int, blo as int) + lcs_pairs(la, lb, 0, 0) =~= lcs_pairs(la, lb, 0, 0));
    }
    while i < n && j < m
        invariant
            box_pre(a@, b@, old(ms)@, alo as int, ahi as int, blo as int, bhi as int),
            n == ahi - alo,
            m == bhi - blo,
            (n + 1) * (m + 1) <= usize::MAX,
            la == a@.subrange(alo as int, ahi as int),
            lb == b@.subrange(blo as int, bhi as int),
            la.len() == n,
            lb.len() == m,
            t@.len() == (n + 1) * (m + 1),
            table_filled(t@, la, lb, 0),
            i <= n,
            j <= m,
            is_alignment(a@, b@, ms@),
            bounded_by(ms@, alo + i, blo + j),
            extends_within(old(ms)@, ms@, alo as int, ahi as int, blo as int, bhi as int),
            ms@.len() - old(ms)@.len() + lcs_len(la, lb, i as int, j as int) == lcs_len(la, lb, 0, 0),
            from == old(ms)@.len(),
            from_box(ms@, from, alo as int, blo as int) + lcs_pairs(la, lb, i as int, j as int) == lcs_pairs(
                la,
                lb,
                0,
                0,
            ),
        decreases (n - i) + (m - j),
    {
        proof {
            assert(la[i as int] == a@[alo + i]);
            assert(lb[j as int] == b@[blo + j]);
        }
        if a[alo + i] == b[blo + j] {
            let ghost before = ms@;
            push_match(a, b, ms, alo + i, blo + j);
            proof {
                assert(ms@.subrange(0, old(ms)@.len() as int) =~= old(ms)@) by {
                    assert forall|k: int| 0 <= k < old(ms)@.len() implies ms@[k] == old(ms)@[k] by {
                        assert(before.subrange(0, old(ms)@.len() as int)[k] == before[k]);
                    }
                }
                assert forall|k: int| old(ms)@.len() <= k < ms@.len() implies alo <= (#[trigger] ms@[k]).0
                    < ahi && blo <= ms@[k].1 < bhi by {
                    if k < before.len() {
                        assert(ms@[k] == before[k]);
                    }
                }
                let kept = from_box(before, from, alo as int, blo as int);
                assert(from_box(ms@, from, alo as int, blo as int) =~= kept.push((i as int, j as int)));
                assert(kept.push((i as int, j as int)) + lcs_pairs(la, lb, i + 1, j + 1) =~= kept + (seq![
                    (i as int, j as int),
                ] + lcs_pairs(la, lb, i + 1, j + 1)));
            }
            i += 1;
            j += 1;
        } else {
            let down: usize = cell(i + 1, j, n, m);
            let right: usize = cell(i, j + 1, n, m);
            proof {
                lemma_at(i + 1, j as int, n as int, m as int);
                lemma_at(i as int, j + 1, n as int, m as int);
                assert(t@[at(i + 1, j as int, lb.len() as int)] == lcs_len(la, lb, i + 1, j as int));
                assert(t@[at(i as int, j + 1, lb.len() as int)] == lcs_len(la, lb, i as int, j + 1));
            }
            if t[down] >= t[right] {
                i += 1;
                proof {
                    lemma_bounded_by_weaken(ms@, alo + i - 1, blo + j, alo + i, blo + j);
                }
            } else {
                j += 1;
                proof {
                    lemma_bounded_by_weaken(ms@, alo + i, blo + j - 1, alo + i, blo + j);
                }
            }
        }
    }
    proof {
        lemma_bounded_by_weaken(ms@, alo + i, blo + j, ahi as int, bhi as int);
        lemma_longest_is_maximal(a@, b@, old(ms)@, ms@, alo as int, ahi as int, blo as int, bhi as int);
        assert(from_box(ms@, from, alo as int, blo as int) + lcs_pairs(la, lb, i as int, j as int) =~= from_box(
            ms@,
            from,
            alo as int,
            blo as int,
        ));
    }
}

} // verus!
