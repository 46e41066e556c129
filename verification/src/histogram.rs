//! The histogram search: the rarest element that both sides of a box hold
//! anchors the alignment, and the two boxes before and behind the anchor
//! are searched in the same way.

use vstd::prelude::*;
use crate::anchors::{
    count_in, ids_below, is_first, lemma_count_in_bounds, lemma_extends_self, lemma_push_extends,
    occurrences, push_run, suffix_len, trim_prefix,
};
use crate::maximal::{
    box_maximal, common_at, lemma_maximal_chain, lemma_maximal_push, lemma_maximal_run,
    lemma_maximal_without_common,
};
use crate::script::{box_post, box_pre, lemma_bounded_by_weaken, lemma_box_post_chain, push_match};

verus! {

/// How often `id` occurs in the box, on both sides together.
pub open spec fn occurrences_of(
    a: Seq<usize>,
    b: Seq<usize>,
    alo: int,
    ahi: int,
    blo: int,
    bhi: int,
    id: int,
) -> nat {
    count_in(a, alo, ahi, id) + count_in(b, blo, bhi, id)
}

/// `(i, j)` is the anchor of the box: the element at `i` occurs on both
/// sides, no element that does occurs less often, and none that occurs as
/// often comes before it on the first side; `i` and `j` are the first
/// places that hold it.
pub open spec fn is_rarest_anchor(
    a: Seq<usize>,
    b: Seq<usize>,
    alo: int,
    ahi: int,
    blo: int,
    bhi: int,
    i: int,
    j: int,
) -> bool {
    &&& is_first(a, alo, ahi, a[i] as int, i)
    &&& is_first(b, blo, bhi, a[i] as int, j)
    &&& forall|x: int|
        alo <= x < ahi && count_in(b, blo, bhi, (#[trigger] a[x]) as int) > 0 ==> {
            ||| occurrences_of(a, b, alo, ahi, blo, bhi, a[i] as int) < occurrences_of(
                a,
                b,
                alo,
                ahi,
                blo,
                bhi,
                a[x] as int,
            )
            ||| (occurrences_of(a, b, alo, ahi, blo, bhi, a[i] as int) == occurrences_of(
                a,
                b,
                alo,
                ahi,
                blo,
                bhi,
                a[x] as int,
            ) && i <= x)
        }
}

/// The pair that anchors the box `[alo, ahi) x [blo, bhi)`: among the
/// elements that occur on both sides, the one with the fewest occurrences,
/// counted over both sides together; of several such, the one that comes
/// first on the first side. The pair holds its first occurrence on either
/// side. There is no anchor where the two sides share no element.
pub fn rarest_anchor(
    a: &Vec<usize>,
    b: &Vec<usize>,
    alo: usize,
    ahi: usize,
    blo: usize,
    bhi: usize,
    count: usize,
) -> (r: Option<(usize, usize)>)
    requires
        alo <= ahi <= a@.len(),
        blo <= bhi <= b@.len(),
        a@.len() + b@.len() + 2 <= usize::MAX,
        ids_below(a@, count as int),
        ids_below(b@, count as int),
    ensures
        match r {
            Some((i, j)) => {
                &&& alo <= i < ahi
                &&& blo <= j < bhi
                &&& a@[i as int] == b@[j as int]
                &&& is_rarest_anchor(a@, b@, alo as int, ahi as int, blo as int, bhi as int, i as int, j as int)
            },
            None => no_common(a@, b@, alo as int, ahi as int, blo as int, bhi as int),
        },
{
    let (count_a, _first_a) = occurrences(a, alo, ahi, count);
    let (count_b, first_b) = occurrences(b, blo, bhi, count);
    let mut best: Option<(usize, usize)> = None;
    let mut best_score: usize = 0;
    let mut i: usize = alo;
    while i < ahi
        invariant
            alo <= i <= ahi <= a@.len(),
            blo <= bhi <= b@.len(),
            a@.len() + b@.len() + 2 <= usize::MAX,
            ids_below(a@, count as int),
            ids_below(b@, count as int),
            count_a@.len() == count,
            count_b@.len() == count,
            first_b@.len() == count,
            forall|id: int|
                0 <= id < count ==> (#[trigger] count_a@[id]) == count_in(a@, alo as int, ahi as int, id),
            forall|id: int|
                0 <= id < count ==> (#[trigger] count_b@[id]) == count_in(b@, blo as int, bhi as int, id),
            forall|id: int|
                0 <= id < count && (#[trigger] count_b@[id]) > 0 ==> is_first(
                    b@,
                    blo as int,
                    bhi as int,
                    id,
                    first_b@[id] as int,
                ),
            match best {
                Some((bi, bj)) => {
                    &&& alo <= bi < i
                    &&& best_score == occurrences_of(
                        a@,
                        b@,
                        alo as int,
                        ahi as int,
                        blo as int,
                        bhi as int,
                        a@[bi as int] as int,
                    )
                    &&& is_first(b@, blo as int, bhi as int, a@[bi as int] as int, bj as int)
                    &&& forall|x: int|
                        alo <= x < i && count_in(b@, blo as int, bhi as int, (#[trigger] a@[x]) as int) > 0
                            ==> best_score < occurrences_of(
                            a@,
                            b@,
                            alo as int,
                            ahi as int,
                            blo as int,
                            bhi as int,
                            a@[x] as int,
                        ) || (best_score == occurrences_of(
                            a@,
                            b@,
                            alo as int,
                            ahi as int,
                            blo as int,
                            bhi as int,
                            a@[x] as int,
                        ) && bi <= x)
                },
                None => forall|x: int|
                    alo <= x < i ==> count_in(b@, blo as int, bhi as int, (#[trigger] a@[x]) as int) == 0,
            },
        decreases ahi - i,
    {
        let id: usize = a[i];
        assert(a@[i as int] < count);
        proof {
            lemma_count_in_bounds(a@, alo as int, ahi as int, id as int);
            lemma_count_in_bounds(b@, blo as int, bhi as int, id as int);
        }
        if count_b[id] > 0 {
            let score: usize = count_a[id] + count_b[id];
            if best.is_none() || score < best_score {
                best = Some((i, first_b[id]));
                best_score = score;
            }
        }
        i += 1;
    }
    proof {
        match best {
            Some((bi, bj)) => {
                // The anchor is the first place of its element: an earlier
                // one would have been taken.
                lemma_count_in_bounds(b@, blo as int, bhi as int, a@[bi as int] as int);
                assert(b@[bj as int] == a@[bi as int]);
                assert forall|x: int| alo <= x < bi implies #[trigger] a@[x] != a@[bi as int] by {
                    if a@[x] == a@[bi as int] {
                        assert(count_in(b@, blo as int, bhi as int, a@[x] as int) > 0);
                    }
                }
            },
            None => {
                assert forall|x: int, y: int| alo <= x < ahi && blo <= y < bhi implies !#[trigger] common_at(
                    a@,
                    b@,
                    x,
                    y,
                ) by {
                    if a@[x] == b@[y] {
                        lemma_count_in_bounds(b@, blo as int, bhi as int, a@[x] as int);
                        assert(b@[y] == a@[x]);
                    }
                }
            },
        }
    }
    best
}

/// The box holds no pair of equal elements.
pub open spec fn no_common(a: Seq<usize>, b: Seq<usize>, alo: int, ahi: int, blo: int, bhi: int) -> bool {
    forall|i: int, j: int| alo <= i < ahi && blo <= j < bhi ==> !#[trigger] common_at(a, b, i, j)
}

/// Adds to `ms` the pairs that the histogram search finds in the box
/// `[alo, ahi) x [blo, bhi)`. The common beginning and ending of the box
/// are paired first. No pair of equal elements of the box can be added
/// to what the search leaves.
pub fn histogram_box(
    a: &Vec<usize>,
    b: &Vec<usize>,
    alo: usize,
    ahi: usize,
    blo: usize,
    bhi: usize,
    count: usize,
    ms: &mut Vec<(usize, usize)>,
)
    requires
        box_pre(a@, b@, old(ms)@, alo as int, ahi as int, blo as int, bhi as int),
        ids_below(a@, count as int),
        ids_below(b@, count as int),
    ensures
        box_post(a@, b@, old(ms)@, final(ms)@, alo as int, ahi as int, blo as int, bhi as int),
        box_maximal(a@, b@, final(ms)@, old(ms)@.len() as int, alo as int, ahi as int, blo as int, bhi as int),
    decreases (ahi - alo) + (bhi - blo),
{
    let ghost from = old(ms)@.len() as int;
    let p: usize = trim_prefix(a, b, alo, ahi, blo, bhi, ms);
    let lo_a: usize = alo + p;
    let lo_b: usize = blo + p;
    let q: usize = suffix_len(a, b, lo_a, ahi, lo_b, bhi);
    let hi_a: usize = ahi - q;
    let hi_b: usize = bhi - q;
    let ghost m0 = ms@;
    proof {
        if p > 0 {
            assert(m0[m0.len() - 1].0 == lo_a - 1 && m0[m0.len() - 1].1 == lo_b - 1);
        }
    }
    let anchor = if lo_a < hi_a && lo_b < hi_b {
        rarest_anchor(a, b, lo_a, hi_a, lo_b, hi_b, count)
    } else {
        None
    };
    match anchor {
        Some((i, j)) => {
            histogram_box(a, b, lo_a, i, lo_b, j, count, ms);
            let ghost m1 = ms@;
            push_match(a, b, ms, i, j);
            let ghost m2 = ms@;
            proof {
                lemma_box_post_chain(
                    a@,
                    b@,
                    old(ms)@,
                    m0,
                    m1,
                    alo as int,
                    lo_a as int,
                    i as int,
                    blo as int,
                    lo_b as int,
                    j as int,
                );
                lemma_maximal_chain(
                    a@,
                    b@,
                    m0,
                    m1,
                    from,
                    alo as int,
                    lo_a as int,
                    i as int,
                    blo as int,
                    lo_b as int,
                    j as int,
                );
                lemma_push_extends(m1, i, j);
                lemma_box_post_chain(
                    a@,
                    b@,
                    old(ms)@,
                    m1,
                    m2,
                    alo as int,
                    i as int,
                    i + 1,
                    blo as int,
                    j as int,
                    j + 1,
                );
                lemma_maximal_push(a@, b@, m1, from, alo as int, blo as int, i, j);
            }
            histogram_box(a, b, i + 1, hi_a, j + 1, hi_b, count, ms);
            proof {
                lemma_box_post_chain(
                    a@,
                    b@,
                    old(ms)@,
                    m2,
                    ms@,
                    alo as int,
                    i + 1,
                    hi_a as int,
                    blo as int,
                    j + 1,
                    hi_b as int,
                );
                lemma_maximal_chain(
                    a@,
                    b@,
                    m2,
                    ms@,
                    from,
                    alo as int,
                    i + 1,
                    hi_a as int,
                    blo as int,
                    j + 1,
                    hi_b as int,
                );
            }
        },
        None => {
            proof {
                lemma_extends_self(m0, lo_a as int, hi_a as int, lo_b as int, hi_b as int);
                lemma_box_post_chain(
                    a@,
                    b@,
                    old(ms)@,
                    m0,
                    m0,
                    alo as int,
                    lo_a as int,
                    hi_a as int,
                    blo as int,
                    lo_b as int,
                    hi_b as int,
                );
                lemma_bounded_by_weaken(m0, lo_a as int, lo_b as int, hi_a as int, hi_b as int);
                lemma_maximal_without_common(
                    a@,
                    b@,
                    m0,
                    m0.len() as int,
                    lo_a as int,
                    hi_a as int,
                    lo_b as int,
                    hi_b as int,
                );
                lemma_maximal_chain(
                    a@,
                    b@,
                    m0,
                    m0,
                    from,
                    alo as int,
                    lo_a as int,
                    hi_a as int,
                    blo as int,
                    lo_b as int,
                    hi_b as int,
                );
            }
        },
    }
    let ghost m4 = ms@;
    push_run(a, b, ms, hi_a, hi_b, q);
    proof {
        lemma_box_post_chain(
            a@,
            b@,
            old(ms)@,
            m4,
            ms@,
            alo as int,
            hi_a as int,
            ahi as int,
            blo as int,
            hi_b as int,
            bhi as int,
        );
        lemma_maximal_run(a@, b@, m4, ms@, from, alo as int, hi_a as int, blo as int, hi_b as int, q as int);
    }
}

} // verus!
