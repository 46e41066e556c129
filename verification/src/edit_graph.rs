//! The edit graph of two sequences, as the shortest-path search sees it.
//!
//! A point `(x, y)` stands for the first `x` elements of the one sequence
//! and the first `y` of the other. From every point a step leads right, to
//! `(x + 1, y)`, and one down, to `(x, y + 1)`; where the elements behind
//! the point are equal, a step leads along the diagonal to
//! `(x + 1, y + 1)`. Beyond the sequences there are no diagonal steps.
//! The distance of a point is the least number of steps right and down on a
//! path from the origin to it.

use vstd::prelude::*;
use crate::script::{hunk_valid, lcs_len, prev_base_end, prev_other_end, script_cost, script_valid, Hunk};

verus! {

/// The length of a longest common subsequence of the first `x` elements
/// of `a` and the first `y` of `b`.
pub open spec fn lcs_pre<T>(a: Seq<T>, b: Seq<T>, x: int, y: int) -> nat
    decreases x + y,
{
    if x <= 0 || y <= 0 {
        0
    } else if x <= a.len() && y <= b.len() && a[x - 1] == b[y - 1] {
        1 + lcs_pre(a, b, x - 1, y - 1)
    } else if lcs_pre(a, b, x - 1, y) >= lcs_pre(a, b, x, y - 1) {
        lcs_pre(a, b, x - 1, y)
    } else {
        lcs_pre(a, b, x, y - 1)
    }
}

/// The distance of the point `(x, y)` from the origin.
pub open spec fn dist<T>(a: Seq<T>, b: Seq<T>, x: int, y: int) -> int {
    x + y - 2 * lcs_pre(a, b, x, y)
}

/// A diagonal step leads on from the point `(x, y)`.
pub open spec fn cell_matches<T>(a: Seq<T>, b: Seq<T>, x: int, y: int) -> bool {
    0 <= x < a.len() && 0 <= y < b.len() && a[x] == b[y]
}

/// One element more on either side adds at most one element to the
/// longest common subsequence of the beginnings, and takes none away.
pub proof fn lemma_pre_steps<T>(a: Seq<T>, b: Seq<T>, x: int, y: int)
    requires
        0 <= x,
        0 <= y,
    ensures
        lcs_pre(a, b, x, y) <= lcs_pre(a, b, x + 1, y) <= lcs_pre(a, b, x, y) + 1,
        lcs_pre(a, b, x, y) <= lcs_pre(a, b, x, y + 1) <= lcs_pre(a, b, x, y) + 1,
        lcs_pre(a, b, x + 1, y + 1) <= lcs_pre(a, b, x, y) + 1,
        lcs_pre(a, b, x, y) <= x,
        lcs_pre(a, b, x, y) <= y,
    decreases x + y,
{
    if y > 0 {
        lemma_pre_steps(a, b, x, y - 1);
    }
    if x > 0 {
        lemma_pre_steps(a, b, x - 1, y);
    }
    if x > 0 && y > 0 {
        lemma_pre_steps(a, b, x - 1, y - 1);
    }
}

/// What the steps of the graph do to the distance.
pub proof fn lemma_dist_steps<T>(a: Seq<T>, b: Seq<T>, x: int, y: int)
    requires
        0 <= x,
        0 <= y,
    ensures
        dist(a, b, x, y) >= 0,
        dist(a, b, x, y) >= x - y,
        dist(a, b, x, y) >= y - x,
        dist(a, b, x + 1, y) == dist(a, b, x, y) + 1 || dist(a, b, x + 1, y) == dist(a, b, x, y) - 1,
        dist(a, b, x, y + 1) == dist(a, b, x, y) + 1 || dist(a, b, x, y + 1) == dist(a, b, x, y) - 1,
        dist(a, b, x + 1, y + 1) == dist(a, b, x, y) || dist(a, b, x + 1, y + 1) == dist(a, b, x, y) + 2,
        cell_matches(a, b, x, y) ==> dist(a, b, x + 1, y + 1) == dist(a, b, x, y),
{
    lemma_pre_steps(a, b, x, y);
    lemma_pre_steps(a, b, x + 1, y);
    lemma_pre_steps(a, b, x, y + 1);
}

/// A point other than the origin that no diagonal step leads into lies
/// one step right or down from a point that is nearer to the origin.
pub proof fn lemma_dist_predecessor<T>(a: Seq<T>, b: Seq<T>, x: int, y: int)
    requires
        0 <= x,
        0 <= y,
        x + y > 0,
        !(x > 0 && y > 0 && cell_matches(a, b, x - 1, y - 1)),
    ensures
        (x > 0 && dist(a, b, x - 1, y) == dist(a, b, x, y) - 1) || (y > 0 && dist(a, b, x, y - 1) == dist(
            a,
            b,
            x,
            y,
        ) - 1),
{
    if x > 0 {
        lemma_pre_steps(a, b, x - 1, y);
    }
    if y > 0 {
        lemma_pre_steps(a, b, x, y - 1);
    }
}

/// The point `(x, x - k)` of the diagonal `k` lies no further than `d`
/// from the origin.
pub open spec fn within<T>(a: Seq<T>, b: Seq<T>, d: int, k: int, x: int) -> bool {
    x >= 0 && x - k >= 0 && dist(a, b, x, x - k) <= d
}

/// `(v, v - k)` is the furthest point of the diagonal `k` that lies no
/// further than `d` from the origin.
pub open spec fn is_furthest<T>(a: Seq<T>, b: Seq<T>, d: int, k: int, v: int) -> bool {
    &&& within(a, b, d, k, v)
    &&& forall|x: int| #[trigger] within(a, b, d, k, x) ==> x <= v
}

/// Diagonal steps lead from `(start, start - k)` to `(end, end - k)`, and
/// no further.
pub open spec fn snake<T>(a: Seq<T>, b: Seq<T>, k: int, start: int, end: int) -> bool {
    &&& start <= end
    &&& forall|t: int| start <= t < end ==> #[trigger] cell_matches(a, b, t, t - k)
    &&& !cell_matches(a, b, end, end - k)
}

/// Diagonal steps do not change the distance.
pub proof fn lemma_snake_keeps_dist<T>(a: Seq<T>, b: Seq<T>, k: int, start: int, end: int)
    requires
        0 <= start <= end,
        0 <= start - k,
        forall|t: int| start <= t < end ==> #[trigger] cell_matches(a, b, t, t - k),
    ensures
        dist(a, b, end, end - k) == dist(a, b, start, start - k),
    decreases end - start,
{
    if start < end {
        lemma_snake_keeps_dist(a, b, k, start, end - 1);
        assert(cell_matches(a, b, end - 1, end - 1 - k));
        lemma_dist_steps(a, b, end - 1, end - 1 - k);
    }
}

/// Where every point of the diagonal `k` within the distance `d` that
/// lies beyond `start` is entered by a diagonal step, none of them lies
/// beyond the end of the diagonal steps from `start`.
pub proof fn lemma_none_beyond_snake<T>(a: Seq<T>, b: Seq<T>, d: int, k: int, start: int, end: int, x: int)
    requires
        snake(a, b, k, start, end),
        within(a, b, d, k, x),
        forall|z: int| #[trigger]
            within(a, b, d, k, z) && z > start ==> z > 0 && z - k > 0 && cell_matches(a, b, z - 1, z - 1 - k),
    ensures
        x <= end,
    decreases x,
{
    if x > start {
        assert(x > 0 && x - k > 0 && cell_matches(a, b, x - 1, x - 1 - k));
        lemma_dist_steps(a, b, x - 1, x - 1 - k);
        assert(within(a, b, d, k, x - 1));
        lemma_none_beyond_snake(a, b, d, k, start, end, x - 1);
    }
}

/// The diagonal steps from the origin end at the furthest point of the
/// diagonal 0 that lies at the distance 0.
pub proof fn lemma_furthest_root<T>(a: Seq<T>, b: Seq<T>, end: int)
    requires
        snake(a, b, 0, 0, end),
    ensures
        is_furthest(a, b, 0, 0, end),
{
    lemma_snake_keeps_dist(a, b, 0, 0, end);
    assert(lcs_pre(a, b, 0, 0) == 0);
    assert(within(a, b, 0, 0, end));
    assert forall|z: int| #[trigger] within(a, b, 0, 0, z) && z > 0 implies z > 0 && z - 0 > 0 && cell_matches(
        a,
        b,
        z - 1,
        z - 1 - 0,
    ) by {
        if !cell_matches(a, b, z - 1, z - 1) {
            lemma_dist_predecessor(a, b, z, z);
            lemma_dist_steps(a, b, z - 1, z);
            lemma_dist_steps(a, b, z, z - 1);
        }
    }
    assert forall|x: int| #[trigger] within(a, b, 0, 0, x) implies x <= end by {
        lemma_none_beyond_snake(a, b, 0, 0, 0, end, x);
    }
}

/// The step of the search: from the furthest points of the two
/// neighbouring diagonals within the distance `d - 1`, one step and the
/// diagonal steps behind it lead to the furthest point of the diagonal `k`
/// within the distance `d`.
///
/// `down` is the furthest point of the diagonal `k + 1` and `right` that of
/// the diagonal `k - 1`, each where that diagonal has a point within the
/// distance `d - 1`. The step starts at the further of the point below
/// `down` and the point to the right of `right`.
pub proof fn lemma_furthest_step<T>(
    a: Seq<T>,
    b: Seq<T>,
    d: int,
    k: int,
    down: Option<int>,
    right: Option<int>,
    start: int,
    end: int,
)
    requires
        d >= 1,
        -d <= k <= d,
        match down {
            Some(v) => is_furthest(a, b, d - 1, k + 1, v),
            None => k + 1 > d - 1,
        },
        match right {
            Some(v) => is_furthest(a, b, d - 1, k - 1, v),
            None => k - 1 < -(d - 1),
        },
        match (down, right) {
            (Some(vd), Some(vr)) => start == (if vr + 1 > vd {
                vr + 1
            } else {
                vd
            }),
            (Some(vd), None) => start == vd,
            (None, Some(vr)) => start == vr + 1,
            (None, None) => false,
        },
        snake(a, b, k, start, end),
    ensures
        is_furthest(a, b, d, k, end),
{
    // The start lies within the distance.
    match down {
        Some(vd) => {
            lemma_dist_steps(a, b, vd, vd - (k + 1));
        },
        None => {},
    }
    match right {
        Some(vr) => {
            lemma_dist_steps(a, b, vr, vr - (k - 1));
        },
        None => {},
    }
    assert(within(a, b, d, k, start));
    lemma_snake_keeps_dist(a, b, k, start, end);
    assert(within(a, b, d, k, end));
    // Whatever lies beyond the start is entered by a diagonal step.
    assert forall|z: int| #[trigger] within(a, b, d, k, z) && z > start implies z > 0 && z - k > 0
        && cell_matches(a, b, z - 1, z - 1 - k) by {
        let y = z - k;
        if !(z > 0 && y > 0 && cell_matches(a, b, z - 1, y - 1)) {
            lemma_dist_predecessor(a, b, z, y);
            if z > 0 && dist(a, b, z - 1, y) == dist(a, b, z, y) - 1 {
                lemma_dist_steps(a, b, z - 1, y);
                assert(within(a, b, d - 1, k - 1, z - 1));
                match right {
                    Some(vr) => {
                        assert(z - 1 <= vr);
                    },
                    None => {},
                }
            } else {
                lemma_dist_steps(a, b, z, y - 1);
                assert(within(a, b, d - 1, k + 1, z));
                match down {
                    Some(vd) => {
                        assert(z <= vd);
                    },
                    None => {},
                }
            }
        }
    }
    assert forall|x: int| #[trigger] within(a, b, d, k, x) implies x <= end by {
        lemma_none_beyond_snake(a, b, d, k, start, end, x);
    }
}

/// One element less at the start of either side takes at most one element
/// from the longest common subsequence of the endings, and adds none.
pub proof fn lemma_len_steps<T>(a: Seq<T>, b: Seq<T>, i: int, j: int)
    requires
        0 <= i <= a.len(),
        0 <= j <= b.len(),
    ensures
        i < a.len() ==> lcs_len(a, b, i + 1, j) <= lcs_len(a, b, i, j) <= lcs_len(a, b, i + 1, j) + 1,
        j < b.len() ==> lcs_len(a, b, i, j + 1) <= lcs_len(a, b, i, j) <= lcs_len(a, b, i, j + 1) + 1,
        i < a.len() && j < b.len() ==> lcs_len(a, b, i, j) <= lcs_len(a, b, i + 1, j + 1) + 1,
    decreases a.len() - i + b.len() - j,
{
    if i < a.len() {
        lemma_len_steps(a, b, i + 1, j);
    }
    if j < b.len() {
        lemma_len_steps(a, b, i, j + 1);
    }
    if i < a.len() && j < b.len() {
        lemma_len_steps(a, b, i + 1, j + 1);
    }
}

/// A longest common subsequence of two beginnings and one of the endings
/// behind them make a common subsequence of the whole.
pub proof fn lemma_pre_plus_len<T>(a: Seq<T>, b: Seq<T>, x: int, y: int)
    requires
        0 <= x <= a.len(),
        0 <= y <= b.len(),
    ensures
        lcs_pre(a, b, x, y) + lcs_len(a, b, x, y) <= lcs_len(a, b, 0, 0),
        lcs_pre(a, b, x, y) + lcs_len(a, b, x, y) <= lcs_pre(a, b, a.len() as int, b.len() as int),
{
    lemma_pre_plus_len_down(a, b, x, y);
    lemma_pre_plus_len_up(a, b, x, y);
}

/// See `lemma_pre_plus_len`: against the longest common subsequence as
/// counted from the start.
pub proof fn lemma_pre_plus_len_down<T>(a: Seq<T>, b: Seq<T>, x: int, y: int)
    requires
        0 <= x <= a.len(),
        0 <= y <= b.len(),
    ensures
        lcs_pre(a, b, x, y) + lcs_len(a, b, x, y) <= lcs_len(a, b, 0, 0),
    decreases x + y,
{
    if x == 0 || y == 0 {
        lemma_len_chain(a, b, x, y);
    } else if a[x - 1] == b[y - 1] {
        lemma_pre_plus_len_down(a, b, x - 1, y - 1);
    } else {
        lemma_len_steps(a, b, x - 1, y);
        lemma_len_steps(a, b, x, y - 1);
        lemma_pre_plus_len_down(a, b, x - 1, y);
        lemma_pre_plus_len_down(a, b, x, y - 1);
    }
}

/// The longest common subsequence of two endings is no longer than that
/// of the whole.
pub proof fn lemma_len_chain<T>(a: Seq<T>, b: Seq<T>, x: int, y: int)
    requires
        0 <= x <= a.len(),
        0 <= y <= b.len(),
    ensures
        lcs_len(a, b, x, y) <= lcs_len(a, b, 0, 0),
    decreases x + y,
{
    if x > 0 {
        lemma_len_chain(a, b, x - 1, y);
        lemma_len_steps(a, b, x - 1, y);
    } else if y > 0 {
        lemma_len_chain(a, b, x, y - 1);
        lemma_len_steps(a, b, x, y - 1);
    }
}

/// See `lemma_pre_plus_len`: against the longest common subsequence as
/// counted from the end.
pub proof fn lemma_pre_plus_len_up<T>(a: Seq<T>, b: Seq<T>, x: int, y: int)
    requires
        0 <= x <= a.len(),
        0 <= y <= b.len(),
    ensures
        lcs_pre(a, b, x, y) + lcs_len(a, b, x, y) <= lcs_pre(a, b, a.len() as int, b.len() as int),
    decreases a.len() - x + b.len() - y,
{
    if x == a.len() || y == b.len() {
        lemma_pre_chain(a, b, x, y);
    } else if a[x] == b[y] {
        lemma_pre_plus_len_up(a, b, x + 1, y + 1);
    } else {
        lemma_pre_steps(a, b, x, y);
        lemma_pre_plus_len_up(a, b, x + 1, y);
        lemma_pre_plus_len_up(a, b, x, y + 1);
    }
}

/// The longest common subsequence of two beginnings is no longer than
/// that of the whole.
pub proof fn lemma_pre_chain<T>(a: Seq<T>, b: Seq<T>, x: int, y: int)
    requires
        0 <= x <= a.len(),
        0 <= y <= b.len(),
    ensures
        lcs_pre(a, b, x, y) <= lcs_pre(a, b, a.len() as int, b.len() as int),
    decreases a.len() - x + b.len() - y,
{
    if x < a.len() {
        lemma_pre_chain(a, b, x + 1, y);
        lemma_pre_steps(a, b, x, y);
    } else if y < b.len() {
        lemma_pre_chain(a, b, x, y + 1);
        lemma_pre_steps(a, b, x, y);
    }
}

/// Counted from the start or from the end, the longest common subsequence
/// of two sequences has the same length.
pub proof fn lemma_pre_is_len<T>(a: Seq<T>, b: Seq<T>)
    ensures
        lcs_pre(a, b, a.len() as int, b.len() as int) == lcs_len(a, b, 0, 0),
{
    lemma_pre_plus_len(a, b, 0, 0);
    lemma_pre_plus_len(a, b, a.len() as int, b.len() as int);
    assert(lcs_pre(a, b, 0, 0) == 0);
    assert(lcs_len(a, b, a.len() as int, b.len() as int) == 0);
}

/// Beyond the two sequences the distance grows with every step along the
/// diagonal.
pub proof fn lemma_dist_beyond<T>(a: Seq<T>, b: Seq<T>, x: int, y: int)
    requires
        x >= a.len(),
        y >= b.len(),
    ensures
        dist(a, b, x + 1, y + 1) == dist(a, b, x, y) + 2,
{
    lemma_pre_beyond(a, b, x + 1, y + 1);
    lemma_pre_beyond(a, b, x, y);
}

/// Beyond the two sequences the longest common subsequence of the
/// beginnings is that of the sequences.
pub proof fn lemma_pre_beyond<T>(a: Seq<T>, b: Seq<T>, x: int, y: int)
    requires
        x >= a.len(),
        y >= b.len(),
    ensures
        lcs_pre(a, b, x, y) == lcs_pre(a, b, a.len() as int, b.len() as int),
    decreases x + y,
{
    if x > a.len() {
        lemma_pre_beyond_side(a, b, x, y);
        lemma_pre_beyond_side(a, b, x - 1, y);
        lemma_pre_beyond(a, b, x - 1, y);
    } else if y > b.len() {
        lemma_pre_beyond_side(a, b, x, y);
        lemma_pre_beyond_side(a, b, x, y - 1);
        lemma_pre_beyond(a, b, x, y - 1);
    }
}

/// Elements beyond the end of one sequence add nothing to the longest
/// common subsequence of the beginnings.
pub proof fn lemma_pre_beyond_side<T>(a: Seq<T>, b: Seq<T>, x: int, y: int)
    requires
        0 <= x,
        0 <= y,
    ensures
        x >= a.len() ==> lcs_pre(a, b, x, y) == lcs_pre(a, b, a.len() as int, y),
        y >= b.len() ==> lcs_pre(a, b, x, y) == lcs_pre(a, b, x, b.len() as int),
    decreases x + y,
{
    if x > a.len() && y > 0 {
        lemma_pre_beyond_side(a, b, x - 1, y);
        lemma_pre_beyond_side(a, b, x, y - 1);
        lemma_pre_steps(a, b, x - 1, y - 1);
        lemma_pre_steps(a, b, a.len() as int, y - 1);
    }
    if y > b.len() && x > 0 {
        lemma_pre_beyond_side(a, b, x, y - 1);
        lemma_pre_beyond_side(a, b, x - 1, y);
        lemma_pre_steps(a, b, x - 1, y - 1);
        lemma_pre_steps(a, b, x - 1, b.len() as int);
    }
}

/// Steps right and down add at most their number to the distance.
pub proof fn lemma_dist_walk<T>(a: Seq<T>, b: Seq<T>, x: int, y: int, dx: int, dy: int)
    requires
        0 <= x,
        0 <= y,
        0 <= dx,
        0 <= dy,
    ensures
        dist(a, b, x + dx, y + dy) <= dist(a, b, x, y) + dx + dy,
    decreases dx + dy,
{
    if dx > 0 {
        lemma_dist_walk(a, b, x, y, dx - 1, dy);
        lemma_dist_steps(a, b, x + dx - 1, y + dy);
    } else if dy > 0 {
        lemma_dist_walk(a, b, x, y, dx, dy - 1);
        lemma_dist_steps(a, b, x + dx, y + dy - 1);
    }
}

/// The first `k` hunks of an edit script cost no less than the distance
/// of the point where they end.
pub proof fn lemma_script_reaches<T>(a: Seq<T>, b: Seq<T>, s: Seq<Hunk>, k: int)
    requires
        script_valid(a, b, s),
        0 <= k <= s.len(),
    ensures
        0 <= prev_base_end(s, k),
        0 <= prev_other_end(s, k),
        dist(a, b, prev_base_end(s, k), prev_other_end(s, k)) <= script_cost(s.take(k)),
    decreases k,
{
    if k == 0 {
        assert(lcs_pre(a, b, 0, 0) == 0);
        assert(s.take(0) =~= Seq::<Hunk>::empty());
    } else {
        lemma_script_reaches(a, b, s, k - 1);
        let h = s[k - 1];
        assert(hunk_valid(a, b, s, k - 1));
        let pa = prev_base_end(s, k - 1);
        let pb = prev_other_end(s, k - 1);
        let gap = h.base_start - pa;
        assert forall|t: int| pa <= t < pa + gap implies #[trigger] cell_matches(a, b, t, t - (pa - pb)) by {
            assert(a[pa + (t - pa)] == b[pb + (t - pa)]);
        }
        lemma_snake_keeps_dist(a, b, pa - pb, pa, pa + gap);
        lemma_dist_walk(a, b, h.base_start as int, h.other_start as int, h.base_len as int, h.other_len as int);
        assert(s.take(k).drop_last() =~= s.take(k - 1));
        assert(s.take(k).last() == h);
    }
}

/// No edit script from `a` to `b` removes and inserts fewer elements than
/// all but those of a longest common subsequence.
pub proof fn lemma_script_cost_bound<T>(a: Seq<T>, b: Seq<T>, s: Seq<Hunk>)
    requires
        script_valid(a, b, s),
    ensures
        script_cost(s) >= a.len() + b.len() - 2 * lcs_len(a, b, 0, 0),
{
    let k = s.len() as int;
    lemma_script_reaches(a, b, s, k);
    assert(s.take(k) =~= s);
    let pa = prev_base_end(s, k);
    let pb = prev_other_end(s, k);
    let gap = a.len() - pa;
    assert forall|t: int| pa <= t < pa + gap implies #[trigger] cell_matches(a, b, t, t - (pa - pb)) by {
        assert(a[pa + (t - pa)] == b[pb + (t - pa)]);
    }
    lemma_snake_keeps_dist(a, b, pa - pb, pa, pa + gap);
    lemma_pre_is_len(a, b);
}

} // verus!
