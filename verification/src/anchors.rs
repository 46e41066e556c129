//! What the anchor-based searches share: common beginnings and endings of
//! a box, runs of pairs, and where the elements of a box occur.

use vstd::prelude::*;
use crate::maximal::{box_maximal, lemma_maximal_run};
use crate::script::{
    bounded_by, box_post, box_pre, extends_within, is_alignment, lemma_box_post_chain, push_match,
    runs_equal,
};

verus! {

/// Every element of `s` is below `count`.
pub open spec fn ids_below(s: Seq<usize>, count: int) -> bool {
    forall|i: int| 0 <= i < s.len() ==> #[trigger] s[i] < count
}

/// A single pair added behind an alignment extends it within the box of
/// that pair.
pub proof fn lemma_push_extends(ms: Seq<(usize, usize)>, i: usize, j: usize)
    ensures
        extends_within(ms, ms.push((i, j)), i as int, i + 1, j as int, j + 1),
{
    assert(ms.push((i, j)).subrange(0, ms.len() as int) =~= ms);
}

/// An alignment extends itself within any box.
pub proof fn lemma_extends_self(ms: Seq<(usize, usize)>, alo: int, ahi: int, blo: int, bhi: int)
    ensures
        extends_within(ms, ms, alo, ahi, blo, bhi),
{
    assert(ms.subrange(0, ms.len() as int) =~= ms);
}

/// Adds the pairs `(pa, pb), (pa + 1, pb + 1), ...` of a run of `len` equal elements.
pub fn push_run(a: &Vec<usize>, b: &Vec<usize>, ms: &mut Vec<(usize, usize)>, pa: usize, pb: usize, len: usize)
    requires
        is_alignment(a@, b@, old(ms)@),
        bounded_by(old(ms)@, pa as int, pb as int),
        pa + len <= a@.len(),
        pb + len <= b@.len(),
        runs_equal(a@, b@, pa as int, pb as int, len as int),
    ensures
        is_alignment(a@, b@, final(ms)@),
        bounded_by(final(ms)@, pa + len, pb + len),
        extends_within(old(ms)@, final(ms)@, pa as int, pa + len, pb as int, pb + len),
        final(ms)@.len() == old(ms)@.len() + len,
        forall|k: int|
            old(ms)@.len() <= k < final(ms)@.len() ==> #[trigger] final(ms)@[k] == (
                (pa + (k - old(ms)@.len())) as usize,
                (pb + (k - old(ms)@.len())) as usize,
            ),
        box_maximal(a@, b@, final(ms)@, old(ms)@.len() as int, pa as int, pa + len, pb as int, pb + len),
{
    let mut t: usize = 0;
    let alen: usize = a.len();
    let blen: usize = b.len();
    proof {
        lemma_extends_self(ms@, pa as int, pa as int, pb as int, pb as int);
    }
    while t < len
        invariant
            t <= len,
            pa + len <= alen,
            pb + len <= blen,
            pa + len <= a@.len(),
            pb + len <= b@.len(),
            runs_equal(a@, b@, pa as int, pb as int, len as int),
            is_alignment(a@, b@, ms@),
            bounded_by(ms@, pa + t, pb + t),
            extends_within(old(ms)@, ms@, pa as int, pa + t, pb as int, pb + t),
            ms@.len() == old(ms)@.len() + t,
            forall|k: int|
                old(ms)@.len() <= k < ms@.len() ==> #[trigger] ms@[k] == (
                    (pa + (k - old(ms)@.len())) as usize,
                    (pb + (k - old(ms)@.len())) as usize,
                ),
        decreases len - t,
    {
        let ghost before = ms@;
        assert(a@[pa + t] == b@[pb + t]);
        push_match(a, b, ms, pa + t, pb + t);
        proof {
            lemma_push_extends(before, (pa + t) as usize, (pb + t) as usize);
            lemma_box_post_chain(
                a@,
                b@,
                old(ms)@,
                before,
                ms@,
                pa as int,
                pa + t,
                pa + t + 1,
                pb as int,
                pb + t,
                pb + t + 1,
            );
        }
        t += 1;
    }
    proof {
        lemma_maximal_run(
            a@,
            b@,
            old(ms)@,
            ms@,
            old(ms)@.len() as int,
            pa as int,
            pa as int,
            pb as int,
            pb as int,
            len as int,
        );
    }
}

/// Adds the pairs of the longest common beginning of the box and returns
/// its length.
pub fn trim_prefix(
    a: &Vec<usize>,
    b: &Vec<usize>,
    alo: usize,
    ahi: usize,
    blo: usize,
    bhi: usize,
    ms: &mut Vec<(usize, usize)>,
) -> (p: usize)
    requires
        box_pre(a@, b@, old(ms)@, alo as int, ahi as int, blo as int, bhi as int),
    ensures
        alo + p <= ahi,
        blo + p <= bhi,
        box_post(a@, b@, old(ms)@, final(ms)@, alo as int, alo + p, blo as int, blo + p),
        final(ms)@.len() == old(ms)@.len() + p,
        forall|k: int|
            old(ms)@.len() <= k < final(ms)@.len() ==> #[trigger] final(ms)@[k] == (
                (alo + (k - old(ms)@.len())) as usize,
                (blo + (k - old(ms)@.len())) as usize,
            ),
        runs_equal(a@, b@, alo as int, blo as int, p as int),
        alo + p == ahi || blo + p == bhi || a@[alo + p] != b@[blo + p],
        box_maximal(a@, b@, final(ms)@, old(ms)@.len() as int, alo as int, alo + p, blo as int, blo + p),
{
    let mut p: usize = 0;
    while alo + p < ahi && blo + p < bhi && a[alo + p] == b[blo + p]
        invariant
            alo <= ahi <= a@.len(),
            blo <= bhi <= b@.len(),
            alo + p <= ahi,
            blo + p <= bhi,
            runs_equal(a@, b@, alo as int, blo as int, p as int),
        decreases ahi - alo - p,
    {
        p += 1;
    }
    push_run(a, b, ms, alo, blo, p);
    p
}

/// The length of the longest common ending of the box.
pub fn suffix_len(a: &Vec<usize>, b: &Vec<usize>, alo: usize, ahi: usize, blo: usize, bhi: usize) -> (q:
    usize)
    requires
        alo <= ahi <= a@.len(),
        blo <= bhi <= b@.len(),
    ensures
        alo + q <= ahi,
        blo + q <= bhi,
        runs_equal(a@, b@, ahi - q, bhi - q, q as int),
        alo + q == ahi || blo + q == bhi || a@[ahi - q - 1] != b@[bhi - q - 1],
{
    let mut q: usize = 0;
    while alo + q < ahi && blo + q < bhi && a[ahi - q - 1] == b[bhi - q - 1]
        invariant
            alo <= ahi <= a@.len(),
            blo <= bhi <= b@.len(),
            alo + q <= ahi,
            blo + q <= bhi,
            runs_equal(a@, b@, ahi - q, bhi - q, q as int),
        decreases ahi - alo - q,
    {
        proof {
            assert forall|t: int| 0 <= t < q + 1 implies #[trigger] a@[ahi - (q + 1) + t] == b@[bhi - (q + 1)
                + t] by {
                if t > 0 {
                    assert(a@[ahi - q + (t - 1)] == b@[bhi - q + (t - 1)]);
                }
            }
        }
        q += 1;
    }
    q
}

/// How often `id` occurs in `s[lo..hi]`.
pub open spec fn count_in(s: Seq<usize>, lo: int, hi: int, id: int) -> nat
    decreases hi - lo,
{
    if hi <= lo {
        0
    } else {
        count_in(s, lo, hi - 1, id) + if s[hi - 1] == id {
            1nat
        } else {
            0nat
        }
    }
}

/// `at` is the first place of `s[lo..hi]` that holds `id`.
pub open spec fn is_first(s: Seq<usize>, lo: int, hi: int, id: int, at: int) -> bool {
    &&& lo <= at < hi
    &&& s[at] == id
    &&& forall|i: int| lo <= i < at ==> #[trigger] s[i] != id
}

/// An element occurs as often as there are places, at most, and at least
/// once where a place holds it.
pub proof fn lemma_count_in_bounds(s: Seq<usize>, lo: int, hi: int, id: int)
    requires
        lo <= hi,
    ensures
        count_in(s, lo, hi, id) <= hi - lo,
        forall|i: int| lo <= i < hi && #[trigger] s[i] == id ==> count_in(s, lo, hi, id) > 0,
        count_in(s, lo, hi, id) > 0 ==> exists|i: int| lo <= i < hi && #[trigger] s[i] == id,
    decreases hi - lo,
{
    if lo < hi {
        lemma_count_in_bounds(s, lo, hi - 1, id);
        if s[hi - 1] != id && count_in(s, lo, hi, id) > 0 {
            let i = choose|i: int| lo <= i < hi - 1 && #[trigger] s[i] == id;
            assert(lo <= i < hi && s[i] == id);
        }
    }
}

/// Counts, for every element below `count`, how often it occurs in
/// `s[lo..hi]`, and finds where it occurs first.
pub fn occurrences(s: &Vec<usize>, lo: usize, hi: usize, count: usize) -> (r: (Vec<usize>, Vec<usize>))
    requires
        lo <= hi <= s@.len(),
        ids_below(s@, count as int),
    ensures
        r.0@.len() == count,
        r.1@.len() == count,
        forall|id: int| 0 <= id < count ==> (#[trigger] r.0@[id]) == count_in(s@, lo as int, hi as int, id),
        forall|id: int|
            0 <= id < count && (#[trigger] r.0@[id]) > 0 ==> is_first(s@, lo as int, hi as int, id, r.1@[id] as int),
{
    let mut counts: Vec<usize> = Vec::new();
    let mut first: Vec<usize> = Vec::new();
    let mut f: usize = 0;
    while f < count
        invariant
            f <= count,
            counts@.len() == f,
            first@.len() == f,
            forall|id: int| 0 <= id < f ==> (#[trigger] counts@[id]) == 0,
        decreases count - f,
    {
        counts.push(0);
        first.push(0);
        f += 1;
    }
    let mut i: usize = lo;
    while i < hi
        invariant
            lo <= i <= hi <= s@.len(),
            ids_below(s@, count as int),
            counts@.len() == count,
            first@.len() == count,
            forall|id: int| 0 <= id < count ==> (#[trigger] counts@[id]) == count_in(s@, lo as int, i as int, id),
            forall|id: int|
                0 <= id < count && (#[trigger] counts@[id]) > 0 ==> is_first(
                    s@,
                    lo as int,
                    i as int,
                    id,
                    first@[id] as int,
                ),
        decreases hi - i,
    {
        let id: usize = s[i];
        assert(s@[i as int] < count);
        let c: usize = counts[id];
        proof {
            lemma_count_in_bounds(s@, lo as int, i as int, id as int);
        }
        let ghost old_counts = counts@;
        let ghost old_first = first@;
        if c == 0 {
            first.set(id, i);
        }
        counts.set(id, c + 1);
        proof {
            assert forall|other: int| 0 <= other < count implies (#[trigger] counts@[other]) == count_in(
                s@,
                lo as int,
                i + 1,
                other,
            ) by {
                assert(old_counts[other] == count_in(s@, lo as int, i as int, other));
            }
            assert forall|other: int| 0 <= other < count && (#[trigger] counts@[other]) > 0 implies is_first(
                s@,
                lo as int,
                i + 1,
                other,
                first@[other] as int,
            ) by {
                if other == id {
                    if c == 0 {
                        lemma_count_in_bounds(s@, lo as int, i as int, id as int);
                        assert forall|k: int| lo <= k < i implies #[trigger] s@[k] != id by {
                            if s@[k] == id {
                                assert(count_in(s@, lo as int, i as int, id as int) > 0);
                            }
                        }
                    } else {
                        assert(old_counts[other] > 0);
                        assert(is_first(s@, lo as int, i as int, other, old_first[other] as int));
                    }
                } else {
                    assert(old_counts[other] > 0);
                    assert(is_first(s@, lo as int, i as int, other, old_first[other] as int));
                }
            }
        }
        i += 1;
    }
    (counts, first)
}

} // verus!
