//! Alignments to which no pair can be added.
//!
//! A pair of places that hold equal elements can be added to an alignment
//! only where every pair of the alignment lies before it on both sides or
//! behind it on both sides. A pair of the alignment that does neither
//! blocks it. An alignment is maximal on a box where every pair of equal
//! elements of the box is blocked; its edit script then holds no hunk that
//! could be made smaller by keeping an element that both sides of it hold.

use vstd::prelude::*;
use crate::edit_graph::lemma_len_steps;
use crate::lcs::lemma_alignment_bound;
use crate::script::{extends_within, is_alignment, lcs_len, pair_avoids, Hunk};

verus! {

/// The pair `p` lies neither before the place `(i, j)` on both sides nor
/// behind it on both sides.
pub open spec fn blocks(p: (usize, usize), i: int, j: int) -> bool {
    !(p.0 < i && p.1 < j) && !(p.0 > i && p.1 > j)
}

/// The places `i` of `a` and `j` of `b` hold equal elements.
pub open spec fn common_at<T>(a: Seq<T>, b: Seq<T>, i: int, j: int) -> bool {
    0 <= i < a.len() && 0 <= j < b.len() && a[i] == b[j]
}

/// One of the pairs of `ms` from the place `from` on blocks `(i, j)`.
pub open spec fn blocked(ms: Seq<(usize, usize)>, from: int, i: int, j: int) -> bool {
    exists|k: int| from <= k < ms.len() && blocks(#[trigger] ms[k], i, j)
}

/// Every pair of equal elements of the box `[alo, ahi) x [blo, bhi)` is
/// blocked by a pair of `ms` from the place `from` on.
pub open spec fn box_maximal<T>(
    a: Seq<T>,
    b: Seq<T>,
    ms: Seq<(usize, usize)>,
    from: int,
    alo: int,
    ahi: int,
    blo: int,
    bhi: int,
) -> bool {
    forall|i: int, j: int|
        alo <= i < ahi && blo <= j < bhi && #[trigger] common_at(a, b, i, j) ==> blocked(ms, from, i, j)
}

/// No hunk of the script holds, on its two sides, a pair of equal elements.
pub open spec fn script_tight<T>(a: Seq<T>, b: Seq<T>, s: Seq<Hunk>) -> bool {
    forall|k: int, i: int, j: int|
        0 <= k < s.len() && (#[trigger] s[k]).base_start <= i < s[k].base_end() && s[k].other_start <= j
            < s[k].other_end() ==> !#[trigger] common_at(a, b, i, j)
}

/// What is blocked stays blocked when pairs are added behind.
pub proof fn lemma_blocked_extends(
    old_ms: Seq<(usize, usize)>,
    new_ms: Seq<(usize, usize)>,
    from: int,
    i: int,
    j: int,
)
    requires
        blocked(old_ms, from, i, j),
        0 <= from,
        old_ms.len() <= new_ms.len(),
        new_ms.subrange(0, old_ms.len() as int) == old_ms,
    ensures
        blocked(new_ms, from, i, j),
{
    let k = choose|k: int| from <= k < old_ms.len() && blocks(#[trigger] old_ms[k], i, j);
    assert(new_ms.subrange(0, old_ms.len() as int)[k] == new_ms[k]);
    assert(blocks(new_ms[k], i, j));
}

/// A box that holds no pair of equal elements is maximal with any alignment.
pub proof fn lemma_maximal_without_common<T>(
    a: Seq<T>,
    b: Seq<T>,
    ms: Seq<(usize, usize)>,
    from: int,
    alo: int,
    ahi: int,
    blo: int,
    bhi: int,
)
    requires
        forall|i: int, j: int| alo <= i < ahi && blo <= j < bhi ==> !#[trigger] common_at(a, b, i, j),
    ensures
        box_maximal(a, b, ms, from, alo, ahi, blo, bhi),
{
}

/// A maximal alignment on a box, with a pair added at the far corner of
/// the box, is maximal on the box that reaches behind that pair.
pub proof fn lemma_maximal_push<T>(
    a: Seq<T>,
    b: Seq<T>,
    ms: Seq<(usize, usize)>,
    from: int,
    alo: int,
    blo: int,
    i: usize,
    j: usize,
)
    requires
        0 <= from <= ms.len(),
        box_maximal(a, b, ms, from, alo, i as int, blo, j as int),
    ensures
        box_maximal(a, b, ms.push((i, j)), from, alo, i + 1, blo, j + 1),
{
    let more = ms.push((i, j));
    assert forall|x: int, y: int|
        alo <= x < i + 1 && blo <= y < j + 1 && #[trigger] common_at(a, b, x, y) implies blocked(
        more,
        from,
        x,
        y,
    ) by {
        if x < i && y < j {
            assert(more.subrange(0, ms.len() as int) =~= ms);
            lemma_blocked_extends(ms, more, from, x, y);
        } else {
            assert(blocks(more[ms.len() as int], x, y));
        }
    }
}

/// A maximal alignment on a box, followed by pairs that are maximal on
/// the box behind it, is maximal on the box that holds both, where the
/// first box is empty or ends with a pair at its far corner.
pub proof fn lemma_maximal_chain<T>(
    a: Seq<T>,
    b: Seq<T>,
    m1: Seq<(usize, usize)>,
    m2: Seq<(usize, usize)>,
    from: int,
    alo: int,
    amid: int,
    ahi: int,
    blo: int,
    bmid: int,
    bhi: int,
)
    requires
        0 <= from <= m1.len() <= m2.len(),
        m2.subrange(0, m1.len() as int) == m1,
        alo <= amid <= ahi,
        blo <= bmid <= bhi,
        box_maximal(a, b, m1, from, alo, amid, blo, bmid),
        box_maximal(a, b, m2, m1.len() as int, amid, ahi, bmid, bhi),
        (alo == amid && blo == bmid) || (m1.len() > from && m1.last().0 == amid - 1 && m1.last().1 == bmid - 1),
    ensures
        box_maximal(a, b, m2, from, alo, ahi, blo, bhi),
{
    assert forall|x: int, y: int|
        alo <= x < ahi && blo <= y < bhi && #[trigger] common_at(a, b, x, y) implies blocked(m2, from, x, y) by {
        if x < amid && y < bmid {
            lemma_blocked_extends(m1, m2, from, x, y);
        } else if x >= amid && y >= bmid {
            let k = choose|k: int| m1.len() <= k < m2.len() && blocks(#[trigger] m2[k], x, y);
            assert(blocks(m2[k], x, y));
        } else {
            let k = m1.len() - 1;
            assert(m2.subrange(0, m1.len() as int)[k] == m2[k]);
            assert(blocks(m2[k], x, y));
        }
    }
}

/// A maximal alignment on a box, followed by a run of pairs along the
/// diagonal from the far corner of the box, is maximal on the box that
/// holds both.
pub proof fn lemma_maximal_run<T>(
    a: Seq<T>,
    b: Seq<T>,
    m1: Seq<(usize, usize)>,
    m2: Seq<(usize, usize)>,
    from: int,
    alo: int,
    amid: int,
    blo: int,
    bmid: int,
    len: int,
)
    requires
        0 <= from <= m1.len(),
        m2.len() == m1.len() + len,
        m2.subrange(0, m1.len() as int) == m1,
        alo <= amid,
        blo <= bmid,
        0 <= len,
        box_maximal(a, b, m1, from, alo, amid, blo, bmid),
        forall|k: int|
            m1.len() <= k < m2.len() ==> (#[trigger] m2[k]).0 == amid + (k - m1.len()) && m2[k].1 == bmid + (k
                - m1.len()),
    ensures
        box_maximal(a, b, m2, from, alo, amid + len, blo, bmid + len),
{
    assert forall|x: int, y: int|
        alo <= x < amid + len && blo <= y < bmid + len && #[trigger] common_at(a, b, x, y) implies blocked(
        m2,
        from,
        x,
        y,
    ) by {
        if x >= amid {
            let k = m1.len() + (x - amid);
            assert(blocks(m2[k], x, y));
        } else if y >= bmid {
            let k = m1.len() + (y - bmid);
            assert(blocks(m2[k], x, y));
        } else {
            lemma_blocked_extends(m1, m2, from, x, y);
        }
    }
}

/// An alignment to which a pair of equal elements can be added is shorter
/// than a longest common subsequence.
pub proof fn lemma_room_for_one<T>(a: Seq<T>, b: Seq<T>, ms: Seq<(usize, usize)>, i0: int, j0: int, i: int, j: int)
    requires
        is_alignment(a, b, ms),
        0 <= i0 <= i,
        0 <= j0 <= j,
        common_at(a, b, i, j),
        forall|k: int| 0 <= k < ms.len() ==> (#[trigger] ms[k]).0 >= i0 && ms[k].1 >= j0,
        forall|k: int| 0 <= k < ms.len() ==> !blocks(#[trigger] ms[k], i, j),
    ensures
        ms.len() + 1 <= lcs_len(a, b, i0, j0),
    decreases a.len() - i0, b.len() - j0,
{
    lemma_len_steps(a, b, i0, j0);
    if ms.len() > 0 && ms[0].0 == i0 && ms[0].1 == j0 {
        assert(!blocks(ms[0], i, j));
        let rest = ms.drop_first();
        assert(is_alignment(a, b, rest)) by {
            assert forall|k: int| 0 <= k < rest.len() implies (#[trigger] rest[k]).0 < a.len() && rest[k].1
                < b.len() && a[rest[k].0 as int] == b[rest[k].1 as int] by {
                assert(rest[k] == ms[k + 1]);
            }
            assert forall|k: int, l: int| 0 <= k < l < rest.len() implies (#[trigger] rest[k]).0 < (
            #[trigger] rest[l]).0 && rest[k].1 < rest[l].1 by {
                assert(rest[k] == ms[k + 1]);
                assert(rest[l] == ms[l + 1]);
            }
        }
        assert forall|k: int| 0 <= k < rest.len() implies (#[trigger] rest[k]).0 >= i0 + 1 && rest[k].1 >= j0
            + 1 by {
            assert(rest[k] == ms[k + 1]);
            assert(ms[0].0 < ms[k + 1].0);
        }
        assert forall|k: int| 0 <= k < rest.len() implies !blocks(#[trigger] rest[k], i, j) by {
            assert(rest[k] == ms[k + 1]);
        }
        lemma_room_for_one(a, b, rest, i0 + 1, j0 + 1, i, j);
    } else if i == i0 && j == j0 {
        assert forall|k: int| 0 <= k < ms.len() implies (#[trigger] ms[k]).0 >= i0 + 1 && ms[k].1 >= j0 + 1 by {
            assert(!blocks(ms[k], i, j));
        }
        lemma_alignment_bound(a, b, ms, i0 + 1, j0 + 1);
    } else {
        // Neither the first pair nor the place to add lies at the corner.
        let rows_free = i > i0 && (ms.len() == 0 || ms[0].0 > i0);
        let columns_free = j > j0 && (ms.len() == 0 || ms[0].1 > j0);
        assert(rows_free || columns_free) by {
            if ms.len() > 0 {
                assert(!blocks(ms[0], i, j));
            }
        }
        if rows_free {
            assert forall|k: int| 0 <= k < ms.len() implies (#[trigger] ms[k]).0 >= i0 + 1 && ms[k].1 >= j0 by {
                if k > 0 {
                    assert(ms[0].0 < ms[k].0);
                }
            }
            lemma_room_for_one(a, b, ms, i0 + 1, j0, i, j);
        } else {
            assert forall|k: int| 0 <= k < ms.len() implies (#[trigger] ms[k]).0 >= i0 && ms[k].1 >= j0 + 1 by {
                if k > 0 {
                    assert(ms[0].1 < ms[k].1);
                }
            }
            lemma_room_for_one(a, b, ms, i0, j0 + 1, i, j);
        }
    }
}

/// Pairs of a box that are as many as a longest common subsequence of the
/// two sides of the box has elements are maximal on the box.
pub proof fn lemma_longest_is_maximal(
    a: Seq<usize>,
    b: Seq<usize>,
    old_ms: Seq<(usize, usize)>,
    ms: Seq<(usize, usize)>,
    alo: int,
    ahi: int,
    blo: int,
    bhi: int,
)
    requires
        0 <= alo <= ahi <= a.len(),
        0 <= blo <= bhi <= b.len(),
        is_alignment(a, b, ms),
        extends_within(old_ms, ms, alo, ahi, blo, bhi),
        ms.len() - old_ms.len() == lcs_len(a.subrange(alo, ahi), b.subrange(blo, bhi), 0, 0),
    ensures
        box_maximal(a, b, ms, old_ms.len() as int, alo, ahi, blo, bhi),
{
    let la = a.subrange(alo, ahi);
    let lb = b.subrange(blo, bhi);
    let from = old_ms.len() as int;
    let rel = Seq::new(
        (ms.len() - from) as nat,
        |k: int| ((ms[from + k].0 - alo) as usize, (ms[from + k].1 - blo) as usize),
    );
    assert(is_alignment(la, lb, rel)) by {
        assert forall|k: int| 0 <= k < rel.len() implies (#[trigger] rel[k]).0 < la.len() && rel[k].1 < lb.len()
            && la[rel[k].0 as int] == lb[rel[k].1 as int] by {
            let p = ms[from + k];
            assert(alo <= p.0 < ahi && blo <= p.1 < bhi);
            assert(a[p.0 as int] == b[p.1 as int]);
        }
        assert forall|k: int, l: int| 0 <= k < l < rel.len() implies (#[trigger] rel[k]).0 < (#[trigger] rel[l]).0
            && rel[k].1 < rel[l].1 by {
            let p = ms[from + k];
            let q = ms[from + l];
            assert(alo <= p.0 < ahi && blo <= p.1 < bhi);
            assert(alo <= q.0 < ahi && blo <= q.1 < bhi);
            assert(p.0 < q.0 && p.1 < q.1);
        }
    }
    assert forall|i: int, j: int|
        alo <= i < ahi && blo <= j < bhi && #[trigger] common_at(a, b, i, j) implies blocked(ms, from, i, j) by {
        if !blocked(ms, from, i, j) {
            assert(common_at(la, lb, i - alo, j - blo));
            assert forall|k: int| 0 <= k < rel.len() implies !blocks(#[trigger] rel[k], i - alo, j - blo) by {
                let p = ms[from + k];
                assert(alo <= p.0 < ahi && blo <= p.1 < bhi);
                assert(!blocks(p, i, j));
            }
            lemma_room_for_one(la, lb, rel, 0, 0, i - alo, j - blo);
        }
    }
}

/// The edit script of a maximal alignment is tight.
pub proof fn lemma_maximal_gives_tight<T>(a: Seq<T>, b: Seq<T>, ms: Seq<(usize, usize)>, s: Seq<Hunk>)
    requires
        box_maximal(a, b, ms, 0, 0, a.len() as int, 0, b.len() as int),
        forall|k: int, j: int| 0 <= k < ms.len() && 0 <= j < s.len() ==> pair_avoids(#[trigger] ms[k], #[trigger] s[j]),
    ensures
        script_tight(a, b, s),
{
    assert forall|k: int, i: int, j: int|
        0 <= k < s.len() && (#[trigger] s[k]).base_start <= i < s[k].base_end() && s[k].other_start <= j
            < s[k].other_end() implies !#[trigger] common_at(a, b, i, j) by {
        if common_at(a, b, i, j) {
            assert(blocked(ms, 0, i, j));
            let w = choose|w: int| 0 <= w < ms.len() && blocks(#[trigger] ms[w], i, j);
            assert(pair_avoids(ms[w], s[k]));
        }
    }
}

/// A tight script between two sequences is tight between any two
/// sequences with the same pattern of equal elements.
pub proof fn lemma_tight_transfer<S, T>(ia: Seq<S>, ib: Seq<S>, la: Seq<T>, lb: Seq<T>, s: Seq<Hunk>)
    requires
        ia.len() == la.len(),
        ib.len() == lb.len(),
        forall|x: int, y: int|
            0 <= x < ia.len() && 0 <= y < ib.len() ==> ((#[trigger] ia[x] == #[trigger] ib[y]) <==> la[x] == lb[y]),
        script_tight(ia, ib, s),
    ensures
        script_tight(la, lb, s),
{
    assert forall|k: int, i: int, j: int|
        0 <= k < s.len() && (#[trigger] s[k]).base_start <= i < s[k].base_end() && s[k].other_start <= j
            < s[k].other_end() implies !#[trigger] common_at(la, lb, i, j) by {
        if common_at(la, lb, i, j) {
            assert((ia[i] == ib[j]) <==> la[i] == lb[j]);
            assert(common_at(ia, ib, i, j));
        }
    }
}

} // verus!
