//! The patience search: elements that occur exactly once on both sides
//! anchor the alignment, and the stretches between anchors are searched in
//! the same way.

use vstd::prelude::*;
use crate::anchors::{
    count_in, ids_below, is_first, lemma_extends_self, lemma_push_extends, occurrences, push_run, suffix_len,
    trim_prefix,
};
use crate::maximal::{
    box_maximal, lemma_maximal_chain, lemma_maximal_push, lemma_maximal_run, lemma_maximal_without_common,
};
use crate::myers::myers_box;
use crate::script::{
    bounded_by, box_post, box_pre, extends_within, is_alignment, lemma_bounded_by_weaken,
    lemma_box_post_chain, push_match,
};

verus! {

/// Candidate pairs of the box `[alo, ahi) x [blo, bhi)`: each holds equal
/// elements, and their places on the first side rise strictly.
pub open spec fn candidates_ok(
    a: Seq<usize>,
    b: Seq<usize>,
    alo: int,
    ahi: int,
    blo: int,
    bhi: int,
    cs: Seq<(usize, usize)>,
) -> bool {
    &&& forall|k: int|
        0 <= k < cs.len() ==> alo <= (#[trigger] cs[k]).0 < ahi && blo <= cs[k].1 < bhi && a[cs[k].0 as int]
            == b[cs[k].1 as int]
    &&& forall|k: int, l: int| 0 <= k < l < cs.len() ==> (#[trigger] cs[k]).0 < (#[trigger] cs[l]).0
}

/// Indices into `cs`, falling strictly, whose pairs also fall strictly on
/// the second side.
pub open spec fn chain_ok(cs: Seq<(usize, usize)>, chain: Seq<usize>) -> bool {
    &&& forall|k: int| 0 <= k < chain.len() ==> #[trigger] chain[k] < cs.len()
    &&& forall|k: int, l: int|
        0 <= k < l < chain.len() ==> (#[trigger] chain[l]) < (#[trigger] chain[k]) && cs[chain[l] as int].1
            < cs[chain[k] as int].1
}

/// The element `id` occurs exactly once in `a[alo..ahi]` and exactly once
/// in `b[blo..bhi]`.
pub open spec fn single_on_both(
    a: Seq<usize>,
    b: Seq<usize>,
    alo: int,
    ahi: int,
    blo: int,
    bhi: int,
    id: int,
) -> bool {
    count_in(a, alo, ahi, id) == 1 && count_in(b, blo, bhi, id) == 1
}

/// The candidates are the pairs of the elements that are single on both
/// sides of the box, all of them.
pub open spec fn anchors_are(
    a: Seq<usize>,
    b: Seq<usize>,
    alo: int,
    ahi: int,
    blo: int,
    bhi: int,
    cs: Seq<(usize, usize)>,
) -> bool {
    &&& forall|k: int|
        0 <= k < cs.len() ==> single_on_both(a, b, alo, ahi, blo, bhi, a[(#[trigger] cs[k]).0 as int] as int)
    &&& forall|i: int|
        alo <= i < ahi && single_on_both(a, b, alo, ahi, blo, bhi, (#[trigger] a[i]) as int) ==> exists|k: int|
            0 <= k < cs.len() && (#[trigger] cs[k]).0 == i
}

/// The pairs of elements that occur exactly once in `a[alo..ahi]` and
/// exactly once in `b[blo..bhi]`, in the order of the first side.
pub fn unique_anchors(
    a: &Vec<usize>,
    b: &Vec<usize>,
    alo: usize,
    ahi: usize,
    blo: usize,
    bhi: usize,
    count: usize,
) -> (cs: Vec<(usize, usize)>)
    requires
        alo <= ahi <= a@.len(),
        blo <= bhi <= b@.len(),
        ids_below(a@, count as int),
        ids_below(b@, count as int),
    ensures
        candidates_ok(a@, b@, alo as int, ahi as int, blo as int, bhi as int, cs@),
        anchors_are(a@, b@, alo as int, ahi as int, blo as int, bhi as int, cs@),
{
    let (count_a, _first_a) = occurrences(a, alo, ahi, count);
    let (count_b, first_b) = occurrences(b, blo, bhi, count);
    let mut cs: Vec<(usize, usize)> = Vec::new();
    let mut i: usize = alo;
    while i < ahi
        invariant
            alo <= i <= ahi <= a@.len(),
            blo <= bhi <= b@.len(),
            ids_below(a@, count as int),
            count_a@.len() == count,
            count_b@.len() == count,
            first_b@.len() == count,
            forall|id: int|
                0 <= id < count ==> (#[trigger] count_a@[id]) == count_in(a@, alo as int, ahi as int, id),
            forall|id: int|
                0 <= id < count ==> (#[trigger] count_b@[id]) == count_in(b@, blo as int, bhi as int, id),
            forall|id: int|
                0 <= id < count && (#[trigger] count_b@[id]) > 0 ==> is_first(
                    b@,
                    blo as int,
                    bhi as int,
                    id,
                    first_b@[id] as int,
                ),
            candidates_ok(a@, b@, alo as int, ahi as int, blo as int, bhi as int, cs@),
            forall|k: int| 0 <= k < cs@.len() ==> (#[trigger] cs@[k]).0 < i,
            forall|k: int|
                0 <= k < cs@.len() ==> single_on_both(
                    a@,
                    b@,
                    alo as int,
                    ahi as int,
                    blo as int,
                    bhi as int,
                    a@[(#[trigger] cs@[k]).0 as int] as int,
                ),
            forall|x: int|
                alo <= x < i && single_on_both(
                    a@,
                    b@,
                    alo as int,
                    ahi as int,
                    blo as int,
                    bhi as int,
                    (#[trigger] a@[x]) as int,
                ) ==> exists|k: int| 0 <= k < cs@.len() && (#[trigger] cs@[k]).0 == x,
        decreases ahi - i,
    {
        let id: usize = a[i];
        assert(a@[i as int] < count);
        let ghost old_cs = cs@;
        if count_a[id] == 1 && count_b[id] == 1 {
            let j: usize = first_b[id];
            proof {
                let new_cs = cs@.push((i, j));
                assert forall|k: int| 0 <= k < new_cs.len() implies alo <= (#[trigger] new_cs[k]).0 < ahi
                    && blo <= new_cs[k].1 < bhi && a@[new_cs[k].0 as int] == b@[new_cs[k].1 as int] by {
                    if k < old_cs.len() {
                        assert(new_cs[k] == old_cs[k]);
                    }
                }
                assert forall|k: int, l: int| 0 <= k < l < new_cs.len() implies (#[trigger] new_cs[k]).0 < (
                #[trigger] new_cs[l]).0 by {
                    assert(new_cs[k] == old_cs[k]);
                    if l < old_cs.len() {
                        assert(new_cs[l] == old_cs[l]);
                    }
                }
                assert forall|k: int| 0 <= k < new_cs.len() implies single_on_both(
                    a@,
                    b@,
                    alo as int,
                    ahi as int,
                    blo as int,
                    bhi as int,
                    a@[(#[trigger] new_cs[k]).0 as int] as int,
                ) by {
                    if k < old_cs.len() {
                        assert(new_cs[k] == old_cs[k]);
                    }
                }
            }
            cs.push((i, j));
        }
        proof {
            assert forall|x: int|
                alo <= x < i + 1 && single_on_both(
                    a@,
                    b@,
                    alo as int,
                    ahi as int,
                    blo as int,
                    bhi as int,
                    (#[trigger] a@[x]) as int,
                ) implies exists|k: int| 0 <= k < cs@.len() && (#[trigger] cs@[k]).0 == x by {
                if x < i {
                    let k = choose|k: int| 0 <= k < old_cs.len() && (#[trigger] old_cs[k]).0 == x;
                    assert(cs@[k] == old_cs[k]);
                } else {
                    assert(cs@[cs@.len() - 1].0 == i);
                }
            }
        }
        i += 1;
    }
    cs
}

/// Indices into `cs` that rise strictly and whose pairs rise strictly on
/// the second side.
pub open spec fn rising_chain(cs: Seq<(usize, usize)>, chain: Seq<usize>) -> bool {
    &&& forall|k: int| 0 <= k < chain.len() ==> #[trigger] chain[k] < cs.len()
    &&& forall|k: int, l: int|
        0 <= k < l < chain.len() ==> (#[trigger] chain[k]) < (#[trigger] chain[l]) && cs[chain[k] as int].1
            < cs[chain[l] as int].1
}

/// The piles of the patience sorting: `pile[u]` is the pile of the
/// candidate `u`, there are `piles` piles, and a candidate that lies
/// before another on the second side and in the order of the candidates
/// lies on an earlier pile.
pub open spec fn piles_ok(cs: Seq<(usize, usize)>, pile: Seq<int>, piles: int) -> bool {
    &&& forall|u: int| 0 <= u < pile.len() ==> 0 <= #[trigger] pile[u] < piles
    &&& forall|v: int, u: int|
        0 <= v < u < pile.len() && cs[v].1 < cs[u].1 ==> (#[trigger] pile[v]) < (#[trigger] pile[u])
}

/// Along a rising chain the piles rise.
pub proof fn lemma_pile_rises(cs: Seq<(usize, usize)>, pile: Seq<int>, piles: int, chain: Seq<usize>, k: int)
    requires
        piles_ok(cs, pile, piles),
        pile.len() == cs.len(),
        rising_chain(cs, chain),
        0 <= k < chain.len(),
    ensures
        pile[chain[k] as int] >= k,
    decreases k,
{
    if k > 0 {
        lemma_pile_rises(cs, pile, piles, chain, k - 1);
        assert(chain[k - 1] < chain[k]);
        assert(pile[chain[k - 1] as int] < pile[chain[k] as int]);
    }
}

/// No rising chain is longer than there are piles.
pub proof fn lemma_chain_bound(cs: Seq<(usize, usize)>, pile: Seq<int>, piles: int, chain: Seq<usize>)
    requires
        piles_ok(cs, pile, piles),
        pile.len() == cs.len(),
        rising_chain(cs, chain),
        0 <= piles,
    ensures
        chain.len() <= piles,
{
    if chain.len() > 0 {
        lemma_pile_rises(cs, pile, piles, chain, chain.len() - 1);
    }
}

/// What the tops of the piles and the remembered candidates hold while
/// the first `t` candidates are sorted onto piles.
pub open spec fn sorting(
    cs: Seq<(usize, usize)>,
    tops: Seq<usize>,
    prev: Seq<Option<usize>>,
    pile: Seq<int>,
    t: int,
) -> bool {
    &&& prev.len() == t
    &&& pile.len() == t
    &&& forall|p: int| 0 <= p < tops.len() ==> (#[trigger] tops[p]) < t && pile[tops[p] as int] == p
    &&& forall|p: int, q: int|
        0 <= p < q < tops.len() ==> cs[(#[trigger] tops[p]) as int].1 < cs[(#[trigger] tops[q]) as int].1
    &&& forall|u: int|
        0 <= u < t ==> 0 <= #[trigger] pile[u] < tops.len() && cs[tops[pile[u]] as int].1 <= cs[u].1
    &&& forall|u: int|
        0 <= u < t ==> match #[trigger] prev[u] {
            Some(q) => q < u && cs[q as int].1 < cs[u].1 && pile[q as int] == pile[u] - 1,
            None => pile[u] == 0,
        }
    &&& forall|v: int, u: int| 0 <= v < u < t && cs[v].1 < cs[u].1 ==> (#[trigger] pile[v]) < (#[trigger] pile[u])
}

/// A longest chain of candidates that rises on both sides, by patience
/// sorting: every candidate goes onto the leftmost pile whose top does not
/// lie before it on the second side, and remembers the top of the pile to
/// the left. The chain is given from its last candidate back to its first.
pub fn longest_rising(cs: &Vec<(usize, usize)>) -> (chain: Vec<usize>)
    ensures
        chain_ok(cs@, chain@),
        cs@.len() > 0 ==> chain@.len() > 0,
        forall|other: Seq<usize>| #[trigger] rising_chain(cs@, other) ==> other.len() <= chain@.len(),
{
    let mut tops: Vec<usize> = Vec::new();
    let mut prev: Vec<Option<usize>> = Vec::new();
    let ghost mut pile: Seq<int> = Seq::empty();
    let mut t: usize = 0;
    while t < cs.len()
        invariant
            t <= cs@.len(),
            t > 0 ==> tops@.len() > 0,
            sorting(cs@, tops@, prev@, pile, t as int),
        decreases cs@.len() - t,
    {
        let j: usize = cs[t].1;
        let mut p: usize = 0;
        while p < tops.len() && cs[tops[p]].1 < j
            invariant
                p <= tops@.len(),
                t < cs@.len(),
                sorting(cs@, tops@, prev@, pile, t as int),
                forall|pp: int| 0 <= pp < p ==> cs@[(#[trigger] tops@[pp]) as int].1 < j,
            decreases tops@.len() - p,
        {
            p += 1;
        }
        let ghost old_tops = tops@;
        let ghost old_prev = prev@;
        let ghost old_pile = pile;
        if p > 0 {
            prev.push(Some(tops[p - 1]));
        } else {
            prev.push(None);
        }
        if p == tops.len() {
            tops.push(t);
        } else {
            tops.set(p, t);
        }
        proof {
            pile = pile.push(p as int);
            lemma_sorting_step(cs@, old_tops, tops@, old_prev, prev@, old_pile, pile, t as int, p as int);
        }
        t += 1;
    }
    let mut chain: Vec<usize> = Vec::new();
    if tops.len() == 0 {
        proof {
            assert forall|other: Seq<usize>| #[trigger] rising_chain(cs@, other) implies other.len()
                <= chain@.len() by {
                if other.len() > 0 {
                    assert(other[0] < cs@.len());
                }
            }
        }
        return chain;
    }
    let ghost piles = tops@.len() as int;
    let mut cur: usize = tops[tops.len() - 1];
    loop
        invariant_except_break
            forall|k: int|
                0 <= k < chain@.len() ==> (#[trigger] chain@[k]) > cur && cs@[chain@[k] as int].1 > cs@[cur as int].1,
            chain@.len() + pile[cur as int] + 1 == piles,
        invariant
            cur < cs@.len(),
            piles == tops@.len(),
            sorting(cs@, tops@, prev@, pile, cs@.len() as int),
            chain_ok(cs@, chain@),
        ensures
            chain_ok(cs@, chain@),
            chain@.len() == piles,
        decreases cur,
    {
        proof {
            let old_chain = chain@;
            let new_chain = chain@.push(cur);
            assert forall|k: int| 0 <= k < new_chain.len() implies #[trigger] new_chain[k] < cs@.len() by {
                if k < old_chain.len() {
                    assert(new_chain[k] == old_chain[k]);
                }
            }
            assert forall|k: int, l: int| 0 <= k < l < new_chain.len() implies (#[trigger] new_chain[l]) < (
            #[trigger] new_chain[k]) && cs@[new_chain[l] as int].1 < cs@[new_chain[k] as int].1 by {
                assert(new_chain[k] == old_chain[k]);
                if l < old_chain.len() {
                    assert(new_chain[l] == old_chain[l]);
                }
            }
        }
        chain.push(cur);
        match prev[cur] {
            Some(q) => {
                proof {
                    assert forall|k: int| 0 <= k < chain@.len() implies (#[trigger] chain@[k]) > q
                        && cs@[chain@[k] as int].1 > cs@[q as int].1 by {
                        if k < chain@.len() - 1 {
                            assert(chain@[k] > cur);
                        }
                    }
                }
                cur = q;
            },
            None => {
                break ;
            },
        }
    }
    proof {
        assert forall|other: Seq<usize>| #[trigger] rising_chain(cs@, other) implies other.len() <= chain@.len() by {
            lemma_chain_bound(cs@, pile, piles, other);
        }
    }
    chain
}

/// One step of the sorting: the candidate `t` goes onto the pile `p`, the
/// leftmost whose top does not lie before it on the second side.
pub proof fn lemma_sorting_step(
    cs: Seq<(usize, usize)>,
    old_tops: Seq<usize>,
    tops: Seq<usize>,
    old_prev: Seq<Option<usize>>,
    prev: Seq<Option<usize>>,
    old_pile: Seq<int>,
    pile: Seq<int>,
    t: int,
    p: int,
)
    requires
        0 <= t < cs.len(),
        0 <= p <= old_tops.len(),
        sorting(cs, old_tops, old_prev, old_pile, t),
        forall|pp: int| 0 <= pp < p ==> cs[(#[trigger] old_tops[pp]) as int].1 < cs[t].1,
        p < old_tops.len() ==> cs[old_tops[p] as int].1 >= cs[t].1,
        prev == old_prev.push(if p > 0 {
            Some(old_tops[p - 1])
        } else {
            None
        }),
        pile == old_pile.push(p),
        tops == (if p == old_tops.len() {
            old_tops.push(t as usize)
        } else {
            old_tops.update(p, t as usize)
        }),
        t <= usize::MAX,
    ensures
        sorting(cs, tops, prev, pile, t + 1),
{
    assert forall|q: int| 0 <= q < tops.len() implies (#[trigger] tops[q]) < t + 1 && pile[tops[q] as int] == q by {
        if q != p {
            assert(tops[q] == old_tops[q]);
            assert(old_tops[q] < t);
            assert(pile[old_tops[q] as int] == old_pile[old_tops[q] as int]);
        }
    }
    assert forall|q: int, r: int| 0 <= q < r < tops.len() implies cs[(#[trigger] tops[q]) as int].1 < cs[(
    #[trigger] tops[r]) as int].1 by {
        if q == p {
            assert(tops[r] == old_tops[r]);
            assert(cs[old_tops[p] as int].1 < cs[old_tops[r] as int].1);
        } else if r == p {
            assert(tops[q] == old_tops[q]);
        } else {
            assert(tops[q] == old_tops[q]);
            assert(tops[r] == old_tops[r]);
        }
    }
    assert forall|u: int| 0 <= u < t + 1 implies 0 <= #[trigger] pile[u] < tops.len() && cs[tops[pile[u]] as int].1
        <= cs[u].1 by {
        if u < t {
            assert(pile[u] == old_pile[u]);
            assert(0 <= old_pile[u] < old_tops.len());
            if old_pile[u] != p {
                assert(tops[old_pile[u]] == old_tops[old_pile[u]]);
            }
        }
    }
    assert forall|u: int| 0 <= u < t + 1 implies match #[trigger] prev[u] {
        Some(q) => q < u && cs[q as int].1 < cs[u].1 && pile[q as int] == pile[u] - 1,
        None => pile[u] == 0,
    } by {
        if u < t {
            assert(prev[u] == old_prev[u]);
            assert(pile[u] == old_pile[u]);
            match old_prev[u] {
                Some(q) => {
                    assert(pile[q as int] == old_pile[q as int]);
                },
                None => {},
            }
        } else if p > 0 {
            let q = old_tops[p - 1];
            assert(q < t);
            assert(pile[q as int] == old_pile[q as int]);
        }
    }
    assert forall|v: int, u: int| 0 <= v < u < t + 1 && cs[v].1 < cs[u].1 implies (#[trigger] pile[v]) < (
    #[trigger] pile[u]) by {
        assert(pile[v] == old_pile[v]);
        if u < t {
            assert(pile[u] == old_pile[u]);
        } else {
            // The top of the pile of `v` lies before `t` on the second
            // side, so the pile lies to the left of the pile of `t`.
            let pv = old_pile[v];
            assert(0 <= pv < old_tops.len());
            assert(cs[old_tops[pv] as int].1 <= cs[v].1);
            if pv >= p {
                if pv > p {
                    assert(cs[old_tops[p] as int].1 < cs[old_tops[pv] as int].1);
                }
            }
        }
    }
}

/// Adds to `ms` the pairs that the patience search finds in the box
/// `[alo, ahi) x [blo, bhi)`. The common beginning and ending of the box
/// are paired first. Where what is left holds no element that is single on
/// both sides, the shortest-path search takes over. No pair of equal
/// elements of the box can be added to what the search leaves.
pub fn patience_box(
    a: &Vec<usize>,
    b: &Vec<usize>,
    alo: usize,
    ahi: usize,
    blo: usize,
    bhi: usize,
    count: usize,
    ms: &mut Vec<(usize, usize)>,
)
    requires
        box_pre(a@, b@, old(ms)@, alo as int, ahi as int, blo as int, bhi as int),
        ids_below(a@, count as int),
        ids_below(b@, count as int),
    ensures
        box_post(a@, b@, old(ms)@, final(ms)@, alo as int, ahi as int, blo as int, bhi as int),
        box_maximal(a@, b@, final(ms)@, old(ms)@.len() as int, alo as int, ahi as int, blo as int, bhi as int),
    decreases (ahi - alo) + (bhi - blo),
{
    let ghost from = old(ms)@.len() as int;
    let p: usize = trim_prefix(a, b, alo, ahi, blo, bhi, ms);
    let lo_a: usize = alo + p;
    let lo_b: usize = blo + p;
    let q: usize = suffix_len(a, b, lo_a, ahi, lo_b, bhi);
    let hi_a: usize = ahi - q;
    let hi_b: usize = bhi - q;
    let ghost m0 = ms@;
    proof {
        if p > 0 {
            assert(m0[m0.len() - 1].0 == lo_a - 1 && m0[m0.len() - 1].1 == lo_b - 1);
        }
    }
    if lo_a < hi_a && lo_b < hi_b {
        let cs = unique_anchors(a, b, lo_a, hi_a, lo_b, hi_b, count);
        let chain = longest_rising(&cs);
        if chain.len() == 0 {
            myers_box(a, b, lo_a, hi_a, lo_b, hi_b, ms);
            proof {
                lemma_box_post_chain(
                    a@,
                    b@,
                    old(ms)@,
                    m0,
                    ms@,
                    alo as int,
                    lo_a as int,
                    hi_a as int,
                    blo as int,
                    lo_b as int,
                    hi_b as int,
                );
                lemma_maximal_chain(
                    a@,
                    b@,
                    m0,
                    ms@,
                    from,
                    alo as int,
                    lo_a as int,
                    hi_a as int,
                    blo as int,
                    lo_b as int,
                    hi_b as int,
                );
            }
        } else {
            walk_chain(a, b, alo, lo_a, hi_a, blo, lo_b, hi_b, count, &cs, &chain, ms, Ghost(old(ms)@));
        }
    } else {
        proof {
            lemma_extends_self(m0, lo_a as int, hi_a as int, lo_b as int, hi_b as int);
            lemma_box_post_chain(
                a@,
                b@,
                old(ms)@,
                m0,
                m0,
                alo as int,
                lo_a as int,
                hi_a as int,
                blo as int,
                lo_b as int,
                hi_b as int,
            );
            lemma_bounded_by_weaken(m0, lo_a as int, lo_b as int, hi_a as int, hi_b as int);
            lemma_maximal_without_common(
                a@,
                b@,
                m0,
                m0.len() as int,
                lo_a as int,
                hi_a as int,
                lo_b as int,
                hi_b as int,
            );
            lemma_maximal_chain(
                a@,
                b@,
                m0,
                m0,
                from,
                alo as int,
                lo_a as int,
                hi_a as int,
                blo as int,
                lo_b as int,
                hi_b as int,
            );
        }
    }
    let ghost m4 = ms@;
    push_run(a, b, ms, hi_a, hi_b, q);
    proof {
        lemma_box_post_chain(
            a@,
            b@,
            old(ms)@,
            m4,
            ms@,
            alo as int,
            hi_a as int,
            ahi as int,
            blo as int,
            hi_b as int,
            bhi as int,
        );
        lemma_maximal_run(a@, b@, m4, ms@, from, alo as int, hi_a as int, blo as int, hi_b as int, q as int);
    }
}

/// The alignment has reached the place `(ca, cb)` of the box that starts
/// at `(alo, blo)`: it is maximal up to there, and it ends with the pair
/// before that place unless the place is the start of the box.
pub open spec fn reached(
    a: Seq<usize>,
    b: Seq<usize>,
    first: Seq<(usize, usize)>,
    ms: Seq<(usize, usize)>,
    alo: int,
    blo: int,
    ca: int,
    cb: int,
) -> bool {
    &&& is_alignment(a, b, ms)
    &&& bounded_by(ms, ca, cb)
    &&& extends_within(first, ms, alo, ca, blo, cb)
    &&& box_maximal(a, b, ms, first.len() as int, alo, ca, blo, cb)
    &&& (alo == ca && blo == cb) || (ms.len() > first.len() && ms.last().0 == ca - 1 && ms.last().1 == cb - 1)
}

/// Walks along the chain of anchors: the stretch before each anchor is
/// searched, then the anchor is paired; at last the stretch behind the
/// last anchor is searched.
fn walk_chain(
    a: &Vec<usize>,
    b: &Vec<usize>,
    alo: usize,
    lo_a: usize,
    hi_a: usize,
    blo: usize,
    lo_b: usize,
    hi_b: usize,
    count: usize,
    cs: &Vec<(usize, usize)>,
    chain: &Vec<usize>,
    ms: &mut Vec<(usize, usize)>,
    Ghost(first): Ghost<Seq<(usize, usize)>>,
)
    requires
        alo <= lo_a < hi_a <= a@.len(),
        blo <= lo_b < hi_b <= b@.len(),
        2 * (a@.len() + b@.len()) + 4 <= usize::MAX,
        ids_below(a@, count as int),
        ids_below(b@, count as int),
        candidates_ok(a@, b@, lo_a as int, hi_a as int, lo_b as int, hi_b as int, cs@),
        chain_ok(cs@, chain@),
        chain@.len() > 0,
        reached(a@, b@, first, old(ms)@, alo as int, blo as int, lo_a as int, lo_b as int),
    ensures
        is_alignment(a@, b@, final(ms)@),
        bounded_by(final(ms)@, hi_a as int, hi_b as int),
        extends_within(first, final(ms)@, alo as int, hi_a as int, blo as int, hi_b as int),
        box_maximal(a@, b@, final(ms)@, first.len() as int, alo as int, hi_a as int, blo as int, hi_b as int),
    decreases (hi_a - lo_a) + (hi_b - lo_b), 0nat,
{
    let ghost from = first.len() as int;
    let mut ca: usize = lo_a;
    let mut cb: usize = lo_b;
    let mut t: usize = chain.len();
    while t > 0
        invariant
            alo <= lo_a <= ca <= hi_a <= a@.len(),
            blo <= lo_b <= cb <= hi_b <= b@.len(),
            lo_a < hi_a,
            lo_b < hi_b,
            2 * (a@.len() + b@.len()) + 4 <= usize::MAX,
            ids_below(a@, count as int),
            ids_below(b@, count as int),
            from == first.len(),
            t <= chain@.len(),
            chain@.len() > 0,
            t < chain@.len() ==> ca > lo_a,
            candidates_ok(a@, b@, lo_a as int, hi_a as int, lo_b as int, hi_b as int, cs@),
            chain_ok(cs@, chain@),
            t > 0 ==> cs@[chain@[t - 1] as int].0 >= ca && cs@[chain@[t - 1] as int].1 >= cb,
            reached(a@, b@, first, ms@, alo as int, blo as int, ca as int, cb as int),
        decreases t,
    {
        t -= 1;
        let at: usize = chain[t];
        let (i, j) = cs[at];
        let ghost m0 = ms@;
        patience_box(a, b, ca, i, cb, j, count, ms);
        let ghost m1 = ms@;
        push_match(a, b, ms, i, j);
        proof {
            lemma_box_post_chain(
                a@,
                b@,
                first,
                m0,
                m1,
                alo as int,
                ca as int,
                i as int,
                blo as int,
                cb as int,
                j as int,
            );
            lemma_maximal_chain(
                a@,
                b@,
                m0,
                m1,
                from,
                alo as int,
                ca as int,
                i as int,
                blo as int,
                cb as int,
                j as int,
            );
            lemma_push_extends(m1, i, j);
            lemma_box_post_chain(
                a@,
                b@,
                first,
                m1,
                ms@,
                alo as int,
                i as int,
                i + 1,
                blo as int,
                j as int,
                j + 1,
            );
            lemma_maximal_push(a@, b@, m1, from, alo as int, blo as int, i, j);
            if t > 0 {
                assert(chain@[t as int] < chain@[t - 1]);
                assert(cs@[chain@[t as int] as int].0 < cs@[chain@[t - 1] as int].0);
            }
        }
        ca = i + 1;
        cb = j + 1;
    }
    let ghost m2 = ms@;
    patience_box(a, b, ca, hi_a, cb, hi_b, count, ms);
    proof {
        lemma_box_post_chain(
            a@,
            b@,
            first,
            m2,
            ms@,
            alo as int,
            ca as int,
            hi_a as int,
            blo as int,
            cb as int,
            hi_b as int,
        );
        lemma_maximal_chain(
            a@,
            b@,
            m2,
            ms@,
            from,
            alo as int,
            ca as int,
            hi_a as int,
            blo as int,
            cb as int,
            hi_b as int,
        );
    }
}

} // verus!
