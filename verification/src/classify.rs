//! The classes of the regions stay true when conflicts are made smaller
//! or joined.

use vstd::prelude::*;
use crate::diff::diff_post;
use crate::refine::{hunk_pieces, split_all, split_by, split_upto, subs_ok};
use crate::region::{
    agreed, chained, classified, lemma_agreed_holds, lemma_classified_add, ours_of, refinable,
    region_between, region_holds, theirs_of, Region, RegionKind,
};
use crate::script::{
    hunk_valid, lemma_empty_script_means_equal, prev_base_end, prev_other_end, script_valid, Hunk,
};
use crate::simplify::{absorb, joined, simplify_all, trailing_conflict};
use crate::spacing::{alternating, dividable, sides_fit};
use crate::types::DiffAlgorithm;

verus! {

/// The region lies within texts of as many lines as a vector can hold.
pub open spec fn region_fits(r: Region, ours: Seq<Seq<char>>, theirs: Seq<Seq<char>>) -> bool {
    &&& r.base_end() <= usize::MAX
    &&& r.ours_end() <= ours.len() <= usize::MAX
    &&& r.theirs_end() <= theirs.len() <= usize::MAX
}

/// All regions lie within the texts.
pub open spec fn regions_fit(rs: Seq<Region>, ours: Seq<Seq<char>>, theirs: Seq<Seq<char>>) -> bool {
    forall|k: int| 0 <= k < rs.len() ==> region_fits(#[trigger] rs[k], ours, theirs)
}

/// Chained regions lie within the texts.
pub proof fn lemma_chained_fit(rs: Seq<Region>, n0: int, ours: Seq<Seq<char>>, theirs: Seq<Seq<char>>)
    requires
        chained(rs, n0, ours.len() as int, theirs.len() as int),
        n0 <= usize::MAX,
        ours.len() <= usize::MAX,
        theirs.len() <= usize::MAX,
    ensures
        regions_fit(rs, ours, theirs),
{
    assert forall|k: int| 0 <= k < rs.len() implies region_fits(#[trigger] rs[k], ours, theirs) by {
        assert(rs[k].base_end() <= n0);
    }
}

/// The pieces that the first `k` hunks of a script between the sides of
/// a conflict make of it are what their classes say.
pub proof fn lemma_split_upto_classified(
    r: Region,
    s: Seq<Hunk>,
    k: int,
    base: Seq<Seq<char>>,
    ours: Seq<Seq<char>>,
    theirs: Seq<Seq<char>>,
)
    requires
        region_fits(r, ours, theirs),
        script_valid(ours_of(ours, r), theirs_of(theirs, r), s),
        0 <= k <= s.len(),
    ensures
        classified(split_upto(r, s, k), base, ours, theirs),
    decreases k,
{
    if k > 0 {
        lemma_split_upto_classified(r, s, k - 1, base, ours, theirs);
        let x = ours_of(ours, r);
        let y = theirs_of(theirs, r);
        let h = s[k - 1];
        assert(hunk_valid(x, y, s, k - 1));
        if k > 1 {
            assert(hunk_valid(x, y, s, k - 2));
        }
        let pa = prev_base_end(s, k - 1);
        let pb = prev_other_end(s, k - 1);
        let gap = h.base_start - pa;
        let b0 = if k - 1 == 0 {
            r.base_start as int
        } else {
            r.base_end()
        };
        let xs = ours.subrange(r.ours_start + pa, r.ours_start + pa + gap);
        let ys = theirs.subrange(r.theirs_start + pb, r.theirs_start + pb + gap);
        assert forall|t: int| 0 <= t < gap implies #[trigger] xs[t] == ys[t] by {
            assert(x[pa + t] == y[pb + t]);
        }
        assert(xs =~= ys);
        lemma_agreed_holds(b0, r.ours_start + pa, r.theirs_start + pb, gap, base, ours, theirs);
        let ag = agreed(b0, r.ours_start + pa, r.theirs_start + pb, gap);
        let piece = region_between(
            RegionKind::Conflict,
            b0,
            r.base_end(),
            r.ours_start + h.base_start,
            r.ours_start + h.base_end(),
            r.theirs_start + h.other_start,
            r.theirs_start + h.other_end(),
        );
        assert(classified(seq![piece], base, ours, theirs));
        lemma_classified_add(ag, seq![piece], base, ours, theirs);
        assert(ag + seq![piece] =~= hunk_pieces(r, s, k - 1));
        lemma_classified_add(split_upto(r, s, k - 1), hunk_pieces(r, s, k - 1), base, ours, theirs);
    }
}

/// What a script between the sides of a region makes of the region is
/// what its classes say.
pub proof fn lemma_split_classified(
    r: Region,
    s: Seq<Hunk>,
    base: Seq<Seq<char>>,
    ours: Seq<Seq<char>>,
    theirs: Seq<Seq<char>>,
)
    requires
        region_holds(r, base, ours, theirs),
        region_fits(r, ours, theirs),
        refinable(r) ==> script_valid(ours_of(ours, r), theirs_of(theirs, r), s),
    ensures
        classified(split_by(r, s), base, ours, theirs),
{
    if !refinable(r) {
        assert(classified(seq![r], base, ours, theirs));
    } else if s.len() == 0 {
        lemma_empty_script_means_equal(ours_of(ours, r), theirs_of(theirs, r), s);
        let whole = region_between(
            RegionKind::Concordant,
            r.base_start as int,
            r.base_end(),
            r.ours_start as int,
            r.ours_end(),
            r.theirs_start as int,
            r.theirs_end(),
        );
        assert(region_holds(whole, base, ours, theirs));
        assert(classified(seq![whole], base, ours, theirs));
    } else {
        let x = ours_of(ours, r);
        let y = theirs_of(theirs, r);
        let k = s.len() as int;
        lemma_split_upto_classified(r, s, k, base, ours, theirs);
        assert(hunk_valid(x, y, s, k - 1));
        let ea = prev_base_end(s, k);
        let eb = prev_other_end(s, k);
        let len = r.ours_len - ea;
        let xs = ours.subrange(r.ours_start + ea, r.ours_start + ea + len);
        let ys = theirs.subrange(r.theirs_start + eb, r.theirs_start + eb + len);
        assert forall|t: int| 0 <= t < len implies #[trigger] xs[t] == ys[t] by {
            assert(x[ea + t] == y[eb + t]);
        }
        assert(xs =~= ys);
        lemma_agreed_holds(r.base_end(), r.ours_start + ea, r.theirs_start + eb, len, base, ours, theirs);
        lemma_classified_add(
            split_upto(r, s, k),
            agreed(r.base_end(), r.ours_start + ea, r.theirs_start + eb, len),
            base,
            ours,
            theirs,
        );
    }
}

/// Regions that are what their classes say stay so when their conflicts
/// are divided by scripts between the sides.
pub proof fn lemma_split_all_classified(
    rs: Seq<Region>,
    subs: Seq<Seq<Hunk>>,
    base: Seq<Seq<char>>,
    ours: Seq<Seq<char>>,
    theirs: Seq<Seq<char>>,
    algorithm: DiffAlgorithm,
)
    requires
        classified(rs, base, ours, theirs),
        regions_fit(rs, ours, theirs),
        subs_ok(rs, subs, ours, theirs, algorithm),
    ensures
        classified(split_all(rs, subs), base, ours, theirs),
    decreases rs.len(),
{
    if rs.len() > 0 {
        let front = rs.drop_last();
        let front_subs = subs.drop_last();
        assert forall|k: int| 0 <= k < front.len() implies region_holds(#[trigger] front[k], base, ours, theirs)
            && region_fits(front[k], ours, theirs) by {
            assert(front[k] == rs[k]);
        }
        assert(subs_ok(front, front_subs, ours, theirs, algorithm)) by {
            assert forall|i: int| 0 <= i < front.len() && refinable(#[trigger] front[i]) implies diff_post(
                ours_of(ours, front[i]),
                theirs_of(theirs, front[i]),
                algorithm,
                front_subs[i],
            ) by {
                assert(front[i] == rs[i]);
                assert(refinable(rs[i]));
            }
        }
        lemma_split_all_classified(front, front_subs, base, ours, theirs, algorithm);
        let r = rs.last();
        assert(region_holds(rs[rs.len() - 1], base, ours, theirs));
        assert(region_fits(rs[rs.len() - 1], ours, theirs));
        if refinable(r) {
            assert(refinable(rs[rs.len() - 1]));
        }
        lemma_split_classified(r, subs.last(), base, ours, theirs);
        lemma_classified_add(split_all(front, front_subs), split_by(r, subs.last()), base, ours, theirs);
    }
}

/// The last conflict that only stable or agreed regions follow is one of
/// the regions, where there is one.
pub proof fn lemma_trailing_conflict_bounds(out: Seq<Region>)
    ensures
        -1 <= trailing_conflict(out) < out.len(),
    decreases out.len(),
{
    if out.len() > 0 {
        lemma_trailing_conflict_bounds(out.drop_last());
    }
}

/// Regions that are what their classes say stay so when conflicts that
/// lie close together are joined.
pub proof fn lemma_simplify_classified(
    rs: Seq<Region>,
    alnum: bool,
    base: Seq<Seq<char>>,
    ours: Seq<Seq<char>>,
    theirs: Seq<Seq<char>>,
)
    requires
        classified(rs, base, ours, theirs),
    ensures
        classified(simplify_all(rs, ours, alnum), base, ours, theirs),
    decreases rs.len(),
{
    if rs.len() > 0 {
        let front = rs.drop_last();
        assert forall|k: int| 0 <= k < front.len() implies region_holds(#[trigger] front[k], base, ours, theirs) by {
            assert(front[k] == rs[k]);
        }
        lemma_simplify_classified(front, alnum, base, ours, theirs);
        let out = simplify_all(front, ours, alnum);
        let r = rs.last();
        assert(region_holds(rs[rs.len() - 1], base, ours, theirs));
        lemma_trailing_conflict_bounds(out);
        let next = absorb(out, r, ours, alnum);
        assert forall|k: int| 0 <= k < next.len() implies region_holds(#[trigger] next[k], base, ours, theirs) by {
            if k < next.len() - 1 {
                assert(next[k] == out[k]);
            }
        }
    }
}

/// Regions that take turns and fit the texts can be divided by scripts
/// that fit them.
pub proof fn lemma_dividable(
    rs: Seq<Region>,
    subs: Seq<Seq<Hunk>>,
    ours: Seq<Seq<char>>,
    theirs: Seq<Seq<char>>,
    algorithm: DiffAlgorithm,
)
    requires
        alternating(rs),
        regions_fit(rs, ours, theirs),
        subs_ok(rs, subs, ours, theirs, algorithm),
    ensures
        dividable(rs, subs, ours, theirs),
{
    assert forall|i: int| 0 <= i < rs.len() implies sides_fit(
        #[trigger] rs[i],
        ours_of(ours, rs[i]),
        theirs_of(theirs, rs[i]),
    ) by {
        assert(region_fits(rs[i], ours, theirs));
    }
}

} // verus!
