//! How the regions of a merge follow one another.
//!
//! The planner never lets two changed regions touch, and never gives an
//! empty region; and where a conflict is divided, the pieces on which the
//! sides agree part its smaller conflicts. So behind a region that is
//! stable there are lines left in one of the texts, behind one on which
//! the sides agree there are lines left on one of the sides, and behind
//! any other region there are lines left on both sides.

use vstd::prelude::*;
use crate::refine::{hunk_pieces, split_all, split_by, split_upto};
use crate::region::{agreed, ours_of, refinable, region_between, theirs_of, Region, RegionKind};
use crate::script::{hunk_valid, prev_base_end, prev_other_end, script_valid, Hunk};

verus! {

/// The number of lines that a region holds in the three texts together.
pub open spec fn size(r: Region) -> int {
    r.base_len + r.ours_len + r.theirs_len
}

/// `next` can follow a region of the kind `kind`.
pub open spec fn can_follow(kind: RegionKind, next: Region) -> bool {
    match kind {
        RegionKind::Stable => size(next) > 0,
        RegionKind::Concordant => next.ours_len + next.theirs_len > 0,
        _ => next.ours_len >= 1 && next.theirs_len >= 1,
    }
}

/// Every region but the last is followed by a region that can follow it.
pub open spec fn spaced(rs: Seq<Region>) -> bool {
    forall|k: int, l: int|
        0 <= k && l == k + 1 && l < rs.len() ==> can_follow((#[trigger] rs[k]).kind, #[trigger] rs[l])
}

/// A stable region with lines, as many in each of the three texts.
pub open spec fn is_break(r: Region) -> bool {
    r.kind == RegionKind::Stable && r.base_len >= 1 && r.ours_len == r.base_len && r.theirs_len == r.base_len
}

/// Stable regions and changed regions take turns: every stable region
/// has lines, every changed region is followed by a stable one, and no
/// region is empty.
pub open spec fn alternating(rs: Seq<Region>) -> bool {
    &&& forall|k: int| 0 <= k < rs.len() && (#[trigger] rs[k]).kind == RegionKind::Stable ==> is_break(rs[k])
    &&& forall|k: int| 0 <= k < rs.len() ==> size(#[trigger] rs[k]) > 0
    &&& forall|k: int, l: int|
        0 <= k && l == k + 1 && l < rs.len() && (#[trigger] rs[k]).kind != RegionKind::Stable ==> (#[trigger] rs[l]).kind
            == RegionKind::Stable
}

/// A stable region with lines can follow any region.
pub proof fn lemma_break_follows(kind: RegionKind, next: Region)
    requires
        is_break(next),
    ensures
        can_follow(kind, next),
{
}

/// Regions that take turns are spaced.
pub proof fn lemma_alternating_spaced(rs: Seq<Region>)
    requires
        alternating(rs),
    ensures
        spaced(rs),
{
    assert forall|k: int, l: int| 0 <= k && l == k + 1 && l < rs.len() implies can_follow(
        (#[trigger] rs[k]).kind,
        #[trigger] rs[l],
    ) by {
        assert(size(rs[l]) > 0);
        if rs[k].kind != RegionKind::Stable {
            assert(is_break(rs[l]));
        }
    }
}

/// Two spaced runs of regions make a spaced run where the first of the
/// second can follow the last of the first.
pub proof fn lemma_spaced_add(x: Seq<Region>, y: Seq<Region>)
    requires
        spaced(x),
        spaced(y),
        x.len() > 0 && y.len() > 0 ==> can_follow(x.last().kind, y[0]),
    ensures
        spaced(x + y),
{
    let all = x + y;
    assert forall|k: int, l: int| 0 <= k && l == k + 1 && l < all.len() implies can_follow(
        (#[trigger] all[k]).kind,
        #[trigger] all[l],
    ) by {
        if l < x.len() {
            assert(all[k] == x[k] && all[l] == x[l]);
        } else if k >= x.len() {
            assert(all[k] == y[k - x.len()] && all[l] == y[l - x.len()]);
        } else {
            assert(all[k] == x.last() && all[l] == y[0]);
        }
    }
}

/// What the pieces of a divided conflict need of the hunks: each lies in
/// the sides of the conflict, and in texts of as many lines as a vector
/// can hold.
pub open spec fn sides_fit(r: Region, x: Seq<Seq<char>>, y: Seq<Seq<char>>) -> bool {
    &&& x.len() == r.ours_len
    &&& y.len() == r.theirs_len
    &&& r.base_end() <= usize::MAX
    &&& r.ours_end() <= usize::MAX
    &&& r.theirs_end() <= usize::MAX
}

/// The pieces of the first `k` hunks of a script between the sides of a
/// conflict are spaced, start with a piece that holds lines, and end with
/// a conflict.
pub proof fn lemma_split_upto_spaced(r: Region, s: Seq<Hunk>, k: int, x: Seq<Seq<char>>, y: Seq<Seq<char>>)
    requires
        sides_fit(r, x, y),
        script_valid(x, y, s),
        1 <= k <= s.len(),
    ensures
        spaced(split_upto(r, s, k)),
        split_upto(r, s, k).len() > 0,
        split_upto(r, s, k)[0].ours_len + split_upto(r, s, k)[0].theirs_len > 0,
        split_upto(r, s, k).last().kind == RegionKind::Conflict,
    decreases k,
{
    let h = s[k - 1];
    assert(hunk_valid(x, y, s, k - 1));
    if k > 1 {
        assert(hunk_valid(x, y, s, k - 2));
    }
    let pa = prev_base_end(s, k - 1);
    let pb = prev_other_end(s, k - 1);
    let gap = h.base_start - pa;
    let b0 = if k - 1 == 0 {
        r.base_start as int
    } else {
        r.base_end()
    };
    let ag = agreed(b0, r.ours_start + pa, r.theirs_start + pb, gap);
    let piece = region_between(
        RegionKind::Conflict,
        b0,
        r.base_end(),
        r.ours_start + h.base_start,
        r.ours_start + h.base_end(),
        r.theirs_start + h.other_start,
        r.theirs_start + h.other_end(),
    );
    let these = hunk_pieces(r, s, k - 1);
    assert(these =~= ag.push(piece));
    assert(piece.ours_len == h.base_len && piece.theirs_len == h.other_len);
    assert(spaced(these)) by {
        assert forall|i: int, l: int| 0 <= i && l == i + 1 && l < these.len() implies can_follow(
            (#[trigger] these[i]).kind,
            #[trigger] these[l],
        ) by {
            assert(these[l] == piece);
        }
    }
    assert(these[0].ours_len + these[0].theirs_len > 0) by {
        if gap > 0 {
            assert(these[0].ours_len == gap);
        }
    }
    if k == 1 {
        assert(split_upto(r, s, 0) =~= Seq::<Region>::empty());
        assert(split_upto(r, s, 1) =~= these);
    } else {
        lemma_split_upto_spaced(r, s, k - 1, x, y);
        let before = split_upto(r, s, k - 1);
        assert(gap > 0);
        assert(these[0].ours_len == gap && these[0].theirs_len == gap);
        lemma_spaced_add(before, these);
        assert((before + these)[0] == before[0]);
        assert((before + these).last() == these.last());
    }
}

/// What a script between the sides of a region makes of the region is
/// spaced and starts with a region that can stand behind a stable one; a
/// region that is not stable can stand behind its last piece where it
/// holds lines on both sides.
pub proof fn lemma_split_spaced(r: Region, s: Seq<Hunk>, x: Seq<Seq<char>>, y: Seq<Seq<char>>)
    requires
        size(r) > 0,
        sides_fit(r, x, y),
        refinable(r) ==> script_valid(x, y, s),
    ensures
        spaced(split_by(r, s)),
        split_by(r, s).len() > 0,
        size(split_by(r, s)[0]) > 0,
        r.kind == RegionKind::Stable ==> split_by(r, s) == seq![r],
{
    if refinable(r) && s.len() > 0 {
        let k = s.len() as int;
        lemma_split_upto_spaced(r, s, k, x, y);
        assert(hunk_valid(x, y, s, k - 1));
        let ea = prev_base_end(s, k);
        let eb = prev_other_end(s, k);
        let tail = agreed(r.base_end(), r.ours_start + ea, r.theirs_start + eb, r.ours_len - ea);
        let up = split_upto(r, s, k);
        assert(spaced(tail));
        if tail.len() > 0 {
            assert(tail[0].ours_len == r.ours_len - ea);
            assert(tail[0].theirs_len == r.ours_len - ea);
        }
        lemma_spaced_add(up, tail);
        assert((up + tail)[0] == up[0]);
    }
}

/// Regions that take turns, each with a script that fits its sides where
/// it can be divided.
pub open spec fn dividable(rs: Seq<Region>, subs: Seq<Seq<Hunk>>, ours: Seq<Seq<char>>, theirs: Seq<Seq<char>>) -> bool {
    &&& alternating(rs)
    &&& subs.len() == rs.len()
    &&& forall|i: int|
        0 <= i < rs.len() && refinable(#[trigger] rs[i]) ==> script_valid(
            ours_of(ours, rs[i]),
            theirs_of(theirs, rs[i]),
            subs[i],
        )
    &&& forall|i: int|
        0 <= i < rs.len() ==> sides_fit(#[trigger] rs[i], ours_of(ours, rs[i]), theirs_of(theirs, rs[i]))
}

/// All but the last of regions that take turns take turns.
pub proof fn lemma_alternating_front(rs: Seq<Region>)
    requires
        alternating(rs),
        rs.len() > 0,
    ensures
        alternating(rs.drop_last()),
        rs.len() > 1 && rs.last().kind != RegionKind::Stable ==> rs[rs.len() - 2].kind == RegionKind::Stable,
{
    let front = rs.drop_last();
    assert forall|k: int| 0 <= k < front.len() implies size(#[trigger] front[k]) > 0 by {
        assert(front[k] == rs[k]);
    }
    assert forall|k: int| 0 <= k < front.len() && (#[trigger] front[k]).kind == RegionKind::Stable implies is_break(
        front[k],
    ) by {
        assert(front[k] == rs[k]);
    }
    assert forall|k: int, l: int|
        0 <= k && l == k + 1 && l < front.len() && (#[trigger] front[k]).kind != RegionKind::Stable implies (
    #[trigger] front[l]).kind == RegionKind::Stable by {
        assert(front[k] == rs[k]);
        assert(front[l] == rs[l]);
    }
    if rs.len() > 1 && rs.last().kind != RegionKind::Stable {
        let k = rs.len() - 2;
        let l = rs.len() - 1;
        if rs[k].kind != RegionKind::Stable {
            assert(rs[l].kind == RegionKind::Stable);
        }
    }
}

/// All but the last of dividable regions are dividable.
pub proof fn lemma_dividable_front(rs: Seq<Region>, subs: Seq<Seq<Hunk>>, ours: Seq<Seq<char>>, theirs: Seq<Seq<char>>)
    requires
        dividable(rs, subs, ours, theirs),
        rs.len() > 0,
    ensures
        dividable(rs.drop_last(), subs.drop_last(), ours, theirs),
        size(rs.last()) > 0,
        sides_fit(rs.last(), ours_of(ours, rs.last()), theirs_of(theirs, rs.last())),
        refinable(rs.last()) ==> script_valid(ours_of(ours, rs.last()), theirs_of(theirs, rs.last()), subs.last()),
        rs.last().kind == RegionKind::Stable ==> is_break(rs.last()),
{
    let front = rs.drop_last();
    let front_subs = subs.drop_last();
    lemma_alternating_front(rs);
    assert forall|i: int| 0 <= i < front.len() implies sides_fit(
        #[trigger] front[i],
        ours_of(ours, front[i]),
        theirs_of(theirs, front[i]),
    ) by {
        assert(front[i] == rs[i]);
    }
    assert forall|i: int| 0 <= i < front.len() && refinable(#[trigger] front[i]) implies script_valid(
        ours_of(ours, front[i]),
        theirs_of(theirs, front[i]),
        front_subs[i],
    ) by {
        assert(front[i] == rs[i]);
        assert(refinable(rs[i]));
    }
    let k = rs.len() - 1;
    assert(size(rs[k]) > 0);
    assert(sides_fit(rs[k], ours_of(ours, rs[k]), theirs_of(theirs, rs[k])));
    if refinable(rs.last()) {
        assert(refinable(rs[k]));
    }
    if rs.last().kind == RegionKind::Stable {
        assert(is_break(rs[k]));
    }
}

/// Where stable and changed regions take turns, what the scripts between
/// the sides of the conflicts make of the regions is spaced.
pub proof fn lemma_split_all_spaced(
    rs: Seq<Region>,
    subs: Seq<Seq<Hunk>>,
    ours: Seq<Seq<char>>,
    theirs: Seq<Seq<char>>,
)
    requires
        dividable(rs, subs, ours, theirs),
    ensures
        spaced(split_all(rs, subs)),
        rs.len() > 0 ==> split_all(rs, subs).len() > 0,
        rs.len() > 0 && rs.last().kind == RegionKind::Stable ==> split_all(rs, subs).last() == rs.last(),
    decreases rs.len(),
{
    if rs.len() > 0 {
        let front = rs.drop_last();
        let front_subs = subs.drop_last();
        let r = rs.last();
        lemma_dividable_front(rs, subs, ours, theirs);
        lemma_alternating_front(rs);
        lemma_split_all_spaced(front, front_subs, ours, theirs);
        lemma_split_spaced(r, subs.last(), ours_of(ours, r), theirs_of(theirs, r));
        let out = split_all(front, front_subs);
        let ps = split_by(r, subs.last());
        if front.len() > 0 {
            if r.kind == RegionKind::Stable {
                lemma_break_follows(out.last().kind, ps[0]);
            } else {
                assert(front.last() == rs[rs.len() - 2]);
                assert(out.last() == front.last());
            }
        }
        lemma_spaced_add(out, ps);
        assert((out + ps).last() == ps.last());
    }
}

/// Regions that take turns and end with a changed region still do so
/// when the stable lines behind it and the next changed region are added.
pub proof fn lemma_alternating_step(before: Seq<Region>, quiet: Seq<Region>, changed: Region)
    requires
        alternating(before),
        before.len() > 0 ==> before.last().kind != RegionKind::Stable && quiet.len() == 1,
        quiet.len() <= 1,
        quiet.len() == 1 ==> is_break(quiet[0]),
        changed.kind != RegionKind::Stable,
        size(changed) > 0,
    ensures
        alternating(before + quiet.push(changed)),
        (before + quiet.push(changed)).last().kind != RegionKind::Stable,
{
    let step = quiet.push(changed);
    let all = before + step;
    assert forall|k: int| 0 <= k < all.len() implies size(#[trigger] all[k]) > 0 && (all[k].kind
        == RegionKind::Stable ==> is_break(all[k])) by {
        if k < before.len() {
            assert(all[k] == before[k]);
        } else {
            assert(all[k] == step[k - before.len()]);
        }
    }
    assert forall|k: int, l: int|
        0 <= k && l == k + 1 && l < all.len() && (#[trigger] all[k]).kind != RegionKind::Stable implies (
    #[trigger] all[l]).kind == RegionKind::Stable by {
        if l < before.len() {
            assert(all[k] == before[k] && all[l] == before[l]);
        } else if k < before.len() {
            assert(all[l] == step[0]);
            assert(step[0] == quiet[0]);
        } else {
            assert(all[k] == step[k - before.len()]);
            assert(all[l] == step[l - before.len()]);
        }
    }
}

/// Regions that take turns and end with a changed region still do so
/// when the stable lines behind it are added.
pub proof fn lemma_alternating_end(before: Seq<Region>, quiet: Seq<Region>)
    requires
        alternating(before),
        before.len() > 0 ==> before.last().kind != RegionKind::Stable,
        quiet.len() <= 1,
        quiet.len() == 1 ==> is_break(quiet[0]),
    ensures
        alternating(before + quiet),
{
    let all = before + quiet;
    assert forall|k: int| 0 <= k < all.len() implies size(#[trigger] all[k]) > 0 && (all[k].kind
        == RegionKind::Stable ==> is_break(all[k])) by {
        if k < before.len() {
            assert(all[k] == before[k]);
        } else {
            assert(all[k] == quiet[k - before.len()]);
        }
    }
    assert forall|k: int, l: int|
        0 <= k && l == k + 1 && l < all.len() && (#[trigger] all[k]).kind != RegionKind::Stable implies (
    #[trigger] all[l]).kind == RegionKind::Stable by {
        if l < before.len() {
            assert(all[k] == before[k] && all[l] == before[l]);
        } else {
            assert(all[l] == quiet[0]);
        }
    }
}

} // verus!
