//! Joining conflicts that lie close together: where few lines, or only
//! lines without a letter or digit, part two conflicts, one conflict over
//! all of it reads better than two.

use vstd::prelude::*;
use crate::region::{
    base_before, chained, lemma_chained_order, lemma_chained_take, ours_before, push_region, region_between, theirs_before,
    tiles, Region, RegionKind,
};
use crate::spacing::{can_follow, spaced};
use crate::text::line_views;

verus! {

/// A letter or a digit of ASCII.
pub open spec fn is_alnum(c: char) -> bool {
    let u = c as u32;
    (48 <= u <= 57) || (65 <= u <= 90) || (97 <= u <= 122)
}

/// The line holds a letter or a digit.
pub open spec fn line_has_alnum(l: Seq<char>) -> bool {
    exists|j: int| 0 <= j < l.len() && is_alnum(#[trigger] l[j])
}

/// One of the lines `ls[from..to]` holds a letter or a digit.
pub open spec fn lines_have_alnum(ls: Seq<Seq<char>>, from: int, to: int) -> bool {
    exists|i: int| from <= i < to && line_has_alnum(#[trigger] ls[i])
}

/// The lines `ours[from..to]` between two conflicts are too few to keep the
/// conflicts apart: at most three, or, where `alnum` is set, any number of
/// lines without a letter or digit.
pub open spec fn gap_small(ours: Seq<Seq<char>>, from: int, to: int, alnum: bool) -> bool {
    to - from <= 3 || (alnum && !lines_have_alnum(ours, from, to))
}

/// The place of the last conflict of `out`, where only stable or agreed
/// regions follow it; -1 where there is no such conflict.
pub open spec fn trailing_conflict(out: Seq<Region>) -> int
    decreases out.len(),
{
    if out.len() == 0 {
        -1
    } else {
        match out.last().kind {
            RegionKind::Conflict => out.len() - 1,
            RegionKind::Stable | RegionKind::Concordant => trailing_conflict(out.drop_last()),
            _ => -1,
        }
    }
}

/// One conflict from the start of `a` to the end of `r`.
pub open spec fn joined(a: Region, r: Region) -> Region {
    region_between(
        RegionKind::Conflict,
        a.base_start as int,
        r.base_end(),
        a.ours_start as int,
        r.ours_end(),
        a.theirs_start as int,
        r.theirs_end(),
    )
}

/// The regions `out` with `r` behind them: where `r` is a conflict and the
/// last conflict of `out` lies close before it, the two and all between
/// them become one conflict.
pub open spec fn absorb(out: Seq<Region>, r: Region, ours: Seq<Seq<char>>, alnum: bool) -> Seq<Region> {
    let c = trailing_conflict(out);
    if r.kind == RegionKind::Conflict && 0 <= c < out.len() && gap_small(
        ours,
        out[c].ours_end(),
        r.ours_start as int,
        alnum,
    ) {
        out.take(c).push(joined(out[c], r))
    } else {
        out.push(r)
    }
}

/// The regions with all conflicts joined that lie close together.
pub open spec fn simplify_all(rs: Seq<Region>, ours: Seq<Seq<char>>, alnum: bool) -> Seq<Region>
    decreases rs.len(),
{
    if rs.len() == 0 {
        Seq::empty()
    } else {
        absorb(simplify_all(rs.drop_last(), ours, alnum), rs.last(), ours, alnum)
    }
}

/// Whether the line holds a letter or a digit.
pub fn has_alnum(l: &Vec<char>) -> (r: bool)
    ensures
        r == line_has_alnum(l@),
{
    let mut j: usize = 0;
    while j < l.len()
        invariant
            j <= l@.len(),
            forall|k: int| 0 <= k < j ==> !is_alnum(#[trigger] l@[k]),
        decreases l@.len() - j,
    {
        let u: u32 = l[j] as u32;
        if (48 <= u && u <= 57) || (65 <= u && u <= 90) || (97 <= u && u <= 122) {
            assert(is_alnum(l@[j as int]));
            return true;
        }
        j += 1;
    }
    false
}

/// Whether one of the lines `ls[from..to]` holds a letter or a digit.
pub fn any_alnum(ls: &Vec<Vec<char>>, from: usize, to: usize) -> (r: bool)
    requires
        from <= to <= ls@.len(),
    ensures
        r == lines_have_alnum(line_views(ls@), from as int, to as int),
{
    let mut i: usize = from;
    while i < to
        invariant
            from <= i <= to <= ls@.len(),
            forall|k: int| from <= k < i ==> !line_has_alnum(#[trigger] line_views(ls@)[k]),
        decreases to - i,
    {
        assert(line_views(ls@)[i as int] == ls@[i as int]@);
        if has_alnum(&ls[i]) {
            return true;
        }
        i += 1;
    }
    false
}

/// Finds the last conflict that only stable or agreed regions follow.
pub fn find_trailing_conflict(out: &Vec<Region>) -> (c: Option<usize>)
    ensures
        match c {
            Some(i) => i == trailing_conflict(out@) && i < out@.len() && out@[i as int].kind
                == RegionKind::Conflict,
            None => trailing_conflict(out@) == -1,
        },
{
    let mut i: usize = out.len();
    assert(out@.take(i as int) =~= out@);
    while i > 0
        invariant
            i <= out@.len(),
            trailing_conflict(out@.take(i as int)) == trailing_conflict(out@),
        decreases i,
    {
        proof {
            assert(out@.take(i as int).drop_last() =~= out@.take(i - 1));
            assert(out@.take(i as int).last() == out@[i - 1]);
        }
        match out[i - 1].kind {
            RegionKind::Conflict => {
                return Some(i - 1);
            },
            RegionKind::Stable | RegionKind::Concordant => {
                i -= 1;
            },
            _ => {
                return None;
            },
        }
    }
    None
}

/// Adds the region `r` behind `out`, joined with the last conflict of
/// `out` where that lies close before it.
fn absorb_one(out: &mut Vec<Region>, r: Region, base_count: usize, ours: &Vec<Vec<char>>, theirs_count: usize, alnum: bool)
    requires
        chained(old(out)@, base_count as int, ours@.len() as int, theirs_count as int),
        r.base_start == base_before(old(out)@, old(out)@.len() as int),
        r.ours_start == ours_before(old(out)@, old(out)@.len() as int),
        r.theirs_start == theirs_before(old(out)@, old(out)@.len() as int),
        r.base_end() <= base_count,
        r.ours_end() <= ours@.len(),
        r.theirs_end() <= theirs_count,
    ensures
        final(out)@ == absorb(old(out)@, r, line_views(ours@), alnum),
        chained(final(out)@, base_count as int, ours@.len() as int, theirs_count as int),
        base_before(final(out)@, final(out)@.len() as int) == r.base_end(),
        ours_before(final(out)@, final(out)@.len() as int) == r.ours_end(),
        theirs_before(final(out)@, final(out)@.len() as int) == r.theirs_end(),
        final(out)@.len() > 0,
        final(out)@.last().kind == r.kind,
        spaced(old(out)@) && (old(out)@.len() > 0 ==> can_follow(old(out)@.last().kind, r)) ==> spaced(
            final(out)@,
        ),
{
    let ghost n0 = base_count as int;
    let ghost n1 = ours@.len() as int;
    let ghost n2 = theirs_count as int;
    let ghost before = out@;
    let ours_count: usize = ours.len();
    let is_conflict: bool = match r.kind {
        RegionKind::Conflict => true,
        _ => false,
    };
    if is_conflict {
        if let Some(c) = find_trailing_conflict(out) {
            let a: Region = out[c];
            proof {
                lemma_chained_order(before, n0, n1, n2, c + 1, before.len() as int);
                lemma_chained_order(before, n0, n1, n2, c as int, c + 1);
                assert(before[c as int].base_start == base_before(before, c as int));
            }
            let from: usize = a.ours_start + a.ours_len;
            let to: usize = r.ours_start;
            let close: bool = to - from <= 3 || (alnum && !any_alnum(ours, from, to));
            if close {
                let one = Region {
                    kind: RegionKind::Conflict,
                    base_start: a.base_start,
                    base_len: r.base_start + r.base_len - a.base_start,
                    ours_start: a.ours_start,
                    ours_len: r.ours_start + r.ours_len - a.ours_start,
                    theirs_start: a.theirs_start,
                    theirs_len: r.theirs_start + r.theirs_len - a.theirs_start,
                };
                out.truncate(c);
                proof {
                    lemma_chained_take(before, n0, n1, n2, c as int);
                    assert(out@ == before.take(c as int));
                }
                push_region(out, one, Ghost(n0), Ghost(n1), Ghost(n2));
                proof {
                    if spaced(before) {
                        lemma_spaced_join(before, c as int, one);
                    }
                }
                return ;
            }
        }
    }
    push_region(out, r, Ghost(n0), Ghost(n1), Ghost(n2));
    proof {
        if spaced(before) && (before.len() > 0 ==> can_follow(before.last().kind, r)) {
            lemma_spaced_push(before, r);
        }
    }
}

/// Spaced regions stay spaced when a region that can follow their last is
/// added.
pub proof fn lemma_spaced_push(rs: Seq<Region>, r: Region)
    requires
        spaced(rs),
        rs.len() > 0 ==> can_follow(rs.last().kind, r),
    ensures
        spaced(rs.push(r)),
{
    let all = rs.push(r);
    assert forall|k: int, l: int| 0 <= k && l == k + 1 && l < all.len() implies can_follow(
        (#[trigger] all[k]).kind,
        #[trigger] all[l],
    ) by {
        if l < rs.len() {
            assert(all[k] == rs[k] && all[l] == rs[l]);
        } else {
            assert(all[k] == rs.last());
        }
    }
}

/// Spaced regions stay spaced when those from the place `c` on give way to
/// one region that holds at least the lines of the region at `c`.
pub proof fn lemma_spaced_join(rs: Seq<Region>, c: int, one: Region)
    requires
        spaced(rs),
        0 <= c < rs.len(),
        one.base_len >= rs[c].base_len,
        one.ours_len >= rs[c].ours_len,
        one.theirs_len >= rs[c].theirs_len,
    ensures
        spaced(rs.take(c).push(one)),
{
    let all = rs.take(c).push(one);
    assert forall|k: int, l: int| 0 <= k && l == k + 1 && l < all.len() implies can_follow(
        (#[trigger] all[k]).kind,
        #[trigger] all[l],
    ) by {
        assert(all[k] == rs[k]);
        if l < c {
            assert(all[l] == rs[l]);
        } else {
            assert(can_follow(rs[k].kind, rs[l]));
        }
    }
}

/// Joins all conflicts that lie close together.
pub fn simplify(rs: &Vec<Region>, base_count: usize, ours: &Vec<Vec<char>>, theirs_count: usize, alnum: bool) -> (out:
    Vec<Region>)
    requires
        tiles(rs@, base_count as int, ours@.len() as int, theirs_count as int),
    ensures
        out@ == simplify_all(rs@, line_views(ours@), alnum),
        tiles(out@, base_count as int, ours@.len() as int, theirs_count as int),
        spaced(rs@) ==> spaced(out@),
{
    let ghost vo = line_views(ours@);
    let ghost n0 = base_count as int;
    let ghost n1 = ours@.len() as int;
    let ghost n2 = theirs_count as int;
    let mut out: Vec<Region> = Vec::new();
    let mut i: usize = 0;
    assert(rs@.take(0) =~= Seq::<Region>::empty());
    while i < rs.len()
        invariant
            i <= rs@.len(),
            vo == line_views(ours@),
            n0 == base_count,
            n1 == ours@.len(),
            n2 == theirs_count,
            tiles(rs@, n0, n1, n2),
            out@ == simplify_all(rs@.take(i as int), vo, alnum),
            chained(out@, n0, n1, n2),
            base_before(out@, out@.len() as int) == base_before(rs@, i as int),
            ours_before(out@, out@.len() as int) == ours_before(rs@, i as int),
            theirs_before(out@, out@.len() as int) == theirs_before(rs@, i as int),
            i > 0 ==> out@.len() > 0 && out@.last().kind == rs@[i - 1].kind,
            spaced(rs@) ==> spaced(out@),
        decreases rs@.len() - i,
    {
        let r: Region = rs[i];
        proof {
            assert(rs@.take(i + 1).drop_last() =~= rs@.take(i as int));
            assert(rs@.take(i + 1).last() == r);
            assert(rs@[i as int].base_start == base_before(rs@, i as int));
            if spaced(rs@) && i > 0 {
                assert(can_follow(rs@[i - 1].kind, rs@[i as int]));
            }
        }
        absorb_one(&mut out, r, base_count, ours, theirs_count, alnum);
        i += 1;
    }
    assert(rs@.take(i as int) =~= rs@);
    out
}

} // verus!
