//! Making conflicts smaller: an edit script between the two sides of a
//! conflict shows the lines on which the sides agree, and these leave the
//! conflict.

use vstd::pervasive::unreached;
use vstd::prelude::*;
use crate::diff::{diff_post, diff_range, too_large};
use crate::region::{
    agreed, base_before, chained, ours_before, ours_of, push_agreed, push_region, refinable,
    region_between, theirs_before, theirs_of, tiles, Region, RegionKind,
};
use crate::script::{hunk_valid, prev_base_end, prev_other_end, script_valid, Hunk};
use crate::text::line_views;
use crate::types::DiffAlgorithm;

verus! {

/// What the first `k` hunks of the script `s` between the two sides of the
/// conflict `r` make of it: the lines before each hunk, on which the sides
/// agree, and the hunk itself, a smaller conflict. The first of these
/// conflicts keeps the base of `r`.
pub open spec fn split_upto(r: Region, s: Seq<Hunk>, k: int) -> Seq<Region>
    decreases k,
{
    if k <= 0 {
        Seq::empty()
    } else {
        split_upto(r, s, k - 1) + hunk_pieces(r, s, k - 1)
    }
}

/// What the script `s` between the two sides of the region `r` makes of
/// it. Only a conflict with lines on both sides changes: without a hunk
/// the sides agree; with hunks, each hunk is a conflict and the lines
/// between them are agreed.
pub open spec fn split_by(r: Region, s: Seq<Hunk>) -> Seq<Region> {
    if !refinable(r) {
        seq![r]
    } else if s.len() == 0 {
        seq![
            region_between(
                RegionKind::Concordant,
                r.base_start as int,
                r.base_end(),
                r.ours_start as int,
                r.ours_end(),
                r.theirs_start as int,
                r.theirs_end(),
            ),
        ]
    } else {
        let ea = prev_base_end(s, s.len() as int);
        let eb = prev_other_end(s, s.len() as int);
        split_upto(r, s, s.len() as int) + agreed(
            r.base_end(),
            r.ours_start + ea,
            r.theirs_start + eb,
            r.ours_len - ea,
        )
    }
}

/// All regions, each split by its own script.
pub open spec fn split_all(rs: Seq<Region>, subs: Seq<Seq<Hunk>>) -> Seq<Region>
    decreases rs.len(),
{
    if rs.len() == 0 || subs.len() == 0 {
        Seq::empty()
    } else {
        split_all(rs.drop_last(), subs.drop_last()) + split_by(rs.last(), subs.last())
    }
}

/// There is one script for each region, and the script of a conflict with
/// lines on both sides is what the diff engine promises between them.
pub open spec fn subs_ok(
    rs: Seq<Region>,
    subs: Seq<Seq<Hunk>>,
    ours: Seq<Seq<char>>,
    theirs: Seq<Seq<char>>,
    algorithm: DiffAlgorithm,
) -> bool {
    &&& subs.len() == rs.len()
    &&& forall|i: int|
        0 <= i < rs.len() && refinable(#[trigger] rs[i]) ==> diff_post(
            ours_of(ours, rs[i]),
            theirs_of(theirs, rs[i]),
            algorithm,
            subs[i],
        )
}

/// Sequences that are not too large have no range that is.
pub proof fn lemma_range_not_too_large(n: int, m: int, sn: int, sm: int, algorithm: DiffAlgorithm)
    requires
        !too_large(n, m, algorithm),
        0 <= sn <= n,
        0 <= sm <= m,
    ensures
        !too_large(sn, sm, algorithm),
{
    assert((sn + 1) * (sm + 1) <= (n + 1) * (m + 1)) by (nonlinear_arith)
        requires
            0 <= sn <= n,
            0 <= sm <= m,
    ;
}

/// What the hunk `s[k]` adds to the division of the conflict `r`: the
/// agreed lines before it, and the hunk as a conflict.
pub open spec fn hunk_pieces(r: Region, s: Seq<Hunk>, k: int) -> Seq<Region> {
    let h = s[k];
    let pa = prev_base_end(s, k);
    let pb = prev_other_end(s, k);
    let b0 = if k == 0 {
        r.base_start as int
    } else {
        r.base_end()
    };
    agreed(b0, r.ours_start + pa, r.theirs_start + pb, h.base_start - pa).push(
        region_between(
            RegionKind::Conflict,
            b0,
            r.base_end(),
            r.ours_start + h.base_start,
            r.ours_start + h.base_end(),
            r.theirs_start + h.other_start,
            r.theirs_start + h.other_end(),
        ),
    )
}

/// Adds to `out` the pieces of the hunk `s[k]`.
fn split_hunk(
    out: &mut Vec<Region>,
    r: Region,
    s: &Vec<Hunk>,
    k: usize,
    base_count: usize,
    ours_count: usize,
    theirs_count: usize,
    Ghost(x): Ghost<Seq<Seq<char>>>,
    Ghost(y): Ghost<Seq<Seq<char>>>,
)
    requires
        chained(old(out)@, base_count as int, ours_count as int, theirs_count as int),
        r.base_end() <= base_count,
        r.ours_end() <= ours_count,
        r.theirs_end() <= theirs_count,
        x.len() == r.ours_len,
        y.len() == r.theirs_len,
        script_valid(x, y, s@),
        k < s@.len(),
        base_before(old(out)@, old(out)@.len() as int) == (if k == 0 {
            r.base_start as int
        } else {
            r.base_end()
        }),
        ours_before(old(out)@, old(out)@.len() as int) == r.ours_start + prev_base_end(s@, k as int),
        theirs_before(old(out)@, old(out)@.len() as int) == r.theirs_start + prev_other_end(s@, k as int),
    ensures
        final(out)@ == old(out)@ + hunk_pieces(r, s@, k as int),
        chained(final(out)@, base_count as int, ours_count as int, theirs_count as int),
        base_before(final(out)@, final(out)@.len() as int) == r.base_end(),
        ours_before(final(out)@, final(out)@.len() as int) == r.ours_start + s@[k as int].base_end(),
        theirs_before(final(out)@, final(out)@.len() as int) == r.theirs_start + s@[k as int].other_end(),
{
    let ghost n0 = base_count as int;
    let ghost n1 = ours_count as int;
    let ghost n2 = theirs_count as int;
    let h: Hunk = s[k];
    proof {
        assert(hunk_valid(x, y, s@, k as int));
        if k > 0 {
            assert(hunk_valid(x, y, s@, k - 1));
        }
    }
    let base_end: usize = r.base_start + r.base_len;
    let b0: usize = if k == 0 {
        r.base_start
    } else {
        base_end
    };
    let pa: usize = if k == 0 {
        0
    } else {
        s[k - 1].base_start + s[k - 1].base_len
    };
    let pb: usize = if k == 0 {
        0
    } else {
        s[k - 1].other_start + s[k - 1].other_len
    };
    let ghost o1 = out@;
    push_agreed(out, b0, r.ours_start + pa, r.theirs_start + pb, h.base_start - pa, Ghost(n0), Ghost(n1), Ghost(n2));
    let ghost o2 = out@;
    let piece = Region {
        kind: RegionKind::Conflict,
        base_start: b0,
        base_len: base_end - b0,
        ours_start: r.ours_start + h.base_start,
        ours_len: h.base_len,
        theirs_start: r.theirs_start + h.other_start,
        theirs_len: h.other_len,
    };
    push_region(out, piece, Ghost(n0), Ghost(n1), Ghost(n2));
    proof {
        let ag = agreed(b0 as int, r.ours_start + pa, r.theirs_start + pb, h.base_start - pa);
        assert(o2 == o1 + ag);
        assert(out@ == o2.push(piece));
        assert((o1 + ag).push(piece) =~= o1 + ag.push(piece));
    }
}

/// Adds to `out` the pieces of all hunks of the script `s`.
fn split_hunks(
    out: &mut Vec<Region>,
    r: Region,
    s: &Vec<Hunk>,
    base_count: usize,
    ours_count: usize,
    theirs_count: usize,
    Ghost(x): Ghost<Seq<Seq<char>>>,
    Ghost(y): Ghost<Seq<Seq<char>>>,
)
    requires
        chained(old(out)@, base_count as int, ours_count as int, theirs_count as int),
        r.base_start == base_before(old(out)@, old(out)@.len() as int),
        r.ours_start == ours_before(old(out)@, old(out)@.len() as int),
        r.theirs_start == theirs_before(old(out)@, old(out)@.len() as int),
        r.base_end() <= base_count,
        r.ours_end() <= ours_count,
        r.theirs_end() <= theirs_count,
        x.len() == r.ours_len,
        y.len() == r.theirs_len,
        script_valid(x, y, s@),
        s@.len() > 0,
    ensures
        final(out)@ == old(out)@ + split_upto(r, s@, s@.len() as int),
        chained(final(out)@, base_count as int, ours_count as int, theirs_count as int),
        base_before(final(out)@, final(out)@.len() as int) == r.base_end(),
        ours_before(final(out)@, final(out)@.len() as int) == r.ours_start + s@[s@.len() - 1].base_end(),
        theirs_before(final(out)@, final(out)@.len() as int) == r.theirs_start + s@[s@.len() - 1].other_end(),
{
    let ghost before = out@;
    let mut k: usize = 0;
    assert(out@ =~= before + split_upto(r, s@, 0));
    while k < s.len()
        invariant
            k <= s@.len(),
            s@.len() > 0,
            r.base_end() <= base_count,
            r.ours_end() <= ours_count,
            r.theirs_end() <= theirs_count,
            x.len() == r.ours_len,
            y.len() == r.theirs_len,
            script_valid(x, y, s@),
            out@ == before + split_upto(r, s@, k as int),
            chained(out@, base_count as int, ours_count as int, theirs_count as int),
            base_before(out@, out@.len() as int) == (if k == 0 {
                r.base_start as int
            } else {
                r.base_end()
            }),
            ours_before(out@, out@.len() as int) == r.ours_start + prev_base_end(s@, k as int),
            theirs_before(out@, out@.len() as int) == r.theirs_start + prev_other_end(s@, k as int),
        decreases s@.len() - k,
    {
        split_hunk(out, r, s, k, base_count, ours_count, theirs_count, Ghost(x), Ghost(y));
        proof {
            assert(split_upto(r, s@, k + 1) == split_upto(r, s@, k as int) + hunk_pieces(r, s@, k as int));
            assert((before + split_upto(r, s@, k as int)) + hunk_pieces(r, s@, k as int) =~= before + (
            split_upto(r, s@, k as int) + hunk_pieces(r, s@, k as int)));
        }
        k += 1;
    }
}

/// The ends of the last hunk of a script between sequences of the given
/// lengths lie equally far from the ends of the sequences.
pub proof fn lemma_script_tail<T>(x: Seq<T>, y: Seq<T>, s: Seq<Hunk>)
    requires
        script_valid(x, y, s),
        s.len() > 0,
    ensures
        s[s.len() - 1].base_end() <= x.len(),
        s[s.len() - 1].other_end() <= y.len(),
        x.len() - s[s.len() - 1].base_end() == y.len() - s[s.len() - 1].other_end(),
{
    assert(hunk_valid(x, y, s, s.len() - 1));
}

/// Adds to `out` what the script `s` between its sides makes of the
/// conflict `r`.
fn split_one(
    out: &mut Vec<Region>,
    r: Region,
    s: &Vec<Hunk>,
    base_count: usize,
    ours_count: usize,
    theirs_count: usize,
    Ghost(x): Ghost<Seq<Seq<char>>>,
    Ghost(y): Ghost<Seq<Seq<char>>>,
)
    requires
        chained(old(out)@, base_count as int, ours_count as int, theirs_count as int),
        r.base_start == base_before(old(out)@, old(out)@.len() as int),
        r.ours_start == ours_before(old(out)@, old(out)@.len() as int),
        r.theirs_start == theirs_before(old(out)@, old(out)@.len() as int),
        r.base_end() <= base_count,
        r.ours_end() <= ours_count,
        r.theirs_end() <= theirs_count,
        refinable(r),
        x.len() == r.ours_len,
        y.len() == r.theirs_len,
        script_valid(x, y, s@),
    ensures
        final(out)@ == old(out)@ + split_by(r, s@),
        chained(final(out)@, base_count as int, ours_count as int, theirs_count as int),
        base_before(final(out)@, final(out)@.len() as int) == r.base_end(),
        ours_before(final(out)@, final(out)@.len() as int) == r.ours_end(),
        theirs_before(final(out)@, final(out)@.len() as int) == r.theirs_end(),
{
    let ghost n0 = base_count as int;
    let ghost n1 = ours_count as int;
    let ghost n2 = theirs_count as int;
    let ghost before = out@;
    if s.len() == 0 {
        let whole = Region {
            kind: RegionKind::Concordant,
            base_start: r.base_start,
            base_len: r.base_len,
            ours_start: r.ours_start,
            ours_len: r.ours_len,
            theirs_start: r.theirs_start,
            theirs_len: r.theirs_len,
        };
        push_region(out, whole, Ghost(n0), Ghost(n1), Ghost(n2));
        assert(out@ =~= before + split_by(r, s@));
    } else {
        split_hunks(out, r, s, base_count, ours_count, theirs_count, Ghost(x), Ghost(y));
        let ghost o3 = out@;
        let last: Hunk = s[s.len() - 1];
        proof {
            lemma_script_tail(x, y, s@);
        }
        let pa: usize = last.base_start + last.base_len;
        let pb: usize = last.other_start + last.other_len;
        push_agreed(
            out,
            r.base_start + r.base_len,
            r.ours_start + pa,
            r.theirs_start + pb,
            r.ours_len - pa,
            Ghost(n0),
            Ghost(n1),
            Ghost(n2),
        );
        proof {
            let ag = agreed(r.base_end(), r.ours_start + pa, r.theirs_start + pb, r.ours_len - pa);
            let up = split_upto(r, s@, s@.len() as int);
            assert(o3 == before + up);
            assert(out@ == o3 + ag);
            assert((before + up) + ag =~= before + (up + ag));
            assert(split_by(r, s@) == up + ag);
        }
    }
}

/// Looks into one region: a conflict with lines on both sides is divided
/// by an edit script between them; any other region stays. Returns the
/// script that was used.
fn refine_one(
    out: &mut Vec<Region>,
    r: Region,
    base_count: usize,
    ours: &Vec<Vec<char>>,
    theirs: &Vec<Vec<char>>,
    algorithm: DiffAlgorithm,
) -> (sub: Ghost<Seq<Hunk>>)
    requires
        chained(old(out)@, base_count as int, ours@.len() as int, theirs@.len() as int),
        r.base_start == base_before(old(out)@, old(out)@.len() as int),
        r.ours_start == ours_before(old(out)@, old(out)@.len() as int),
        r.theirs_start == theirs_before(old(out)@, old(out)@.len() as int),
        r.base_end() <= base_count,
        r.ours_end() <= ours@.len(),
        r.theirs_end() <= theirs@.len(),
        !too_large(ours@.len() as int, theirs@.len() as int, algorithm),
    ensures
        final(out)@ == old(out)@ + split_by(r, sub@),
        refinable(r) ==> diff_post(
            ours_of(line_views(ours@), r),
            theirs_of(line_views(theirs@), r),
            algorithm,
            sub@,
        ),
        chained(final(out)@, base_count as int, ours@.len() as int, theirs@.len() as int),
        base_before(final(out)@, final(out)@.len() as int) == r.base_end(),
        ours_before(final(out)@, final(out)@.len() as int) == r.ours_end(),
        theirs_before(final(out)@, final(out)@.len() as int) == r.theirs_end(),
{
    let ghost vo = line_views(ours@);
    let ghost vt = line_views(theirs@);
    let ghost before = out@;
    let ours_count: usize = ours.len();
    let theirs_count: usize = theirs.len();
    let can: bool = match r.kind {
        RegionKind::Conflict => r.ours_len > 0 && r.theirs_len > 0,
        _ => false,
    };
    if can {
        proof {
            lemma_range_not_too_large(
                ours_count as int,
                theirs_count as int,
                r.ours_len as int,
                r.theirs_len as int,
                algorithm,
            );
        }
        let found = diff_range(
            ours,
            r.ours_start,
            r.ours_start + r.ours_len,
            theirs,
            r.theirs_start,
            r.theirs_start + r.theirs_len,
            algorithm,
        );
        let s: Vec<Hunk> = match found {
            Ok(s) => s,
            Err(_) => unreached(),
        };
        split_one(out, r, &s, base_count, ours_count, theirs_count, Ghost(ours_of(vo, r)), Ghost(theirs_of(vt, r)));
        Ghost(s@)
    } else {
        push_region(out, r, Ghost(base_count as int), Ghost(ours_count as int), Ghost(theirs_count as int));
        assert(out@ =~= before + split_by(r, Seq::empty()));
        Ghost(Seq::empty())
    }
}

/// Scripts that fit the regions still fit when a region and its script
/// are added.
pub proof fn lemma_subs_ok_push(
    rs: Seq<Region>,
    subs: Seq<Seq<Hunk>>,
    r: Region,
    sub: Seq<Hunk>,
    ours: Seq<Seq<char>>,
    theirs: Seq<Seq<char>>,
    algorithm: DiffAlgorithm,
)
    requires
        subs_ok(rs, subs, ours, theirs, algorithm),
        refinable(r) ==> diff_post(ours_of(ours, r), theirs_of(theirs, r), algorithm, sub),
    ensures
        subs_ok(rs.push(r), subs.push(sub), ours, theirs, algorithm),
        split_all(rs.push(r), subs.push(sub)) == split_all(rs, subs) + split_by(r, sub),
{
    let rs2 = rs.push(r);
    let subs2 = subs.push(sub);
    assert(rs2.drop_last() =~= rs);
    assert(subs2.drop_last() =~= subs);
    assert forall|i: int| 0 <= i < rs2.len() && refinable(#[trigger] rs2[i]) implies diff_post(
        ours_of(ours, rs2[i]),
        theirs_of(theirs, rs2[i]),
        algorithm,
        subs2[i],
    ) by {
        if i < rs.len() {
            assert(rs2[i] == rs[i]);
            assert(refinable(rs[i]));
            assert(subs2[i] == subs[i]);
        }
    }
}

/// Looks into every conflict with lines on both sides: an edit script
/// between the two sides divides it into the lines that both sides hold,
/// which are agreed, and smaller conflicts. Returns the new regions and the
/// scripts that were used, one for each region that was given.
pub fn refine_conflicts(
    rs: &Vec<Region>,
    base_count: usize,
    ours: &Vec<Vec<char>>,
    theirs: &Vec<Vec<char>>,
    algorithm: DiffAlgorithm,
) -> (res: (Vec<Region>, Ghost<Seq<Seq<Hunk>>>))
    requires
        tiles(rs@, base_count as int, ours@.len() as int, theirs@.len() as int),
        !too_large(ours@.len() as int, theirs@.len() as int, algorithm),
    ensures
        res.0@ == split_all(rs@, res.1@),
        subs_ok(rs@, res.1@, line_views(ours@), line_views(theirs@), algorithm),
        tiles(res.0@, base_count as int, ours@.len() as int, theirs@.len() as int),
{
    let ghost vo = line_views(ours@);
    let ghost vt = line_views(theirs@);
    let ghost n0 = base_count as int;
    let ghost n1 = ours@.len() as int;
    let ghost n2 = theirs@.len() as int;
    let mut out: Vec<Region> = Vec::new();
    let ghost mut subs: Seq<Seq<Hunk>> = Seq::empty();
    let mut i: usize = 0;
    assert(rs@.take(0) =~= Seq::<Region>::empty());
    while i < rs.len()
        invariant
            i <= rs@.len(),
            vo == line_views(ours@),
            vt == line_views(theirs@),
            n0 == base_count,
            n1 == ours@.len(),
            n2 == theirs@.len(),
            !too_large(n1, n2, algorithm),
            tiles(rs@, n0, n1, n2),
            out@ == split_all(rs@.take(i as int), subs),
            subs_ok(rs@.take(i as int), subs, vo, vt, algorithm),
            chained(out@, n0, n1, n2),
            base_before(out@, out@.len() as int) == base_before(rs@, i as int),
            ours_before(out@, out@.len() as int) == ours_before(rs@, i as int),
            theirs_before(out@, out@.len() as int) == theirs_before(rs@, i as int),
        decreases rs@.len() - i,
    {
        let r: Region = rs[i];
        proof {
            assert(rs@.take(i + 1) =~= rs@.take(i as int).push(r));
            assert(rs@[i as int].base_start == base_before(rs@, i as int));
        }
        let sub = refine_one(&mut out, r, base_count, ours, theirs, algorithm);
        proof {
            lemma_subs_ok_push(rs@.take(i as int), subs, r, sub@, vo, vt, algorithm);
            subs = subs.push(sub@);
        }
        i += 1;
    }
    assert(rs@.take(i as int) =~= rs@);
    (out, Ghost(subs))
}

} // verus!
