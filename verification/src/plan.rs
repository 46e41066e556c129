//! The merge planner: a sweep over the two edit scripts, base to ours and
//! base to theirs, that divides the three texts into regions.
//!
//! Hunks of the two scripts whose stretches of the base overlap or touch
//! form a cluster, and a cluster becomes one region over the smallest
//! stretch of the base that holds all its hunks. What lies between two
//! clusters is stable.

use vstd::prelude::*;
use crate::region::{
    base_before, chained, classified, lemma_classified_add, ours_before, push_region, region_between,
    region_holds, runs_match, theirs_before, tiles, Region, RegionKind,
};
use crate::script::{hunk_valid, prev_base_end, prev_other_end, script_valid, Hunk};
use crate::spacing::{alternating, lemma_alternating_end, lemma_alternating_step};
use crate::text::line_views;
use crate::types::MergeLevel;

verus! {

/// The larger of two numbers.
pub open spec fn larger(x: int, y: int) -> int {
    if x >= y {
        x
    } else {
        y
    }
}

/// Takes into the cluster that reaches up to `hi` every further hunk, from
/// `s1[j1]` and `s2[j2]` on, that starts at or before the cluster's end,
/// and gives the first hunks left out and the end of the cluster.
pub open spec fn grow(s1: Seq<Hunk>, s2: Seq<Hunk>, j1: int, j2: int, hi: int) -> (int, int, int)
    decreases s1.len() - j1 + s2.len() - j2,
{
    if j1 < 0 || j2 < 0 || j1 > s1.len() || j2 > s2.len() {
        (j1, j2, hi)
    } else if j1 < s1.len() && s1[j1].base_start <= hi {
        grow(s1, s2, j1 + 1, j2, larger(hi, s1[j1].base_end()))
    } else if j2 < s2.len() && s2[j2].base_start <= hi {
        grow(s1, s2, j1, j2 + 1, larger(hi, s2[j2].base_end()))
    } else {
        (j1, j2, hi)
    }
}

/// Where the next cluster starts in the base: at the earlier of the next
/// hunks of the two scripts.
pub open spec fn first_start(s1: Seq<Hunk>, s2: Seq<Hunk>, k1: int, k2: int) -> int {
    if k1 < s1.len() && (k2 >= s2.len() || s1[k1].base_start <= s2[k2].base_start) {
        s1[k1].base_start as int
    } else {
        s2[k2].base_start as int
    }
}

/// Where a cluster that holds the hunks `s[k..j]` and reaches from `lo` to
/// `hi` in the base ends on the side of `s`, on which it starts at `start`.
pub open spec fn side_end(s: Seq<Hunk>, k: int, j: int, start: int, lo: int, hi: int) -> int {
    if j > k {
        s[j - 1].other_end() + (hi - s[j - 1].base_end())
    } else {
        start + (hi - lo)
    }
}

/// The class of the cluster of the hunks `s1[k1..j1]` and `s2[k2..j2]`,
/// which holds our lines `ours[o0..o1]` and their lines `theirs[t0..t1]`.
/// Where both sides changed the cluster, they agree if their lines are the
/// same, unless the level asks for no such comparison; otherwise they are
/// in conflict.
pub open spec fn cluster_kind(
    ours: Seq<Seq<char>>,
    theirs: Seq<Seq<char>>,
    k1: int,
    j1: int,
    k2: int,
    j2: int,
    o0: int,
    o1: int,
    t0: int,
    t1: int,
    level: MergeLevel,
) -> RegionKind {
    if j2 == k2 {
        RegionKind::OursOnly
    } else if j1 == k1 {
        RegionKind::TheirsOnly
    } else if level != MergeLevel::Minimal && ours.subrange(o0, o1) == theirs.subrange(t0, t1) {
        RegionKind::Concordant
    } else {
        RegionKind::Conflict
    }
}

/// The stable region of `len` lines from the given places on, or nothing
/// where `len` is 0.
pub open spec fn stable_run(base_at: int, ours_at: int, theirs_at: int, len: int) -> Seq<Region> {
    if len > 0 {
        seq![region_between(RegionKind::Stable, base_at, base_at + len, ours_at, ours_at + len, theirs_at, theirs_at + len)]
    } else {
        Seq::empty()
    }
}

/// The regions from the places `base_at`, `ours_at`, `theirs_at` of the three texts on,
/// with the hunks before `s1[k1]` and `s2[k2]` done with.
pub open spec fn plan_from(
    ours: Seq<Seq<char>>,
    theirs: Seq<Seq<char>>,
    s1: Seq<Hunk>,
    s2: Seq<Hunk>,
    level: MergeLevel,
    n0: int,
    k1: int,
    k2: int,
    base_at: int,
    ours_at: int,
    theirs_at: int,
) -> Seq<Region>
    decreases s1.len() - k1 + s2.len() - k2,
{
    if k1 < 0 || k2 < 0 || (k1 >= s1.len() && k2 >= s2.len()) {
        stable_run(base_at, ours_at, theirs_at, n0 - base_at)
    } else {
        let lo = first_start(s1, s2, k1, k2);
        let (j1, j2, hi) = grow(s1, s2, k1, k2, lo);
        let o0 = ours_at + (lo - base_at);
        let t0 = theirs_at + (lo - base_at);
        let o1 = side_end(s1, k1, j1, o0, lo, hi);
        let t1 = side_end(s2, k2, j2, t0, lo, hi);
        let kind = cluster_kind(ours, theirs, k1, j1, k2, j2, o0, o1, t0, t1, level);
        let head = stable_run(base_at, ours_at, theirs_at, lo - base_at).push(region_between(kind, lo, hi, o0, o1, t0, t1));
        if j1 + j2 > k1 + k2 && j1 <= s1.len() && j2 <= s2.len() {
            head + plan_from(ours, theirs, s1, s2, level, n0, j1, j2, hi, o1, t1)
        } else {
            head
        }
    }
}

/// The regions that two edit scripts from the base give.
pub open spec fn plan_of(
    base: Seq<Seq<char>>,
    ours: Seq<Seq<char>>,
    theirs: Seq<Seq<char>>,
    s1: Seq<Hunk>,
    s2: Seq<Hunk>,
    level: MergeLevel,
) -> Seq<Region> {
    plan_from(ours, theirs, s1, s2, level, base.len() as int, 0, 0, 0, 0, 0)
}

/// The sweep has done with the hunks before `s[k]` and stands at `base_at` in
/// the base and at `p` on the side of `s`, between two hunks.
pub open spec fn between_hunks<T>(base: Seq<T>, side: Seq<T>, s: Seq<Hunk>, k: int, base_at: int, p: int) -> bool {
    &&& 0 <= k <= s.len()
    &&& prev_base_end(s, k) <= base_at <= base.len()
    &&& p - base_at == prev_other_end(s, k) - prev_base_end(s, k)
    &&& k < s.len() ==> base_at <= s[k].base_start
}

/// Between two hunks, a place of the base has its place on the side.
pub proof fn lemma_between_hunks<T>(base: Seq<T>, side: Seq<T>, s: Seq<Hunk>, k: int, base_at: int, p: int)
    requires
        script_valid(base, side, s),
        between_hunks(base, side, s, k, base_at, p),
    ensures
        0 <= prev_other_end(s, k) <= p <= side.len(),
        k < s.len() ==> p <= s[k].other_start && s[k].other_start - p == s[k].base_start - base_at,
        k == s.len() ==> side.len() - p == base.len() - base_at,
        forall|i: int| 0 <= i < s.len() ==> (#[trigger] s[i]).base_end() <= base.len() && s[i].other_end() <= side.len(),
{
    if k < s.len() {
        assert(hunk_valid(base, side, s, k));
    }
    if k > 0 {
        assert(hunk_valid(base, side, s, k - 1));
    }
    assert forall|i: int| 0 <= i < s.len() implies (#[trigger] s[i]).base_end() <= base.len() && s[i].other_end()
        <= side.len() by {
        assert(hunk_valid(base, side, s, i));
    }
}

/// Takes further hunks into a cluster, as `grow` says.
fn grow_cluster(s1: &Vec<Hunk>, s2: &Vec<Hunk>, k1: usize, k2: usize, lo: usize, n0: usize) -> (r: (
    usize,
    usize,
    usize,
))
    requires
        k1 <= s1@.len(),
        k2 <= s2@.len(),
        lo <= n0,
        forall|i: int| 0 <= i < s1@.len() ==> (#[trigger] s1@[i]).base_end() <= n0,
        forall|i: int| 0 <= i < s2@.len() ==> (#[trigger] s2@[i]).base_end() <= n0,
    ensures
        (r.0 as int, r.1 as int, r.2 as int) == grow(s1@, s2@, k1 as int, k2 as int, lo as int),
        k1 <= r.0 <= s1@.len(),
        k2 <= r.1 <= s2@.len(),
        lo <= r.2 <= n0,
        forall|i: int| k1 <= i < r.0 ==> (#[trigger] s1@[i]).base_end() <= r.2,
        forall|i: int| k2 <= i < r.1 ==> (#[trigger] s2@[i]).base_end() <= r.2,
        r.0 < s1@.len() ==> s1@[r.0 as int].base_start > r.2,
        r.1 < s2@.len() ==> s2@[r.1 as int].base_start > r.2,
        k1 < s1@.len() && s1@[k1 as int].base_start <= lo ==> r.0 > k1,
        k2 < s2@.len() && s2@[k2 as int].base_start <= lo ==> r.0 > k1 || r.1 > k2,
{
    let mut j1: usize = k1;
    let mut j2: usize = k2;
    let mut hi: usize = lo;
    loop
        invariant
            k1 <= j1 <= s1@.len(),
            k2 <= j2 <= s2@.len(),
            lo <= hi <= n0,
            forall|i: int| 0 <= i < s1@.len() ==> (#[trigger] s1@[i]).base_end() <= n0,
            forall|i: int| 0 <= i < s2@.len() ==> (#[trigger] s2@[i]).base_end() <= n0,
            grow(s1@, s2@, j1 as int, j2 as int, hi as int) == grow(s1@, s2@, k1 as int, k2 as int, lo as int),
            forall|i: int| k1 <= i < j1 ==> (#[trigger] s1@[i]).base_end() <= hi,
            forall|i: int| k2 <= i < j2 ==> (#[trigger] s2@[i]).base_end() <= hi,
            k1 < s1@.len() && s1@[k1 as int].base_start <= lo ==> j1 > k1 || (j1 == k1 && j2 == k2),
            k2 < s2@.len() && s2@[k2 as int].base_start <= lo ==> j1 > k1 || j2 > k2 || (j1 == k1 && j2 == k2),
        ensures
            k1 <= j1 <= s1@.len(),
            k2 <= j2 <= s2@.len(),
            lo <= hi <= n0,
            (j1 as int, j2 as int, hi as int) == grow(s1@, s2@, k1 as int, k2 as int, lo as int),
            forall|i: int| k1 <= i < j1 ==> (#[trigger] s1@[i]).base_end() <= hi,
            forall|i: int| k2 <= i < j2 ==> (#[trigger] s2@[i]).base_end() <= hi,
            j1 < s1@.len() ==> s1@[j1 as int].base_start > hi,
            j2 < s2@.len() ==> s2@[j2 as int].base_start > hi,
            k1 < s1@.len() && s1@[k1 as int].base_start <= lo ==> j1 > k1,
            k2 < s2@.len() && s2@[k2 as int].base_start <= lo ==> j1 > k1 || j2 > k2,
        decreases s1@.len() - j1 + s2@.len() - j2,
    {
        if j1 < s1.len() && s1[j1].base_start <= hi {
            let end: usize = s1[j1].base_start + s1[j1].base_len;
            if end > hi {
                hi = end;
            }
            j1 += 1;
        } else if j2 < s2.len() && s2[j2].base_start <= hi {
            let end: usize = s2[j2].base_start + s2[j2].base_len;
            if end > hi {
                hi = end;
            }
            j2 += 1;
        } else {
            break ;
        }
    }
    (j1, j2, hi)
}

/// Between two hunks the base and the side read the same.
pub proof fn lemma_between_equal<T>(base: Seq<T>, side: Seq<T>, s: Seq<Hunk>, k: int, base_at: int, p: int, len: int)
    requires
        script_valid(base, side, s),
        between_hunks(base, side, s, k, base_at, p),
        0 <= len,
        k < s.len() ==> base_at + len <= s[k].base_start,
        k >= s.len() ==> base_at + len <= base.len(),
    ensures
        base.subrange(base_at, base_at + len) == side.subrange(p, p + len),
{
    lemma_between_hunks(base, side, s, k, base_at, p);
    let pa = prev_base_end(s, k);
    let pb = prev_other_end(s, k);
    if k < s.len() {
        assert(hunk_valid(base, side, s, k));
    }
    let x = base.subrange(base_at, base_at + len);
    let y = side.subrange(p, p + len);
    assert forall|t: int| 0 <= t < len implies #[trigger] x[t] == y[t] by {
        assert(base[pa + (base_at - pa + t)] == side[pb + (base_at - pa + t)]);
    }
    assert(x =~= y);
}

/// The hunks of an edit script lie one behind the other on both sides.
pub proof fn lemma_hunks_ordered<T>(base: Seq<T>, side: Seq<T>, s: Seq<Hunk>, i: int, j: int)
    requires
        script_valid(base, side, s),
        0 <= i <= j < s.len(),
    ensures
        s[i].base_start <= s[j].base_start,
        s[i].other_start <= s[j].other_start,
        i < j ==> s[i].base_end() <= s[j].base_start && s[i].other_end() <= s[j].other_start,
    decreases j - i,
{
    if i < j {
        assert(hunk_valid(base, side, s, j));
        assert(hunk_valid(base, side, s, j - 1));
        lemma_hunks_ordered(base, side, s, i, j - 1);
    }
}

/// Where a cluster ends on the side of `s`, computed.
fn side_end_of(s: &Vec<Hunk>, k: usize, j: usize, start: usize, lo: usize, hi: usize, limit: usize) -> (e: usize)
    requires
        k <= j <= s@.len(),
        lo <= hi,
        0 <= side_end(s@, k as int, j as int, start as int, lo as int, hi as int) <= limit,
        j > k ==> s@[j - 1].base_end() <= hi && s@[j - 1].other_end() <= limit,
    ensures
        e == side_end(s@, k as int, j as int, start as int, lo as int, hi as int),
{
    if j > k {
        let h: Hunk = s[j - 1];
        let base_end: usize = h.base_start + h.base_len;
        let other_end: usize = h.other_start + h.other_len;
        other_end + (hi - base_end)
    } else {
        start + (hi - lo)
    }
}

/// One cluster of the sweep: the first hunks beyond it, and where it
/// starts and ends in the three texts.
pub struct Cluster {
    pub j1: usize,
    pub j2: usize,
    pub lo: usize,
    pub hi: usize,
    pub o0: usize,
    pub o1: usize,
    pub t0: usize,
    pub t1: usize,
    pub kind: RegionKind,
}

/// The class of a cluster, as `cluster_kind` names it.
fn class_of(
    ours: &Vec<Vec<char>>,
    theirs: &Vec<Vec<char>>,
    level: MergeLevel,
    k1: usize,
    j1: usize,
    k2: usize,
    j2: usize,
    o0: usize,
    o1: usize,
    t0: usize,
    t1: usize,
) -> (kind: RegionKind)
    requires
        o0 <= o1 <= ours@.len(),
        t0 <= t1 <= theirs@.len(),
    ensures
        kind == cluster_kind(
            line_views(ours@),
            line_views(theirs@),
            k1 as int,
            j1 as int,
            k2 as int,
            j2 as int,
            o0 as int,
            o1 as int,
            t0 as int,
            t1 as int,
            level,
        ),
        kind != RegionKind::Stable,
{
    if j2 == k2 {
        RegionKind::OursOnly
    } else if j1 == k1 {
        RegionKind::TheirsOnly
    } else {
        let compare: bool = match level {
            MergeLevel::Minimal => false,
            _ => true,
        };
        proof {
            assert(line_views(ours@).subrange(o0 as int, o1 as int).len() == o1 - o0);
            assert(line_views(theirs@).subrange(t0 as int, t1 as int).len() == t1 - t0);
        }
        if compare && o1 - o0 == t1 - t0 && runs_match(ours, o0, theirs, t0, o1 - o0) {
            RegionKind::Concordant
        } else {
            RegionKind::Conflict
        }
    }
}

/// Finds the next cluster from the places `base_at`, `ours_at`, `theirs_at` on.
#[verifier::rlimit(40)]
fn next_cluster(
    base: &Vec<Vec<char>>,
    ours: &Vec<Vec<char>>,
    theirs: &Vec<Vec<char>>,
    s1: &Vec<Hunk>,
    s2: &Vec<Hunk>,
    level: MergeLevel,
    k1: usize,
    k2: usize,
    base_at: usize,
    ours_at: usize,
    theirs_at: usize,
) -> (c: Cluster)
    requires
        script_valid(line_views(base@), line_views(ours@), s1@),
        script_valid(line_views(base@), line_views(theirs@), s2@),
        between_hunks(line_views(base@), line_views(ours@), s1@, k1 as int, base_at as int, ours_at as int),
        between_hunks(line_views(base@), line_views(theirs@), s2@, k2 as int, base_at as int, theirs_at as int),
        k1 < s1@.len() || k2 < s2@.len(),
    ensures
        c.lo == first_start(s1@, s2@, k1 as int, k2 as int),
        (c.j1 as int, c.j2 as int, c.hi as int) == grow(s1@, s2@, k1 as int, k2 as int, c.lo as int),
        c.o0 == ours_at + (c.lo - base_at),
        c.t0 == theirs_at + (c.lo - base_at),
        c.o1 == side_end(s1@, k1 as int, c.j1 as int, c.o0 as int, c.lo as int, c.hi as int),
        c.t1 == side_end(s2@, k2 as int, c.j2 as int, c.t0 as int, c.lo as int, c.hi as int),
        c.kind == cluster_kind(
            line_views(ours@),
            line_views(theirs@),
            k1 as int,
            c.j1 as int,
            k2 as int,
            c.j2 as int,
            c.o0 as int,
            c.o1 as int,
            c.t0 as int,
            c.t1 as int,
            level,
        ),
        k1 <= c.j1 <= s1@.len(),
        k2 <= c.j2 <= s2@.len(),
        c.j1 + c.j2 > k1 + k2,
        base_at <= c.lo <= c.hi <= base@.len(),
        c.o0 <= c.o1 <= ours@.len(),
        c.t0 <= c.t1 <= theirs@.len(),
        between_hunks(line_views(base@), line_views(ours@), s1@, c.j1 as int, c.hi as int, c.o1 as int),
        between_hunks(line_views(base@), line_views(theirs@), s2@, c.j2 as int, c.hi as int, c.t1 as int),
        classified(
            step_regions(base_at as int, ours_at as int, theirs_at as int, c),
            line_views(base@),
            line_views(ours@),
            line_views(theirs@),
        ),
        (c.hi - c.lo) + (c.o1 - c.o0) + (c.t1 - c.t0) > 0,
        c.kind != RegionKind::Stable,
        c.j1 < s1@.len() ==> s1@[c.j1 as int].base_start > c.hi,
        c.j2 < s2@.len() ==> s2@[c.j2 as int].base_start > c.hi,
{
    let n0: usize = base.len();
    let n1: usize = ours.len();
    let n2: usize = theirs.len();
    let ghost vb = line_views(base@);
    let ghost vo = line_views(ours@);
    let ghost vt = line_views(theirs@);
    proof {
        lemma_between_hunks(vb, vo, s1@, k1 as int, base_at as int, ours_at as int);
        lemma_between_hunks(vb, vt, s2@, k2 as int, base_at as int, theirs_at as int);
    }
    let lo: usize = if k1 < s1.len() && (k2 >= s2.len() || s1[k1].base_start <= s2[k2].base_start) {
        s1[k1].base_start
    } else {
        s2[k2].base_start
    };
    let (j1, j2, hi) = grow_cluster(s1, s2, k1, k2, lo, n0);
    let gap: usize = lo - base_at;
    let o0: usize = ours_at + gap;
    let t0: usize = theirs_at + gap;
    proof {
        let e1 = side_end(s1@, k1 as int, j1 as int, o0 as int, lo as int, hi as int);
        let e2 = side_end(s2@, k2 as int, j2 as int, t0 as int, lo as int, hi as int);
        if j1 > k1 {
            lemma_hunks_ordered(vb, vo, s1@, k1 as int, j1 - 1);
            assert(hunk_valid(vb, vo, s1@, j1 - 1));
        }
        if j2 > k2 {
            lemma_hunks_ordered(vb, vt, s2@, k2 as int, j2 - 1);
            assert(hunk_valid(vb, vt, s2@, j2 - 1));
        }
        assert(between_hunks(vb, vo, s1@, j1 as int, hi as int, e1));
        assert(between_hunks(vb, vt, s2@, j2 as int, hi as int, e2));
        lemma_between_hunks(vb, vo, s1@, j1 as int, hi as int, e1);
        lemma_between_hunks(vb, vt, s2@, j2 as int, hi as int, e2);
        assert(o0 <= e1);
        assert(t0 <= e2);
    }
    let o1: usize = side_end_of(s1, k1, j1, o0, lo, hi, n1);
    let t1: usize = side_end_of(s2, k2, j2, t0, lo, hi, n2);
    let kind: RegionKind = class_of(ours, theirs, level, k1, j1, k2, j2, o0, o1, t0, t1);
    let c = Cluster { j1, j2, lo, hi, o0, o1, t0, t1, kind };
    proof {
        lemma_step_classified(vb, vo, vt, s1@, s2@, level, k1 as int, k2 as int, base_at as int, ours_at as int, theirs_at as int, c);
        if j1 > k1 {
            assert(hunk_valid(vb, vo, s1@, k1 as int));
            assert(s1@[k1 as int].base_end() <= hi);
        } else {
            assert(hunk_valid(vb, vt, s2@, k2 as int));
            assert(s2@[k2 as int].base_end() <= hi);
        }
    }
    c
}

/// The regions that one step of the sweep adds: the stable lines before
/// the cluster, and the cluster.
pub open spec fn step_regions(base_at: int, ours_at: int, theirs_at: int, c: Cluster) -> Seq<Region> {
    stable_run(base_at, ours_at, theirs_at, c.lo - base_at).push(
        region_between(c.kind, c.lo as int, c.hi as int, c.o0 as int, c.o1 as int, c.t0 as int, c.t1 as int),
    )
}

/// The regions of one step of the sweep are what their classes say.
pub proof fn lemma_step_classified(
    vb: Seq<Seq<char>>,
    vo: Seq<Seq<char>>,
    vt: Seq<Seq<char>>,
    s1: Seq<Hunk>,
    s2: Seq<Hunk>,
    level: MergeLevel,
    k1: int,
    k2: int,
    base_at: int,
    ours_at: int,
    theirs_at: int,
    c: Cluster,
)
    requires
        script_valid(vb, vo, s1),
        script_valid(vb, vt, s2),
        between_hunks(vb, vo, s1, k1, base_at, ours_at),
        between_hunks(vb, vt, s2, k2, base_at, theirs_at),
        k1 < s1.len() || k2 < s2.len(),
        c.lo == first_start(s1, s2, k1, k2),
        k1 <= c.j1 <= s1.len(),
        k2 <= c.j2 <= s2.len(),
        base_at <= c.lo <= c.hi <= vb.len(),
        c.o0 == ours_at + (c.lo - base_at),
        c.t0 == theirs_at + (c.lo - base_at),
        c.o1 == side_end(s1, k1, c.j1 as int, c.o0 as int, c.lo as int, c.hi as int),
        c.t1 == side_end(s2, k2, c.j2 as int, c.t0 as int, c.lo as int, c.hi as int),
        c.kind == cluster_kind(
            vo,
            vt,
            k1,
            c.j1 as int,
            k2,
            c.j2 as int,
            c.o0 as int,
            c.o1 as int,
            c.t0 as int,
            c.t1 as int,
            level,
        ),
        forall|i: int| k1 <= i < c.j1 ==> (#[trigger] s1[i]).base_end() <= c.hi,
        forall|i: int| k2 <= i < c.j2 ==> (#[trigger] s2[i]).base_end() <= c.hi,
        c.j1 < s1.len() ==> s1[c.j1 as int].base_start > c.hi,
        c.j2 < s2.len() ==> s2[c.j2 as int].base_start > c.hi,
        c.o0 <= c.o1 <= vo.len(),
        c.t0 <= c.t1 <= vt.len(),
    ensures
        classified(step_regions(base_at, ours_at, theirs_at, c), vb, vo, vt),
{
    let lo = c.lo as int;
    let hi = c.hi as int;
    lemma_between_hunks(vb, vo, s1, k1, base_at, ours_at);
    lemma_between_hunks(vb, vt, s2, k2, base_at, theirs_at);
    lemma_between_equal(vb, vo, s1, k1, base_at, ours_at, lo - base_at);
    lemma_between_equal(vb, vt, s2, k2, base_at, theirs_at, lo - base_at);
    let quiet = stable_run(base_at, ours_at, theirs_at, lo - base_at);
    assert(classified(quiet, vb, vo, vt));
    let changed = region_between(c.kind, lo, hi, c.o0 as int, c.o1 as int, c.t0 as int, c.t1 as int);
    if c.j2 == k2 {
        lemma_between_equal(vb, vt, s2, k2, lo, c.t0 as int, hi - lo);
    } else if c.j1 == k1 {
        lemma_between_equal(vb, vo, s1, k1, lo, c.o0 as int, hi - lo);
    }
    assert(region_holds(changed, vb, vo, vt));
    assert(classified(seq![changed], vb, vo, vt));
    lemma_classified_add(quiet, seq![changed], vb, vo, vt);
    assert(quiet + seq![changed] =~= step_regions(base_at, ours_at, theirs_at, c));
}

/// The regions from a place on are those of the next step, followed by
/// the regions from the end of its cluster on.
pub proof fn lemma_plan_step(
    ours: Seq<Seq<char>>,
    theirs: Seq<Seq<char>>,
    s1: Seq<Hunk>,
    s2: Seq<Hunk>,
    level: MergeLevel,
    n0: int,
    k1: int,
    k2: int,
    base_at: int,
    ours_at: int,
    theirs_at: int,
    c: Cluster,
)
    requires
        0 <= k1 <= s1.len(),
        0 <= k2 <= s2.len(),
        k1 < s1.len() || k2 < s2.len(),
        c.lo == first_start(s1, s2, k1, k2),
        (c.j1 as int, c.j2 as int, c.hi as int) == grow(s1, s2, k1, k2, c.lo as int),
        c.o0 == ours_at + (c.lo - base_at),
        c.t0 == theirs_at + (c.lo - base_at),
        c.o1 == side_end(s1, k1, c.j1 as int, c.o0 as int, c.lo as int, c.hi as int),
        c.t1 == side_end(s2, k2, c.j2 as int, c.t0 as int, c.lo as int, c.hi as int),
        c.kind == cluster_kind(
            ours,
            theirs,
            k1,
            c.j1 as int,
            k2,
            c.j2 as int,
            c.o0 as int,
            c.o1 as int,
            c.t0 as int,
            c.t1 as int,
            level,
        ),
        c.j1 + c.j2 > k1 + k2,
        c.j1 <= s1.len(),
        c.j2 <= s2.len(),
    ensures
        plan_from(ours, theirs, s1, s2, level, n0, k1, k2, base_at, ours_at, theirs_at) == step_regions(base_at, ours_at, theirs_at, c) + plan_from(
            ours,
            theirs,
            s1,
            s2,
            level,
            n0,
            c.j1 as int,
            c.j2 as int,
            c.hi as int,
            c.o1 as int,
            c.t1 as int,
        ),
{
}

/// Adds the regions of one step of the sweep.
fn push_step(rs: &mut Vec<Region>, base_at: usize, ours_at: usize, theirs_at: usize, c: &Cluster, n0: usize, n1: usize, n2: usize)
    requires
        chained(old(rs)@, n0 as int, n1 as int, n2 as int),
        base_before(old(rs)@, old(rs)@.len() as int) == base_at,
        ours_before(old(rs)@, old(rs)@.len() as int) == ours_at,
        theirs_before(old(rs)@, old(rs)@.len() as int) == theirs_at,
        base_at <= c.lo <= c.hi <= n0,
        c.o0 == ours_at + (c.lo - base_at),
        c.t0 == theirs_at + (c.lo - base_at),
        c.o0 <= c.o1 <= n1,
        c.t0 <= c.t1 <= n2,
    ensures
        final(rs)@ == old(rs)@ + step_regions(base_at as int, ours_at as int, theirs_at as int, *c),
        chained(final(rs)@, n0 as int, n1 as int, n2 as int),
        base_before(final(rs)@, final(rs)@.len() as int) == c.hi,
        ours_before(final(rs)@, final(rs)@.len() as int) == c.o1,
        theirs_before(final(rs)@, final(rs)@.len() as int) == c.t1,
{
    let ghost before = rs@;
    let gap: usize = c.lo - base_at;
    if gap > 0 {
        let quiet = Region {
            kind: RegionKind::Stable,
            base_start: base_at,
            base_len: gap,
            ours_start: ours_at,
            ours_len: gap,
            theirs_start: theirs_at,
            theirs_len: gap,
        };
        push_region(rs, quiet, Ghost(n0 as int), Ghost(n1 as int), Ghost(n2 as int));
    }
    let changed = Region {
        kind: c.kind,
        base_start: c.lo,
        base_len: c.hi - c.lo,
        ours_start: c.o0,
        ours_len: c.o1 - c.o0,
        theirs_start: c.t0,
        theirs_len: c.t1 - c.t0,
    };
    push_region(rs, changed, Ghost(n0 as int), Ghost(n1 as int), Ghost(n2 as int));
    assert(rs@ =~= before + step_regions(base_at as int, ours_at as int, theirs_at as int, *c));
}

/// Divides the three texts into regions, as the two edit scripts from the
/// base say.
pub fn plan(
    base: &Vec<Vec<char>>,
    ours: &Vec<Vec<char>>,
    theirs: &Vec<Vec<char>>,
    s1: &Vec<Hunk>,
    s2: &Vec<Hunk>,
    level: MergeLevel,
) -> (rs: Vec<Region>)
    requires
        script_valid(line_views(base@), line_views(ours@), s1@),
        script_valid(line_views(base@), line_views(theirs@), s2@),
    ensures
        rs@ == plan_of(line_views(base@), line_views(ours@), line_views(theirs@), s1@, s2@, level),
        tiles(rs@, base@.len() as int, ours@.len() as int, theirs@.len() as int),
        classified(rs@, line_views(base@), line_views(ours@), line_views(theirs@)),
        alternating(rs@),
{
    let n0: usize = base.len();
    let n1: usize = ours.len();
    let n2: usize = theirs.len();
    let ghost vb = line_views(base@);
    let ghost vo = line_views(ours@);
    let ghost vt = line_views(theirs@);
    let ghost whole = plan_of(vb, vo, vt, s1@, s2@, level);
    let mut rs: Vec<Region> = Vec::new();
    let mut k1: usize = 0;
    let mut k2: usize = 0;
    let mut base_at: usize = 0;
    let mut ours_at: usize = 0;
    let mut theirs_at: usize = 0;
    proof {
        assert(rs@ + plan_from(vo, vt, s1@, s2@, level, n0 as int, 0, 0, 0, 0, 0) =~= whole);
    }
    while k1 < s1.len() || k2 < s2.len()
        invariant
            n0 == base@.len(),
            n1 == ours@.len(),
            n2 == theirs@.len(),
            vb == line_views(base@),
            vo == line_views(ours@),
            vt == line_views(theirs@),
            script_valid(vb, vo, s1@),
            script_valid(vb, vt, s2@),
            between_hunks(vb, vo, s1@, k1 as int, base_at as int, ours_at as int),
            between_hunks(vb, vt, s2@, k2 as int, base_at as int, theirs_at as int),
            chained(rs@, n0 as int, n1 as int, n2 as int),
            base_before(rs@, rs@.len() as int) == base_at,
            ours_before(rs@, rs@.len() as int) == ours_at,
            theirs_before(rs@, rs@.len() as int) == theirs_at,
            rs@ + plan_from(vo, vt, s1@, s2@, level, n0 as int, k1 as int, k2 as int, base_at as int, ours_at as int, theirs_at as int)
                == whole,
            classified(rs@, vb, vo, vt),
            alternating(rs@),
            rs@.len() > 0 ==> rs@.last().kind != RegionKind::Stable,
            rs@.len() > 0 && k1 < s1@.len() ==> s1@[k1 as int].base_start > base_at,
            rs@.len() > 0 && k2 < s2@.len() ==> s2@[k2 as int].base_start > base_at,
        decreases s1@.len() - k1 + s2@.len() - k2,
    {
        let c = next_cluster(base, ours, theirs, s1, s2, level, k1, k2, base_at, ours_at, theirs_at);
        let ghost before = rs@;
        push_step(&mut rs, base_at, ours_at, theirs_at, &c, n0, n1, n2);
        proof {
            let quiet = stable_run(base_at as int, ours_at as int, theirs_at as int, c.lo - base_at);
            let changed = region_between(
                c.kind,
                c.lo as int,
                c.hi as int,
                c.o0 as int,
                c.o1 as int,
                c.t0 as int,
                c.t1 as int,
            );
            lemma_alternating_step(before, quiet, changed);
            lemma_classified_add(before, step_regions(base_at as int, ours_at as int, theirs_at as int, c), vb, vo, vt);
            let head = step_regions(base_at as int, ours_at as int, theirs_at as int, c);
            let rest = plan_from(
                vo,
                vt,
                s1@,
                s2@,
                level,
                n0 as int,
                c.j1 as int,
                c.j2 as int,
                c.hi as int,
                c.o1 as int,
                c.t1 as int,
            );
            lemma_plan_step(vo, vt, s1@, s2@, level, n0 as int, k1 as int, k2 as int, base_at as int, ours_at as int, theirs_at as int, c);
            assert((before + head) + rest =~= before + (head + rest));
        }
        k1 = c.j1;
        k2 = c.j2;
        base_at = c.hi;
        ours_at = c.o1;
        theirs_at = c.t1;
    }
    let ghost before_last = rs@;
    finish_plan(&mut rs, base_at, ours_at, theirs_at, n0, n1, n2, Ghost(vb), Ghost(vo), Ghost(vt), Ghost(s1@), Ghost(s2@));
    proof {
        lemma_classified_add(before_last, stable_run(base_at as int, ours_at as int, theirs_at as int, n0 - base_at), vb, vo, vt);
        lemma_alternating_end(before_last, stable_run(base_at as int, ours_at as int, theirs_at as int, n0 - base_at));
        assert(plan_from(vo, vt, s1@, s2@, level, n0 as int, k1 as int, k2 as int, base_at as int, ours_at as int, theirs_at as int)
            == stable_run(base_at as int, ours_at as int, theirs_at as int, n0 - base_at));
    }
    rs
}

/// Adds the stable lines behind the last cluster.
fn finish_plan(
    rs: &mut Vec<Region>,
    base_at: usize,
    ours_at: usize,
    theirs_at: usize,
    n0: usize,
    n1: usize,
    n2: usize,
    Ghost(vb): Ghost<Seq<Seq<char>>>,
    Ghost(vo): Ghost<Seq<Seq<char>>>,
    Ghost(vt): Ghost<Seq<Seq<char>>>,
    Ghost(s1): Ghost<Seq<Hunk>>,
    Ghost(s2): Ghost<Seq<Hunk>>,
)
    requires
        n0 == vb.len(),
        n1 == vo.len(),
        n2 == vt.len(),
        script_valid(vb, vo, s1),
        script_valid(vb, vt, s2),
        between_hunks(vb, vo, s1, s1.len() as int, base_at as int, ours_at as int),
        between_hunks(vb, vt, s2, s2.len() as int, base_at as int, theirs_at as int),
        chained(old(rs)@, n0 as int, n1 as int, n2 as int),
        base_before(old(rs)@, old(rs)@.len() as int) == base_at,
        ours_before(old(rs)@, old(rs)@.len() as int) == ours_at,
        theirs_before(old(rs)@, old(rs)@.len() as int) == theirs_at,
    ensures
        final(rs)@ == old(rs)@ + stable_run(base_at as int, ours_at as int, theirs_at as int, n0 - base_at),
        tiles(final(rs)@, n0 as int, n1 as int, n2 as int),
        classified(stable_run(base_at as int, ours_at as int, theirs_at as int, n0 - base_at), vb, vo, vt),
{
    proof {
        lemma_between_hunks(vb, vo, s1, s1.len() as int, base_at as int, ours_at as int);
        lemma_between_hunks(vb, vt, s2, s2.len() as int, base_at as int, theirs_at as int);
        lemma_between_equal(vb, vo, s1, s1.len() as int, base_at as int, ours_at as int, n0 - base_at);
        lemma_between_equal(vb, vt, s2, s2.len() as int, base_at as int, theirs_at as int, n0 - base_at);
    }
    let ghost before = rs@;
    if base_at < n0 {
        let len: usize = n0 - base_at;
        let quiet = Region {
            kind: RegionKind::Stable,
            base_start: base_at,
            base_len: len,
            ours_start: ours_at,
            ours_len: len,
            theirs_start: theirs_at,
            theirs_len: len,
        };
        push_region(rs, quiet, Ghost(n0 as int), Ghost(n1 as int), Ghost(n2 as int));
        assert(rs@ =~= before + stable_run(base_at as int, ours_at as int, theirs_at as int, n0 - base_at));
    } else {
        assert(rs@ =~= before + stable_run(base_at as int, ours_at as int, theirs_at as int, n0 - base_at));
    }
}

} // verus!
