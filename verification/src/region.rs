//! The regions of a merge: stretches of the three texts that belong
//! together, each with its class.

use vstd::prelude::*;
use crate::text::{line_views, lines_equal};

verus! {

/// What the two sides did to a stretch of the base.
#[derive(Debug, Clone, Copy, PartialEq, Eq, Structural)]
pub enum RegionKind {
    /// Neither side changed it.
    Stable,
    /// Only our side changed it.
    OursOnly,
    /// Only their side changed it.
    TheirsOnly,
    /// Both sides changed it in the same way.
    Concordant,
    /// The sides changed it in different ways.
    Conflict,
}

/// A stretch of the base together with the stretches of the two sides that
/// stand for it.
#[derive(Debug, Clone, Copy, PartialEq, Eq, Structural)]
pub struct Region {
    pub kind: RegionKind,
    pub base_start: usize,
    pub base_len: usize,
    pub ours_start: usize,
    pub ours_len: usize,
    pub theirs_start: usize,
    pub theirs_len: usize,
}

impl Region {
    pub open spec fn base_end(self) -> int {
        self.base_start + self.base_len
    }

    pub open spec fn ours_end(self) -> int {
        self.ours_start + self.ours_len
    }

    pub open spec fn theirs_end(self) -> int {
        self.theirs_start + self.theirs_len
    }
}

/// The region of the given kind between the given places.
pub open spec fn region_between(kind: RegionKind, b0: int, b1: int, o0: int, o1: int, t0: int, t1: int) -> Region {
    Region {
        kind,
        base_start: b0 as usize,
        base_len: (b1 - b0) as usize,
        ours_start: o0 as usize,
        ours_len: (o1 - o0) as usize,
        theirs_start: t0 as usize,
        theirs_len: (t1 - t0) as usize,
    }
}

/// Where the region before `rs[k]` ends in the base; 0 for the first.
pub open spec fn base_before(rs: Seq<Region>, k: int) -> int {
    if k <= 0 {
        0
    } else {
        rs[k - 1].base_end()
    }
}

/// Where the region before `rs[k]` ends on our side; 0 for the first.
pub open spec fn ours_before(rs: Seq<Region>, k: int) -> int {
    if k <= 0 {
        0
    } else {
        rs[k - 1].ours_end()
    }
}

/// Where the region before `rs[k]` ends on their side; 0 for the first.
pub open spec fn theirs_before(rs: Seq<Region>, k: int) -> int {
    if k <= 0 {
        0
    } else {
        rs[k - 1].theirs_end()
    }
}

/// Every region starts, in all three texts, where the one before it ends,
/// the first at the start, and none reaches beyond `n0`, `n1` and `n2` lines.
pub open spec fn chained(rs: Seq<Region>, n0: int, n1: int, n2: int) -> bool {
    &&& rs.len() > 0 ==> rs[0].base_start == 0 && rs[0].ours_start == 0 && rs[0].theirs_start == 0
    &&& forall|k: int, l: int|
        0 <= k && l == k + 1 && l < rs.len() ==> {
            &&& (#[trigger] rs[l]).base_start == (#[trigger] rs[k]).base_end()
            &&& rs[l].ours_start == rs[k].ours_end()
            &&& rs[l].theirs_start == rs[k].theirs_end()
        }
    &&& forall|k: int|
        0 <= k < rs.len() ==> {
            &&& (#[trigger] rs[k]).base_end() <= n0
            &&& rs[k].ours_end() <= n1
            &&& rs[k].theirs_end() <= n2
        }
}

/// The regions divide texts of `n0`, `n1` and `n2` lines without gap or
/// overlap.
pub open spec fn tiles(rs: Seq<Region>, n0: int, n1: int, n2: int) -> bool {
    &&& chained(rs, n0, n1, n2)
    &&& base_before(rs, rs.len() as int) == n0
    &&& ours_before(rs, rs.len() as int) == n1
    &&& theirs_before(rs, rs.len() as int) == n2
}

/// Regions that are chained stay so when one more is added where they end.
pub proof fn lemma_chained_push(rs: Seq<Region>, r: Region, n0: int, n1: int, n2: int)
    requires
        chained(rs, n0, n1, n2),
        r.base_start == base_before(rs, rs.len() as int),
        r.ours_start == ours_before(rs, rs.len() as int),
        r.theirs_start == theirs_before(rs, rs.len() as int),
        r.base_end() <= n0,
        r.ours_end() <= n1,
        r.theirs_end() <= n2,
    ensures
        chained(rs.push(r), n0, n1, n2),
        base_before(rs.push(r), rs.len() as int + 1) == r.base_end(),
        ours_before(rs.push(r), rs.len() as int + 1) == r.ours_end(),
        theirs_before(rs.push(r), rs.len() as int + 1) == r.theirs_end(),
{
    let ns = rs.push(r);
    assert forall|k: int, l: int| 0 <= k && l == k + 1 && l < ns.len() implies {
        &&& (#[trigger] ns[l]).base_start == (#[trigger] ns[k]).base_end()
        &&& ns[l].ours_start == ns[k].ours_end()
        &&& ns[l].theirs_start == ns[k].theirs_end()
    } by {
        assert(ns[k] == rs[k]);
        if l < rs.len() {
            assert(ns[l] == rs[l]);
        }
    }
    assert forall|k: int| 0 <= k < ns.len() implies {
        &&& (#[trigger] ns[k]).base_end() <= n0
        &&& ns[k].ours_end() <= n1
        &&& ns[k].theirs_end() <= n2
    } by {
        if k < rs.len() {
            assert(ns[k] == rs[k]);
        }
    }
}

/// The beginning of chained regions is chained.
pub proof fn lemma_chained_take(rs: Seq<Region>, n0: int, n1: int, n2: int, c: int)
    requires
        chained(rs, n0, n1, n2),
        0 <= c <= rs.len(),
    ensures
        chained(rs.take(c), n0, n1, n2),
        base_before(rs.take(c), c) == base_before(rs, c),
        ours_before(rs.take(c), c) == ours_before(rs, c),
        theirs_before(rs.take(c), c) == theirs_before(rs, c),
{
    let ts = rs.take(c);
    assert forall|k: int, l: int| 0 <= k && l == k + 1 && l < ts.len() implies {
        &&& (#[trigger] ts[l]).base_start == (#[trigger] ts[k]).base_end()
        &&& ts[l].ours_start == ts[k].ours_end()
        &&& ts[l].theirs_start == ts[k].theirs_end()
    } by {
        assert(ts[k] == rs[k] && ts[l] == rs[l]);
    }
    assert forall|k: int| 0 <= k < ts.len() implies {
        &&& (#[trigger] ts[k]).base_end() <= n0
        &&& ts[k].ours_end() <= n1
        &&& ts[k].theirs_end() <= n2
    } by {
        assert(ts[k] == rs[k]);
    }
    if c > 0 {
        assert(ts[c - 1] == rs[c - 1]);
        assert(ts[0] == rs[0]);
    }
}

/// Whether the `len` lines of `x` from `xs` on are those of `y` from `ys` on.
pub fn runs_match(x: &Vec<Vec<char>>, xs: usize, y: &Vec<Vec<char>>, ys: usize, len: usize) -> (r: bool)
    requires
        xs + len <= x@.len(),
        ys + len <= y@.len(),
    ensures
        r == (line_views(x@).subrange(xs as int, xs + len) == line_views(y@).subrange(ys as int, ys + len)),
{
    let ghost lx = line_views(x@).subrange(xs as int, xs + len);
    let ghost ly = line_views(y@).subrange(ys as int, ys + len);
    let xlen: usize = x.len();
    let ylen: usize = y.len();
    let mut t: usize = 0;
    while t < len
        invariant
            t <= len,
            xs + len <= xlen,
            ys + len <= ylen,
            xlen == x@.len(),
            ylen == y@.len(),
            lx == line_views(x@).subrange(xs as int, xs + len),
            ly == line_views(y@).subrange(ys as int, ys + len),
            forall|u: int| 0 <= u < t ==> lx[u] == ly[u],
        decreases len - t,
    {
        if !lines_equal(&x[xs + t], &y[ys + t]) {
            assert(lx[t as int] == x@[xs + t]@);
            assert(ly[t as int] == y@[ys + t]@);
            return false;
        }
        assert(lx[t as int] == x@[xs + t]@);
        assert(ly[t as int] == y@[ys + t]@);
        t += 1;
    }
    assert(lx =~= ly);
    true
}

} // verus!

verus! {

/// Adds a region where the chained regions end.
pub fn push_region(
    out: &mut Vec<Region>,
    r: Region,
    Ghost(n0): Ghost<int>,
    Ghost(n1): Ghost<int>,
    Ghost(n2): Ghost<int>,
)
    requires
        chained(old(out)@, n0, n1, n2),
        r.base_start == base_before(old(out)@, old(out)@.len() as int),
        r.ours_start == ours_before(old(out)@, old(out)@.len() as int),
        r.theirs_start == theirs_before(old(out)@, old(out)@.len() as int),
        r.base_end() <= n0,
        r.ours_end() <= n1,
        r.theirs_end() <= n2,
    ensures
        final(out)@ == old(out)@.push(r),
        chained(final(out)@, n0, n1, n2),
        base_before(final(out)@, final(out)@.len() as int) == r.base_end(),
        ours_before(final(out)@, final(out)@.len() as int) == r.ours_end(),
        theirs_before(final(out)@, final(out)@.len() as int) == r.theirs_end(),
{
    proof {
        lemma_chained_push(out@, r, n0, n1, n2);
    }
    out.push(r);
}

/// The regions in which both sides agree on `len` new lines, at the place
/// `b` of the base: one region, or none where `len` is 0.
pub open spec fn agreed(b: int, o: int, t: int, len: int) -> Seq<Region> {
    if len > 0 {
        seq![region_between(RegionKind::Concordant, b, b, o, o + len, t, t + len)]
    } else {
        Seq::empty()
    }
}

/// Adds the region in which both sides agree on `len` lines, if there are any.
pub fn push_agreed(
    out: &mut Vec<Region>,
    b: usize,
    o: usize,
    t: usize,
    len: usize,
    Ghost(n0): Ghost<int>,
    Ghost(n1): Ghost<int>,
    Ghost(n2): Ghost<int>,
)
    requires
        chained(old(out)@, n0, n1, n2),
        b == base_before(old(out)@, old(out)@.len() as int),
        o == ours_before(old(out)@, old(out)@.len() as int),
        t == theirs_before(old(out)@, old(out)@.len() as int),
        b <= n0,
        o + len <= n1,
        t + len <= n2,
    ensures
        final(out)@ == old(out)@ + agreed(b as int, o as int, t as int, len as int),
        chained(final(out)@, n0, n1, n2),
        base_before(final(out)@, final(out)@.len() as int) == b,
        ours_before(final(out)@, final(out)@.len() as int) == o + len,
        theirs_before(final(out)@, final(out)@.len() as int) == t + len,
{
    if len > 0 {
        let r = Region {
            kind: RegionKind::Concordant,
            base_start: b,
            base_len: 0,
            ours_start: o,
            ours_len: len,
            theirs_start: t,
            theirs_len: len,
        };
        push_region(out, r, Ghost(n0), Ghost(n1), Ghost(n2));
        assert(out@ =~= old(out)@ + agreed(b as int, o as int, t as int, len as int));
    } else {
        assert(out@ =~= old(out)@ + agreed(b as int, o as int, t as int, len as int));
    }
}

/// The lines of our side that a region holds.
pub open spec fn ours_of(ours: Seq<Seq<char>>, r: Region) -> Seq<Seq<char>> {
    ours.subrange(r.ours_start as int, r.ours_end())
}

/// The lines of their side that a region holds.
pub open spec fn theirs_of(theirs: Seq<Seq<char>>, r: Region) -> Seq<Seq<char>> {
    theirs.subrange(r.theirs_start as int, r.theirs_end())
}

/// The lines of the base that a region holds.
pub open spec fn base_of(base: Seq<Seq<char>>, r: Region) -> Seq<Seq<char>> {
    base.subrange(r.base_start as int, r.base_end())
}

/// A conflict with lines on both sides, which can be looked into further.
pub open spec fn refinable(r: Region) -> bool {
    r.kind == RegionKind::Conflict && r.ours_len > 0 && r.theirs_len > 0
}

/// In chained regions, a later region starts no earlier than an earlier one ends.
pub proof fn lemma_chained_order(rs: Seq<Region>, n0: int, n1: int, n2: int, k: int, l: int)
    requires
        chained(rs, n0, n1, n2),
        0 <= k <= l <= rs.len(),
        0 <= n0,
        0 <= n1,
        0 <= n2,
    ensures
        0 <= base_before(rs, k) <= base_before(rs, l) <= n0,
        0 <= ours_before(rs, k) <= ours_before(rs, l) <= n1,
        0 <= theirs_before(rs, k) <= theirs_before(rs, l) <= n2,
    decreases l - k,
{
    if l > 0 {
        assert(rs[l - 1].base_start == base_before(rs, l - 1));
    }
    if k > 0 {
        assert(rs[k - 1].base_start == base_before(rs, k - 1));
    }
    if k < l {
        lemma_chained_order(rs, n0, n1, n2, k, l - 1);
    }
}

/// What the class of a region says of its lines: neither side changed a
/// stable region, so its lines are the same in all three texts; a region
/// that only one side changed reads on the other side as in the base; and
/// on an agreed region the two sides read the same.
pub open spec fn region_holds(r: Region, base: Seq<Seq<char>>, ours: Seq<Seq<char>>, theirs: Seq<Seq<char>>) -> bool {
    match r.kind {
        RegionKind::Stable => base_of(base, r) == ours_of(ours, r) && base_of(base, r) == theirs_of(theirs, r),
        RegionKind::OursOnly => base_of(base, r) == theirs_of(theirs, r),
        RegionKind::TheirsOnly => base_of(base, r) == ours_of(ours, r),
        RegionKind::Concordant => ours_of(ours, r) == theirs_of(theirs, r),
        RegionKind::Conflict => true,
    }
}

/// Every region is what its class says.
pub open spec fn classified(rs: Seq<Region>, base: Seq<Seq<char>>, ours: Seq<Seq<char>>, theirs: Seq<Seq<char>>) -> bool {
    forall|k: int| 0 <= k < rs.len() ==> region_holds(#[trigger] rs[k], base, ours, theirs)
}

/// Regions that are what their classes say stay so when such regions
/// are added.
pub proof fn lemma_classified_add(
    rs: Seq<Region>,
    more: Seq<Region>,
    base: Seq<Seq<char>>,
    ours: Seq<Seq<char>>,
    theirs: Seq<Seq<char>>,
)
    requires
        classified(rs, base, ours, theirs),
        classified(more, base, ours, theirs),
    ensures
        classified(rs + more, base, ours, theirs),
{
    let all = rs + more;
    assert forall|k: int| 0 <= k < all.len() implies region_holds(#[trigger] all[k], base, ours, theirs) by {
        if k < rs.len() {
            assert(all[k] == rs[k]);
        } else {
            assert(all[k] == more[k - rs.len()]);
        }
    }
}

/// The regions on which both sides agree are what their class says where
/// the lines of the two sides are the same.
pub proof fn lemma_agreed_holds(
    b: int,
    o: int,
    t: int,
    len: int,
    base: Seq<Seq<char>>,
    ours: Seq<Seq<char>>,
    theirs: Seq<Seq<char>>,
)
    requires
        0 <= b <= usize::MAX,
        0 <= o,
        0 <= t,
        0 <= len,
        o + len <= usize::MAX,
        t + len <= usize::MAX,
        ours.subrange(o, o + len) == theirs.subrange(t, t + len),
    ensures
        classified(agreed(b, o, t, len), base, ours, theirs),
{
}

} // verus!
