//! Edit scripts between two sequences, and the alignments they come from.
//!
//! An alignment pairs places of the first sequence with places of the second
//! that hold equal elements, in rising order on both sides. An edit script
//! lists what lies between the paired places: each hunk replaces a run of the
//! first sequence by a run of the second, and what lies between two hunks is
//! the same on both sides.

use vstd::prelude::*;

verus! {

/// One replaced run: `base_len` elements of the first sequence from
/// `base_start` on give way to `other_len` elements of the second from
/// `other_start` on.
#[derive(Debug, Clone, Copy, PartialEq, Eq, Structural)]
pub struct Hunk {
    pub base_start: usize,
    pub base_len: usize,
    pub other_start: usize,
    pub other_len: usize,
}

impl Hunk {
    /// The place behind the hunk's run in the first sequence.
    pub open spec fn base_end(self) -> int {
        self.base_start + self.base_len
    }

    /// The place behind the hunk's run in the second sequence.
    pub open spec fn other_end(self) -> int {
        self.other_start + self.other_len
    }
}

/// Where the hunk before `s[k]` ends in the first sequence; 0 for the first hunk.
pub open spec fn prev_base_end(s: Seq<Hunk>, k: int) -> int {
    if k <= 0 {
        0
    } else {
        s[k - 1].base_end()
    }
}

/// Where the hunk before `s[k]` ends in the second sequence; 0 for the first hunk.
pub open spec fn prev_other_end(s: Seq<Hunk>, k: int) -> int {
    if k <= 0 {
        0
    } else {
        s[k - 1].other_end()
    }
}

/// The `len` elements of `a` from `pa` on equal those of `b` from `pb` on.
pub open spec fn runs_equal<T>(a: Seq<T>, b: Seq<T>, pa: int, pb: int, len: int) -> bool {
    forall|t: int| 0 <= t < len ==> #[trigger] a[pa + t] == b[pb + t]
}

/// What must hold of the hunk `s[k]` in a script from `a` to `b`: it is not
/// empty, lies behind its predecessor, and the elements between the two are
/// the same in `a` and `b`.
pub open spec fn hunk_valid<T>(a: Seq<T>, b: Seq<T>, s: Seq<Hunk>, k: int) -> bool {
    &&& s[k].base_len + s[k].other_len > 0
    &&& prev_base_end(s, k) <= s[k].base_start
    &&& s[k].base_end() <= a.len()
    &&& s[k].other_end() <= b.len()
    &&& s[k].base_start - prev_base_end(s, k) == s[k].other_start - prev_other_end(s, k)
    &&& k > 0 ==> s[k].base_start > prev_base_end(s, k)
    &&& runs_equal(a, b, prev_base_end(s, k), prev_other_end(s, k), s[k].base_start - prev_base_end(s, k))
}

/// `s` is an edit script from `a` to `b`: its hunks follow one another with
/// at least one element between them, and outside the hunks the two
/// sequences are the same, element by element.
pub open spec fn script_valid<T>(a: Seq<T>, b: Seq<T>, s: Seq<Hunk>) -> bool {
    &&& forall|k: int| 0 <= k < s.len() ==> hunk_valid(a, b, s, k)
    &&& prev_base_end(s, s.len() as int) <= a.len()
    &&& a.len() - prev_base_end(s, s.len() as int) == b.len() - prev_other_end(s, s.len() as int)
    &&& runs_equal(
        a,
        b,
        prev_base_end(s, s.len() as int),
        prev_other_end(s, s.len() as int),
        a.len() - prev_base_end(s, s.len() as int),
    )
}

/// The first hunk starts at the first place where `a` and `b` differ, and the
/// last hunk ends where their common ending begins.
pub open spec fn script_trimmed<T>(a: Seq<T>, b: Seq<T>, s: Seq<Hunk>) -> bool {
    s.len() > 0 ==> {
        let first = s[0].base_start as int;
        let ea = s[s.len() - 1].base_end();
        let eb = s[s.len() - 1].other_end();
        &&& first == a.len() || first == b.len() || a[first] != b[first]
        &&& ea == first || eb == first || a[ea - 1] != b[eb - 1]
    }
}

/// The number of elements that the script removes and inserts.
pub open spec fn script_cost(s: Seq<Hunk>) -> int
    decreases s.len(),
{
    if s.len() == 0 {
        0
    } else {
        script_cost(s.drop_last()) + s.last().base_len + s.last().other_len
    }
}

/// `ms` pairs places of `a` with places of `b` that hold equal elements, in
/// strictly rising order on both sides.
pub open spec fn is_alignment<T>(a: Seq<T>, b: Seq<T>, ms: Seq<(usize, usize)>) -> bool {
    &&& forall|k: int|
        0 <= k < ms.len() ==> (#[trigger] ms[k]).0 < a.len() && ms[k].1 < b.len() && a[ms[k].0 as int]
            == b[ms[k].1 as int]
    &&& forall|k: int, l: int|
        0 <= k < l < ms.len() ==> (#[trigger] ms[k]).0 < (#[trigger] ms[l]).0 && ms[k].1 < ms[l].1
}

/// The pair `p` lies before the hunk on both sides, or behind it on both.
pub open spec fn pair_avoids(p: (usize, usize), h: Hunk) -> bool {
    ||| (p.0 < h.base_start && p.1 < h.other_start)
    ||| (p.0 >= h.base_end() && p.1 >= h.other_end())
}

/// A sequence equal to itself has only the script without hunks.
pub proof fn lemma_equal_sequences_have_empty_script<T>(a: Seq<T>, b: Seq<T>, s: Seq<Hunk>)
    requires
        a == b,
        script_valid(a, b, s),
        script_trimmed(a, b, s),
    ensures
        s.len() == 0,
{
    if s.len() > 0 {
        assert(hunk_valid(a, b, s, 0));
        let first = s[0].base_start as int;
        assert(s[0].other_start == first);
    }
}

/// A script without hunks relates only equal sequences.
pub proof fn lemma_empty_script_means_equal<T>(a: Seq<T>, b: Seq<T>, s: Seq<Hunk>)
    requires
        script_valid(a, b, s),
        s.len() == 0,
    ensures
        a == b,
{
    assert(a.len() == b.len());
    assert forall|i: int| 0 <= i < a.len() implies a[i] == b[i] by {
        assert(a[0 + i] == b[0 + i]);
    }
    assert(a =~= b);
}

/// Writes down the edit script that an alignment stands for: a hunk for
/// every stretch between two paired places that are not neighbours on both
/// sides.
pub fn build_script(a: &Vec<usize>, b: &Vec<usize>, ms: &Vec<(usize, usize)>) -> (s: Vec<Hunk>)
    requires
        is_alignment(a@, b@, ms@),
    ensures
        script_valid(a@, b@, s@),
        forall|k: int, j: int|
            0 <= k < ms@.len() && 0 <= j < s@.len() ==> pair_avoids(#[trigger] ms@[k], #[trigger] s@[j]),
        script_cost(s@) == a@.len() + b@.len() - 2 * ms@.len(),
{
    let n: usize = a.len();
    let m: usize = b.len();
    let mut s: Vec<Hunk> = Vec::new();
    let mut pa: usize = 0;
    let mut pb: usize = 0;
    let mut idx: usize = 0;
    while idx < ms.len()
        invariant
            n == a@.len(),
            m == b@.len(),
            is_alignment(a@, b@, ms@),
            idx <= ms@.len(),
            pa <= n,
            pb <= m,
            forall|k: int| 0 <= k < s@.len() ==> hunk_valid(a@, b@, s@, k),
            prev_base_end(s@, s@.len() as int) <= pa,
            pa - prev_base_end(s@, s@.len() as int) == pb - prev_other_end(s@, s@.len() as int),
            s@.len() > 0 ==> pa > prev_base_end(s@, s@.len() as int),
            runs_equal(
                a@,
                b@,
                prev_base_end(s@, s@.len() as int),
                prev_other_end(s@, s@.len() as int),
                pa - prev_base_end(s@, s@.len() as int),
            ),
            forall|k: int| 0 <= k < idx ==> (#[trigger] ms@[k]).0 < pa && ms@[k].1 < pb,
            forall|k: int| idx <= k < ms@.len() ==> (#[trigger] ms@[k]).0 >= pa && ms@[k].1 >= pb,
            forall|k: int, j: int|
                0 <= k < ms@.len() && 0 <= j < s@.len() ==> pair_avoids(
                    #[trigger] ms@[k],
                    #[trigger] s@[j],
                ),
            script_cost(s@) == pa + pb - 2 * idx,
        decreases ms@.len() - idx,
    {
        let (i, j) = ms[idx];
        proof {
            assert(ms@[idx as int].0 >= pa);
        }
        if i != pa || j != pb {
            let h = Hunk { base_start: pa, base_len: i - pa, other_start: pb, other_len: j - pb };
            proof {
                let old_s = s@;
                let new_s = s@.push(h);
                assert(new_s.drop_last() =~= old_s);
                assert forall|k: int| 0 <= k < new_s.len() implies hunk_valid(a@, b@, new_s, k) by {
                    if k < old_s.len() {
                        assert(hunk_valid(a@, b@, old_s, k));
                        if k > 0 {
                            assert(new_s[k - 1] == old_s[k - 1]);
                        }
                    }
                }
                assert forall|k: int, jj: int|
                    0 <= k < ms@.len() && 0 <= jj < new_s.len() implies pair_avoids(
                    #[trigger] ms@[k],
                    #[trigger] new_s[jj],
                ) by {
                    if jj < old_s.len() {
                        assert(pair_avoids(ms@[k], old_s[jj]));
                    } else if k < idx {
                    } else if k > idx {
                        assert(ms@[idx as int].0 < ms@[k].0);
                    }
                }
            }
            s.push(h);
        }
        proof {
            let le = prev_base_end(s@, s@.len() as int);
            let lo = prev_other_end(s@, s@.len() as int);
            assert(a@[i as int] == b@[j as int]);
            assert forall|t: int| 0 <= t < i + 1 - le implies #[trigger] a@[le + t] == b@[lo + t] by {
                if t < i - le {
                } else {
                    assert(le + t == i);
                    assert(lo + t == j);
                }
            }
            assert forall|k: int| idx + 1 <= k < ms@.len() implies (#[trigger] ms@[k]).0 >= i + 1
                && ms@[k].1 >= j + 1 by {
                assert(ms@[idx as int].0 < ms@[k].0);
            }
            assert forall|k: int| 0 <= k < idx + 1 implies (#[trigger] ms@[k]).0 < i + 1 && ms@[k].1 < j
                + 1 by {
                if k < idx {
                    assert(ms@[k].0 < ms@[idx as int].0);
                }
            }
        }
        pa = i + 1;
        pb = j + 1;
        idx += 1;
    }
    if pa < n || pb < m {
        let h = Hunk { base_start: pa, base_len: n - pa, other_start: pb, other_len: m - pb };
        proof {
            let old_s = s@;
            let new_s = s@.push(h);
            assert(new_s.drop_last() =~= old_s);
            assert forall|k: int| 0 <= k < new_s.len() implies hunk_valid(a@, b@, new_s, k) by {
                if k < old_s.len() {
                    assert(hunk_valid(a@, b@, old_s, k));
                    if k > 0 {
                        assert(new_s[k - 1] == old_s[k - 1]);
                    }
                }
            }
            assert forall|k: int, jj: int|
                0 <= k < ms@.len() && 0 <= jj < new_s.len() implies pair_avoids(
                #[trigger] ms@[k],
                #[trigger] new_s[jj],
            ) by {
                if jj < old_s.len() {
                    assert(pair_avoids(ms@[k], old_s[jj]));
                }
            }
        }
        s.push(h);
    }
    s
}

} // verus!

verus! {

/// Every pair of `ms` lies before `fa` on the first side and before `fb` on
/// the second.
pub open spec fn bounded_by(ms: Seq<(usize, usize)>, fa: int, fb: int) -> bool {
    forall|k: int| 0 <= k < ms.len() ==> (#[trigger] ms[k]).0 < fa && ms[k].1 < fb
}

/// `new_ms` is `old_ms` followed by pairs that lie in the box
/// `[alo, ahi) x [blo, bhi)`.
pub open spec fn extends_within(
    old_ms: Seq<(usize, usize)>,
    new_ms: Seq<(usize, usize)>,
    alo: int,
    ahi: int,
    blo: int,
    bhi: int,
) -> bool {
    &&& old_ms.len() <= new_ms.len()
    &&& new_ms.subrange(0, old_ms.len() as int) == old_ms
    &&& forall|k: int|
        old_ms.len() <= k < new_ms.len() ==> alo <= (#[trigger] new_ms[k]).0 < ahi && blo <= new_ms[k].1
            < bhi
}

/// What a search for pairs in the box `[alo, ahi) x [blo, bhi)` starts from:
/// an alignment whose pairs all lie before the box.
pub open spec fn box_pre(
    a: Seq<usize>,
    b: Seq<usize>,
    ms: Seq<(usize, usize)>,
    alo: int,
    ahi: int,
    blo: int,
    bhi: int,
) -> bool {
    &&& 0 <= alo <= ahi <= a.len()
    &&& 0 <= blo <= bhi <= b.len()
    &&& 2 * (a.len() + b.len()) + 4 <= usize::MAX
    &&& is_alignment(a, b, ms)
    &&& bounded_by(ms, alo, blo)
}

/// What such a search leaves: the alignment it started from, followed by
/// pairs from the box.
pub open spec fn box_post(
    a: Seq<usize>,
    b: Seq<usize>,
    old_ms: Seq<(usize, usize)>,
    new_ms: Seq<(usize, usize)>,
    alo: int,
    ahi: int,
    blo: int,
    bhi: int,
) -> bool {
    &&& is_alignment(a, b, new_ms)
    &&& bounded_by(new_ms, ahi, bhi)
    &&& extends_within(old_ms, new_ms, alo, ahi, blo, bhi)
}

/// Adds the pair `(i, j)` behind an alignment whose pairs all lie before it.
pub fn push_match(a: &Vec<usize>, b: &Vec<usize>, ms: &mut Vec<(usize, usize)>, i: usize, j: usize)
    requires
        is_alignment(a@, b@, old(ms)@),
        bounded_by(old(ms)@, i as int, j as int),
        i < a@.len(),
        j < b@.len(),
        a@[i as int] == b@[j as int],
    ensures
        final(ms)@ == old(ms)@.push((i, j)),
        is_alignment(a@, b@, final(ms)@),
        bounded_by(final(ms)@, i + 1, j + 1),
{
    ms.push((i, j));
    proof {
        let o = old(ms)@;
        let n = ms@;
        assert forall|k: int| 0 <= k < n.len() implies (#[trigger] n[k]).0 < a@.len() && n[k].1 < b@.len()
            && a@[n[k].0 as int] == b@[n[k].1 as int] by {
            if k < o.len() {
                assert(n[k] == o[k]);
            }
        }
        assert forall|k: int, l: int| 0 <= k < l < n.len() implies (#[trigger] n[k]).0 < (#[trigger] n[l]).0
            && n[k].1 < n[l].1 by {
            assert(n[k] == o[k]);
            if l < o.len() {
                assert(n[l] == o[l]);
            }
        }
        assert forall|k: int| 0 <= k < n.len() implies (#[trigger] n[k]).0 < i + 1 && n[k].1 < j + 1 by {
            if k < o.len() {
                assert(n[k] == o[k]);
            }
        }
    }
}

/// Pairs that lie before one corner lie before every corner behind it.
pub proof fn lemma_bounded_by_weaken(ms: Seq<(usize, usize)>, fa: int, fb: int, ga: int, gb: int)
    requires
        bounded_by(ms, fa, fb),
        fa <= ga,
        fb <= gb,
    ensures
        bounded_by(ms, ga, gb),
{
}

/// A search that adds nothing has done its work on any box.
pub proof fn lemma_box_post_unchanged(
    a: Seq<usize>,
    b: Seq<usize>,
    ms: Seq<(usize, usize)>,
    alo: int,
    ahi: int,
    blo: int,
    bhi: int,
)
    requires
        box_pre(a, b, ms, alo, ahi, blo, bhi),
    ensures
        box_post(a, b, ms, ms, alo, ahi, blo, bhi),
{
    assert(ms.subrange(0, ms.len() as int) =~= ms);
}

/// Two searches on boxes that follow one another make one search on the
/// box that holds both.
pub proof fn lemma_box_post_chain(
    a: Seq<usize>,
    b: Seq<usize>,
    m0: Seq<(usize, usize)>,
    m1: Seq<(usize, usize)>,
    m2: Seq<(usize, usize)>,
    alo: int,
    amid: int,
    ahi: int,
    blo: int,
    bmid: int,
    bhi: int,
)
    requires
        alo <= amid <= ahi,
        blo <= bmid <= bhi,
        extends_within(m0, m1, alo, amid, blo, bmid),
        extends_within(m1, m2, amid, ahi, bmid, bhi),
    ensures
        extends_within(m0, m2, alo, ahi, blo, bhi),
{
    assert(m2.subrange(0, m0.len() as int) =~= m0) by {
        assert forall|k: int| 0 <= k < m0.len() implies m2[k] == m0[k] by {
            assert(m2.subrange(0, m1.len() as int)[k] == m1[k]);
            assert(m1.subrange(0, m0.len() as int)[k] == m0[k]);
        }
    }
    assert forall|k: int| m0.len() <= k < m2.len() implies alo <= (#[trigger] m2[k]).0 < ahi && blo
        <= m2[k].1 < bhi by {
        if k < m1.len() {
            assert(m2.subrange(0, m1.len() as int)[k] == m1[k]);
        }
    }
}

} // verus!

verus! {

/// The length of a longest common subsequence of `a` from `i` on and `b`
/// from `j` on.
pub open spec fn lcs_len<T>(a: Seq<T>, b: Seq<T>, i: int, j: int) -> nat
    decreases a.len() - i, b.len() - j,
{
    if i < 0 || j < 0 || i >= a.len() || j >= b.len() {
        0
    } else if a[i] == b[j] {
        1 + lcs_len(a, b, i + 1, j + 1)
    } else if lcs_len(a, b, i + 1, j) >= lcs_len(a, b, i, j + 1) {
        lcs_len(a, b, i + 1, j)
    } else {
        lcs_len(a, b, i, j + 1)
    }
}

/// A common subsequence is no longer than what is left of either sequence.
pub proof fn lemma_lcs_len_bound<T>(a: Seq<T>, b: Seq<T>, i: int, j: int)
    requires
        0 <= i <= a.len(),
        0 <= j <= b.len(),
    ensures
        lcs_len(a, b, i, j) <= a.len() - i,
        lcs_len(a, b, i, j) <= b.len() - j,
    decreases a.len() - i, b.len() - j,
{
    if i < a.len() && j < b.len() {
        lemma_lcs_len_bound(a, b, i + 1, j + 1);
        lemma_lcs_len_bound(a, b, i + 1, j);
        lemma_lcs_len_bound(a, b, i, j + 1);
    }
}

} // verus!
