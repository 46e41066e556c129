//! The diff engine: an edit script between two sequences of lines, by one
//! of four searches.

use vstd::prelude::*;
use crate::anchors::{ids_below, push_run, suffix_len, trim_prefix};
use crate::histogram::histogram_box;
use crate::intern::classify;
use crate::lcs::{lemma_lcs_pattern, lemma_lcs_trimmed};
use crate::maximal::{
    box_maximal, lemma_maximal_chain, lemma_maximal_gives_tight, lemma_maximal_run, lemma_tight_transfer,
    script_tight,
};
use crate::minimal::lcs_box;
use crate::myers::myers_box;
use crate::patience::patience_box;
use crate::script::{
    box_post, box_pre, build_script, hunk_valid, lcs_len, lemma_bounded_by_weaken, pair_avoids,
    prev_base_end, prev_other_end, script_cost, script_trimmed, script_valid, Hunk,
};
use crate::text::line_views;
use crate::types::{DiffAlgorithm, MergeError};

verus! {

/// Sequences of `n` and `m` lines are more than the engine can index, or,
/// for the table of the minimal search, more than it can lay out.
pub open spec fn too_large(n: int, m: int, algorithm: DiffAlgorithm) -> bool {
    ||| 2 * (n + m) + 4 > usize::MAX
    ||| (algorithm == DiffAlgorithm::Minimal && (n + 1) * (m + 1) > usize::MAX)
}

/// What every search promises of its script from `a` to `b`: it is an
/// edit script, it leaves the common beginning and the common ending of
/// the two sequences alone, and none of its hunks could be made smaller by
/// keeping an element that both sides of the hunk hold.
pub open spec fn script_fits<T>(a: Seq<T>, b: Seq<T>, s: Seq<Hunk>) -> bool {
    &&& script_valid(a, b, s)
    &&& script_trimmed(a, b, s)
    &&& script_tight(a, b, s)
}

/// The script removes and inserts no more than it must: all but the
/// elements of a longest common subsequence.
pub open spec fn is_shortest<T>(a: Seq<T>, b: Seq<T>, s: Seq<Hunk>) -> bool {
    script_cost(s) == a.len() + b.len() - 2 * lcs_len(a, b, 0, 0)
}

/// The searches that promise a shortest script.
pub open spec fn promises_shortest(algorithm: DiffAlgorithm) -> bool {
    algorithm == DiffAlgorithm::Myers || algorithm == DiffAlgorithm::Minimal
}

/// What the diff engine promises of its script from `a` to `b`.
pub open spec fn diff_post<T>(a: Seq<T>, b: Seq<T>, algorithm: DiffAlgorithm, s: Seq<Hunk>) -> bool {
    &&& script_fits(a, b, s)
    &&& promises_shortest(algorithm) ==> is_shortest(a, b, s)
}

/// `ia`, `ib` and `la`, `lb` agree on which element of the first sequence
/// equals which of the second.
pub open spec fn same_pattern<S, T>(ia: Seq<S>, ib: Seq<S>, la: Seq<T>, lb: Seq<T>) -> bool {
    &&& ia.len() == la.len()
    &&& ib.len() == lb.len()
    &&& forall|i: int, j: int|
        0 <= i < ia.len() && 0 <= j < ib.len() ==> ((#[trigger] ia[i] == #[trigger] ib[j]) <==> la[i] == lb[j])
}

/// The hunks of an edit script start in rising order.
pub proof fn lemma_hunks_rise<T>(a: Seq<T>, b: Seq<T>, s: Seq<Hunk>, k: int)
    requires
        script_valid(a, b, s),
        0 <= k < s.len(),
    ensures
        s[0].base_start <= s[k].base_start,
        s[0].other_start <= s[k].other_start,
        s[0].base_start == s[0].other_start,
    decreases k,
{
    assert(hunk_valid(a, b, s, k));
    assert(hunk_valid(a, b, s, 0));
    if k > 0 {
        lemma_hunks_rise(a, b, s, k - 1);
    }
}

/// An edit script between two sequences is one between any two sequences
/// with the same pattern of equal elements.
pub proof fn lemma_script_transfer<S, T>(ia: Seq<S>, ib: Seq<S>, la: Seq<T>, lb: Seq<T>, s: Seq<Hunk>)
    requires
        same_pattern(ia, ib, la, lb),
        script_fits(ia, ib, s),
    ensures
        script_fits(la, lb, s),
        is_shortest(ia, ib, s) ==> is_shortest(la, lb, s),
{
    lemma_lcs_pattern(ia, ib, la, lb, 0, 0);
    lemma_tight_transfer(ia, ib, la, lb, s);
    assert forall|k: int| 0 <= k < s.len() implies hunk_valid(la, lb, s, k) by {
        assert(hunk_valid(ia, ib, s, k));
        let pa = prev_base_end(s, k);
        let pb = prev_other_end(s, k);
        assert forall|t: int| 0 <= t < s[k].base_start - pa implies #[trigger] la[pa + t] == lb[pb + t] by {
            assert(ia[pa + t] == ib[pb + t]);
        }
    }
    let ea = prev_base_end(s, s.len() as int);
    let eb = prev_other_end(s, s.len() as int);
    if s.len() > 0 {
        assert(hunk_valid(ia, ib, s, s.len() - 1));
    }
    assert forall|t: int| 0 <= t < la.len() - ea implies #[trigger] la[ea + t] == lb[eb + t] by {
        assert(ia[ea + t] == ib[eb + t]);
    }
    if s.len() > 0 {
        assert(hunk_valid(ia, ib, s, 0));
        lemma_hunks_rise(ia, ib, s, s.len() - 1);
        let first = s[0].base_start as int;
        if first != la.len() && first != lb.len() {
            assert(ia[first] != ib[first]);
        }
        if ea != first && eb != first {
            assert(ia[ea - 1] != ib[eb - 1]);
        }
    }
}

/// A script built from an alignment that holds the longest common
/// beginning and, behind it, the longest common ending of the two
/// sequences leaves both alone.
pub proof fn lemma_trimmed(
    a: Seq<usize>,
    b: Seq<usize>,
    ms: Seq<(usize, usize)>,
    s: Seq<Hunk>,
    p: int,
    q: int,
)
    requires
        script_valid(a, b, s),
        forall|k: int, j: int| 0 <= k < ms.len() && 0 <= j < s.len() ==> pair_avoids(#[trigger] ms[k], #[trigger] s[j]),
        0 <= p,
        0 <= q,
        p + q <= a.len(),
        p + q <= b.len(),
        p + q <= ms.len(),
        forall|k: int| 0 <= k < p ==> (#[trigger] ms[k]).0 == k && ms[k].1 == k,
        forall|k: int|
            ms.len() - q <= k < ms.len() ==> (#[trigger] ms[k]).0 == a.len() - ms.len() + k && ms[k].1
                == b.len() - ms.len() + k,
        p == a.len() || p == b.len() || a[p] != b[p],
        p + q == a.len() || p + q == b.len() || a[a.len() - q - 1] != b[b.len() - q - 1],
    ensures
        script_trimmed(a, b, s),
{
    if s.len() > 0 {
        let n = a.len() as int;
        let m = b.len() as int;
        let first = s[0].base_start as int;
        assert(hunk_valid(a, b, s, 0));
        assert(s[0].other_start == first);
        if first < p {
            assert(pair_avoids(ms[first], s[0]));
        }
        if first > p {
            assert(a[0 + p] == b[0 + p]);
        }
        assert(first == p);
        let last = s[s.len() - 1];
        let ea = prev_base_end(s, s.len() as int);
        let eb = prev_other_end(s, s.len() as int);
        assert(ea == last.base_end());
        assert(eb == last.other_end());
        let r = n - ea;
        assert(r == m - eb);
        assert(hunk_valid(a, b, s, s.len() - 1));
        lemma_hunks_rise(a, b, s, s.len() - 1);
        assert(first <= last.base_start <= ea);
        assert(first <= last.other_start <= eb);
        if r < q {
            let k = ms.len() - q + (ea - 1 - (n - q));
            assert(ms.len() - q <= k < ms.len());
            assert(ms[k].0 == ea - 1);
            assert(ms[k].1 == eb - 1);
            assert(pair_avoids(ms[k], last));
        }
        if r > q {
            assert(a[ea + (r - q - 1)] == b[eb + (r - q - 1)]);
            assert(ea + (r - q - 1) == n - q - 1);
            assert(eb + (r - q - 1) == m - q - 1);
        }
        assert(ea == n - q);
        assert(eb == m - q);
    }
}

/// Whether sequences of `n` and `m` lines can be taken on.
pub fn fits(n: usize, m: usize, algorithm: DiffAlgorithm) -> (ok: bool)
    ensures
        ok == !too_large(n as int, m as int, algorithm),
{
    let most: usize = (usize::MAX - 4) / 2;
    if n > most || m > most - n {
        return false;
    }
    match algorithm {
        DiffAlgorithm::Minimal => (n + 1).checked_mul(m + 1).is_some(),
        _ => true,
    }
}

/// Lets the chosen search find its pairs in the box.
fn search_box(
    a: &Vec<usize>,
    b: &Vec<usize>,
    alo: usize,
    ahi: usize,
    blo: usize,
    bhi: usize,
    count: usize,
    algorithm: DiffAlgorithm,
    ms: &mut Vec<(usize, usize)>,
)
    requires
        box_pre(a@, b@, old(ms)@, alo as int, ahi as int, blo as int, bhi as int),
        ids_below(a@, count as int),
        ids_below(b@, count as int),
        algorithm == DiffAlgorithm::Minimal ==> (ahi - alo + 1) * (bhi - blo + 1) <= usize::MAX,
    ensures
        box_post(a@, b@, old(ms)@, final(ms)@, alo as int, ahi as int, blo as int, bhi as int),
        promises_shortest(algorithm) ==> final(ms)@.len() - old(ms)@.len() == lcs_len(
            a@.subrange(alo as int, ahi as int),
            b@.subrange(blo as int, bhi as int),
            0,
            0,
        ),
        box_maximal(a@, b@, final(ms)@, old(ms)@.len() as int, alo as int, ahi as int, blo as int, bhi as int),
{
    match algorithm {
        DiffAlgorithm::Myers => myers_box(a, b, alo, ahi, blo, bhi, ms),
        DiffAlgorithm::Minimal => lcs_box(a, b, alo, ahi, blo, bhi, ms),
        DiffAlgorithm::Patience => patience_box(a, b, alo, ahi, blo, bhi, count, ms),
        DiffAlgorithm::Histogram => histogram_box(a, b, alo, ahi, blo, bhi, count, ms),
    }
}

/// The edit script from the sequence of numbers `a` to `b`.
pub fn diff_ids(a: &Vec<usize>, b: &Vec<usize>, count: usize, algorithm: DiffAlgorithm) -> (s: Vec<Hunk>)
    requires
        ids_below(a@, count as int),
        ids_below(b@, count as int),
        !too_large(a@.len() as int, b@.len() as int, algorithm),
    ensures
        diff_post(a@, b@, algorithm, s@),
{
    let n: usize = a.len();
    let m: usize = b.len();
    let mut ms: Vec<(usize, usize)> = Vec::new();
    let p: usize = trim_prefix(a, b, 0, n, 0, m, &mut ms);
    let q: usize = suffix_len(a, b, p, n, p, m);
    let ghost m0 = ms@;
    proof {
        if p > 0 {
            assert(m0[m0.len() - 1].0 == p - 1 && m0[m0.len() - 1].1 == p - 1);
        }
        lemma_bounded_by_weaken(m0, p as int, p as int, p as int, p as int);
        if algorithm == DiffAlgorithm::Minimal {
            assert((n - q - p + 1) * (m - q - p + 1) <= (n + 1) * (m + 1)) by (nonlinear_arith)
                requires
                    0 <= n - q - p <= n,
                    0 <= m - q - p <= m,
            ;
        }
    }
    search_box(a, b, p, n - q, p, m - q, count, algorithm, &mut ms);
    let ghost m1 = ms@;
    push_run(a, b, &mut ms, n - q, m - q, q);
    let s = build_script(a, b, &ms);
    proof {
        assert forall|k: int| 0 <= k < p implies (#[trigger] ms@[k]).0 == k && ms@[k].1 == k by {
            assert(m1.subrange(0, m0.len() as int)[k] == m0[k]);
            assert(ms@.subrange(0, m1.len() as int)[k] == m1[k]);
        }
        lemma_trimmed(a@, b@, ms@, s@, p as int, q as int);
        if promises_shortest(algorithm) {
            lemma_lcs_trimmed(a@, b@, p as int, q as int);
        }
        lemma_maximal_chain(a@, b@, m0, m1, 0, 0, p as int, n - q, 0, p as int, m - q);
        lemma_maximal_run(a@, b@, m1, ms@, 0, 0, n - q, 0, m - q, q as int);
        lemma_maximal_gives_tight(a@, b@, ms@, s@);
    }
    s
}

/// The edit script from the lines `a[alo..ahi]` to the lines
/// `b[blo..bhi]`, with places counted from the start of either range.
/// The engine gives up on sequences that it cannot index.
pub fn diff_range(
    a: &Vec<Vec<char>>,
    alo: usize,
    ahi: usize,
    b: &Vec<Vec<char>>,
    blo: usize,
    bhi: usize,
    algorithm: DiffAlgorithm,
) -> (r: Result<Vec<Hunk>, MergeError>)
    requires
        alo <= ahi <= a@.len(),
        blo <= bhi <= b@.len(),
    ensures
        match r {
            Ok(s) => {
                &&& !too_large(ahi - alo, bhi - blo, algorithm)
                &&& diff_post(
                    line_views(a@).subrange(alo as int, ahi as int),
                    line_views(b@).subrange(blo as int, bhi as int),
                    algorithm,
                    s@,
                )
            },
            Err(e) => e is OutOfMemory && too_large(ahi - alo, bhi - blo, algorithm),
        },
{
    if !fits(ahi - alo, bhi - blo, algorithm) {
        return Err(MergeError::OutOfMemory);
    }
    let classes = classify(a, alo, ahi, b, blo, bhi);
    let s = diff_ids(&classes.a, &classes.b, classes.count, algorithm);
    proof {
        lemma_script_transfer(
            classes.a@,
            classes.b@,
            line_views(a@).subrange(alo as int, ahi as int),
            line_views(b@).subrange(blo as int, bhi as int),
            s@,
        );
    }
    Ok(s)
}

/// The edit script from the lines `a` to the lines `b`.
pub fn diff(a: &Vec<Vec<char>>, b: &Vec<Vec<char>>, algorithm: DiffAlgorithm) -> (r: Result<
    Vec<Hunk>,
    MergeError,
>)
    ensures
        match r {
            Ok(s) => {
                &&& !too_large(a@.len() as int, b@.len() as int, algorithm)
                &&& diff_post(line_views(a@), line_views(b@), algorithm, s@)
            },
            Err(e) => e is OutOfMemory && too_large(a@.len() as int, b@.len() as int, algorithm),
        },
{
    proof {
        assert(line_views(a@).subrange(0, a@.len() as int) =~= line_views(a@));
        assert(line_views(b@).subrange(0, b@.len() as int) =~= line_views(b@));
    }
    diff_range(a, 0, a.len(), b, 0, b.len(), algorithm)
}

} // verus!
