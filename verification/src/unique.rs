//! Sequences between which there is only one tight edit script.
//!
//! Where no element occurs twice in either sequence, and the elements
//! that both hold come in the same order in both, nothing is left to
//! choose: every tight edit script keeps exactly the common elements.

use vstd::prelude::*;
use crate::maximal::{common_at, script_tight};
use crate::script::{hunk_valid, prev_base_end, prev_other_end, script_valid, Hunk};

verus! {

/// No element occurs twice in `a`.
pub open spec fn no_repeats<T>(a: Seq<T>) -> bool {
    forall|i: int, j: int| 0 <= i < j < a.len() ==> #[trigger] a[i] != #[trigger] a[j]
}

/// The elements that `a` and `b` both hold come in the same order in both.
pub open spec fn order_kept<T>(a: Seq<T>, b: Seq<T>) -> bool {
    forall|i: int, j: int, k: int, l: int|
        #[trigger] common_at(a, b, i, j) && #[trigger] common_at(a, b, k, l) && i < k ==> j < l
}

/// Between `a` and `b` nothing is left to choose: neither holds an
/// element twice, and no common element has moved.
pub open spec fn unambiguous<T>(a: Seq<T>, b: Seq<T>) -> bool {
    &&& no_repeats(a)
    &&& no_repeats(b)
    &&& order_kept(a, b)
}

/// What lies behind the end of the hunk `s[k]` of an edit script: where
/// the sequences go on, on both sides at once, the elements behind the
/// hunk are equal.
pub proof fn lemma_behind_hunk<T>(a: Seq<T>, b: Seq<T>, s: Seq<Hunk>, k: int)
    requires
        script_valid(a, b, s),
        0 <= k < s.len(),
    ensures
        s[k].base_end() <= a.len(),
        s[k].other_end() <= b.len(),
        a.len() - s[k].base_end() == b.len() - s[k].other_end() || k + 1 < s.len(),
        s[k].base_end() < a.len() && s[k].other_end() < b.len() ==> common_at(
            a,
            b,
            s[k].base_end(),
            s[k].other_end(),
        ),
        k + 1 == s.len() ==> a.len() - s[k].base_end() == b.len() - s[k].other_end(),
        k + 1 < s.len() ==> s[k].base_end() < a.len() && s[k].other_end() < b.len(),
{
    assert(hunk_valid(a, b, s, k));
    let ea = s[k].base_end();
    let eb = s[k].other_end();
    if k + 1 < s.len() {
        assert(hunk_valid(a, b, s, k + 1));
        assert(a[ea + 0] == b[eb + 0]);
    } else if ea < a.len() {
        assert(a[ea + 0] == b[eb + 0]);
    }
}

/// Two tight edit scripts between unambiguous sequences that agree on
/// their first `k` hunks agree on the next, where both have one.
pub proof fn lemma_next_hunk_is_the_same<T>(a: Seq<T>, b: Seq<T>, s: Seq<Hunk>, t: Seq<Hunk>, k: int)
    requires
        unambiguous(a, b),
        script_valid(a, b, s),
        script_valid(a, b, t),
        script_tight(a, b, s),
        script_tight(a, b, t),
        0 <= k < s.len(),
        k < t.len(),
        s.take(k) == t.take(k),
    ensures
        s[k] == t[k],
{
    assert(hunk_valid(a, b, s, k));
    assert(hunk_valid(a, b, t, k));
    if k > 0 {
        assert(s.take(k)[k - 1] == s[k - 1]);
        assert(t.take(k)[k - 1] == t[k - 1]);
    }
    let pa = prev_base_end(s, k);
    let pb = prev_other_end(s, k);
    assert(pa == prev_base_end(t, k) && pb == prev_other_end(t, k));
    lemma_same_start(a, b, s, t, k);
    lemma_same_start(a, b, t, s, k);
    assert(s[k].base_start == t[k].base_start);
    assert(s[k].other_start == t[k].other_start);
    lemma_base_no_shorter(a, b, s, t, k);
    lemma_base_no_shorter(a, b, t, s, k);
    assert(s[k].base_len == t[k].base_len);
    lemma_other_no_shorter(a, b, s, t, k);
    lemma_other_no_shorter(a, b, t, s, k);
}

/// Of two tight scripts that agree before their hunks `k`, the hunk of
/// the one starts no later than that of the other.
pub proof fn lemma_same_start<T>(a: Seq<T>, b: Seq<T>, s: Seq<Hunk>, t: Seq<Hunk>, k: int)
    requires
        unambiguous(a, b),
        script_valid(a, b, s),
        script_valid(a, b, t),
        script_tight(a, b, s),
        0 <= k < s.len(),
        k < t.len(),
        prev_base_end(s, k) == prev_base_end(t, k),
        prev_other_end(s, k) == prev_other_end(t, k),
    ensures
        t[k].base_start <= s[k].base_start,
{
    assert(hunk_valid(a, b, s, k));
    assert(hunk_valid(a, b, t, k));
    let pa = prev_base_end(s, k);
    let pb = prev_other_end(s, k);
    let g = s[k].base_start - pa;
    if g < t[k].base_start - pa {
        // The place where the hunk of `s` starts lies between the hunks
        // of `t`: the two sides are equal there.
        let x = s[k].base_start as int;
        let y = s[k].other_start as int;
        assert(a[pa + g] == b[pb + g]);
        assert(common_at(a, b, x, y));
        lemma_behind_hunk(a, b, s, k);
        if s[k].base_len > 0 && s[k].other_len > 0 {
            assert(!common_at(a, b, x, y));
        } else if s[k].base_len > 0 {
            let x2 = s[k].base_end();
            assert(common_at(a, b, x2, y));
            assert(a[x] != a[x2]);
        } else {
            let y2 = s[k].other_end();
            assert(common_at(a, b, x, y2));
            assert(b[y] != b[y2]);
        }
    }
}

/// Of two tight scripts whose hunks `k` start at the same place, the hunk
/// of the one is no shorter on the first side than that of the other.
pub proof fn lemma_base_no_shorter<T>(a: Seq<T>, b: Seq<T>, s: Seq<Hunk>, t: Seq<Hunk>, k: int)
    requires
        unambiguous(a, b),
        script_valid(a, b, s),
        script_valid(a, b, t),
        script_tight(a, b, t),
        0 <= k < s.len(),
        k < t.len(),
        s[k].base_start == t[k].base_start,
        s[k].other_start == t[k].other_start,
    ensures
        s[k].base_len >= t[k].base_len,
{
    lemma_behind_hunk(a, b, s, k);
    lemma_behind_hunk(a, b, t, k);
    if s[k].base_len < t[k].base_len {
        let x = s[k].base_end();
        let y = s[k].other_end();
        // The element behind the hunk of `s` is kept by `s`, and lies in
        // the hunk of `t`.
        assert(x < a.len());
        assert(y < b.len());
        assert(common_at(a, b, x, y));
        if y < t[k].other_end() {
            assert(!common_at(a, b, x, y));
        } else {
            let x2 = t[k].base_end();
            let y2 = t[k].other_end();
            if x2 < a.len() {
                assert(common_at(a, b, x2, y2));
                assert(y < y2);
            }
        }
    }
}

/// Of two tight scripts whose hunks `k` start at the same place and are
/// as long on the first side, the hunk of the one is no shorter on the
/// second side than that of the other.
pub proof fn lemma_other_no_shorter<T>(a: Seq<T>, b: Seq<T>, s: Seq<Hunk>, t: Seq<Hunk>, k: int)
    requires
        unambiguous(a, b),
        script_valid(a, b, s),
        script_valid(a, b, t),
        0 <= k < s.len(),
        k < t.len(),
        s[k].base_start == t[k].base_start,
        s[k].other_start == t[k].other_start,
        s[k].base_len == t[k].base_len,
    ensures
        s[k].other_len >= t[k].other_len,
{
    lemma_behind_hunk(a, b, s, k);
    lemma_behind_hunk(a, b, t, k);
    if s[k].other_len < t[k].other_len {
        let x = s[k].base_end();
        let y = s[k].other_end();
        let y2 = t[k].other_end();
        assert(y < b.len());
        assert(x < a.len());
        assert(common_at(a, b, x, y));
        assert(common_at(a, b, x, y2));
        assert(b[y] != b[y2]);
    }
}

/// Two tight edit scripts between unambiguous sequences have the same
/// first `k` hunks.
pub proof fn lemma_same_beginning<T>(a: Seq<T>, b: Seq<T>, s: Seq<Hunk>, t: Seq<Hunk>, k: int)
    requires
        unambiguous(a, b),
        script_valid(a, b, s),
        script_valid(a, b, t),
        script_tight(a, b, s),
        script_tight(a, b, t),
        0 <= k <= s.len(),
        k <= t.len(),
    ensures
        s.take(k) == t.take(k),
    decreases k,
{
    if k == 0 {
        assert(s.take(0) =~= t.take(0));
    } else {
        lemma_same_beginning(a, b, s, t, k - 1);
        lemma_next_hunk_is_the_same(a, b, s, t, k - 1);
        assert(s.take(k) =~= s.take(k - 1).push(s[k - 1]));
        assert(t.take(k) =~= t.take(k - 1).push(t[k - 1]));
    }
}

/// A tight edit script between unambiguous sequences has no hunk behind
/// the hunks of another that it begins with.
pub proof fn lemma_no_more_hunks<T>(a: Seq<T>, b: Seq<T>, s: Seq<Hunk>, t: Seq<Hunk>)
    requires
        unambiguous(a, b),
        script_valid(a, b, s),
        script_valid(a, b, t),
        script_tight(a, b, s),
        t.len() <= s.len(),
        s.take(t.len() as int) == t,
    ensures
        s.len() == t.len(),
{
    let k = t.len() as int;
    if k < s.len() {
        assert(hunk_valid(a, b, s, k));
        if k > 0 {
            assert(s.take(k)[k - 1] == s[k - 1]);
        }
        let pa = prev_base_end(s, k);
        let pb = prev_other_end(s, k);
        assert(pa == prev_base_end(t, k) && pb == prev_other_end(t, k));
        let x = s[k].base_start as int;
        let y = s[k].other_start as int;
        let g = x - pa;
        lemma_behind_hunk(a, b, s, k);
        // Behind the hunks of `t` the two sides are equal to their ends.
        if x < a.len() {
            assert(a[pa + g] == b[pb + g]);
            assert(common_at(a, b, x, y));
            if s[k].base_len > 0 && s[k].other_len > 0 {
                assert(!common_at(a, b, x, y));
            } else if s[k].base_len > 0 {
                let x2 = s[k].base_end();
                if x2 < a.len() {
                    assert(common_at(a, b, x2, y));
                    assert(a[x] != a[x2]);
                }
            } else {
                let y2 = s[k].other_end();
                if y2 < b.len() {
                    assert(common_at(a, b, x, y2));
                    assert(b[y] != b[y2]);
                }
            }
        }
    }
}

/// Between unambiguous sequences there is only one tight edit script.
pub proof fn lemma_tight_script_is_unique<T>(a: Seq<T>, b: Seq<T>, s: Seq<Hunk>, t: Seq<Hunk>)
    requires
        unambiguous(a, b),
        script_valid(a, b, s),
        script_valid(a, b, t),
        script_tight(a, b, s),
        script_tight(a, b, t),
    ensures
        s == t,
{
    if s.len() <= t.len() {
        lemma_same_beginning(a, b, s, t, s.len() as int);
        assert(s.take(s.len() as int) =~= s);
        lemma_no_more_hunks(a, b, t, s);
        assert(t.take(t.len() as int) =~= t);
    } else {
        lemma_same_beginning(a, b, s, t, t.len() as int);
        assert(t.take(t.len() as int) =~= t);
        lemma_no_more_hunks(a, b, s, t);
        assert(s.take(s.len() as int) =~= s);
    }
}

/// Runs of unambiguous sequences are unambiguous.
pub proof fn lemma_unambiguous_runs<T>(a: Seq<T>, b: Seq<T>, alo: int, ahi: int, blo: int, bhi: int)
    requires
        unambiguous(a, b),
        0 <= alo <= ahi <= a.len(),
        0 <= blo <= bhi <= b.len(),
    ensures
        unambiguous(a.subrange(alo, ahi), b.subrange(blo, bhi)),
{
    let x = a.subrange(alo, ahi);
    let y = b.subrange(blo, bhi);
    assert forall|i: int, j: int| 0 <= i < j < x.len() implies #[trigger] x[i] != #[trigger] x[j] by {
        assert(a[alo + i] != a[alo + j]);
    }
    assert forall|i: int, j: int| 0 <= i < j < y.len() implies #[trigger] y[i] != #[trigger] y[j] by {
        assert(b[blo + i] != b[blo + j]);
    }
    assert forall|i: int, j: int, k: int, l: int|
        #[trigger] common_at(x, y, i, j) && #[trigger] common_at(x, y, k, l) && i < k implies j < l by {
        assert(common_at(a, b, alo + i, blo + j));
        assert(common_at(a, b, alo + k, blo + l));
    }
}

} // verus!
