//! Texts as sequences of characters, and their division into lines.
//!
//! A line keeps its terminator, so the lines of a text, put end to end,
//! are the text again. Only the last line of a text may lack a terminator.

use vstd::prelude::*;

verus! {

/// The position of the first line terminator in `s`, or the length of `s`
/// where it holds none.
pub open spec fn first_newline(s: Seq<char>) -> int
    decreases s.len(),
{
    if s.len() == 0 {
        0
    } else if s[0] == '\n' {
        0
    } else {
        1 + first_newline(s.drop_first())
    }
}

/// The lines of a text, each with its terminator. The empty text has no lines.
pub open spec fn lines_of(s: Seq<char>) -> Seq<Seq<char>>
    decreases s.len(),
{
    if s.len() == 0 {
        Seq::empty()
    } else {
        let k = first_newline(s);
        if k < 0 || k >= s.len() {
            seq![s]
        } else {
            seq![s.subrange(0, k + 1)] + lines_of(s.subrange(k + 1, s.len() as int))
        }
    }
}

/// A text that is empty or ends with a line terminator.
pub open spec fn is_terminated(s: Seq<char>) -> bool {
    s.len() == 0 || s[s.len() - 1] == '\n'
}

/// A non-empty run of characters with no terminator before its last place.
pub open spec fn is_line(l: Seq<char>) -> bool {
    &&& l.len() > 0
    &&& forall|i: int| 0 <= i < l.len() - 1 ==> l[i] != '\n'
}

/// The character sequences held by a vector of lines.
pub open spec fn line_views(v: Seq<Vec<char>>) -> Seq<Seq<char>> {
    Seq::new(v.len(), |i: int| v[i]@)
}

pub proof fn lemma_first_newline_bounds(s: Seq<char>)
    ensures
        0 <= first_newline(s) <= s.len(),
        first_newline(s) < s.len() ==> s[first_newline(s)] == '\n',
        forall|i: int| 0 <= i < first_newline(s) ==> s[i] != '\n',
    decreases s.len(),
{
    if s.len() != 0 && s[0] != '\n' {
        let t = s.drop_first();
        lemma_first_newline_bounds(t);
        assert forall|i: int| 0 <= i < first_newline(s) implies s[i] != '\n' by {
            if i > 0 {
                assert(s[i] == t[i - 1]);
            }
        }
    }
}

/// The first terminator of `s` is at `k` when `s[k]` is one and nothing before it is.
pub proof fn lemma_first_newline_is(s: Seq<char>, k: int)
    requires
        0 <= k <= s.len(),
        k < s.len() ==> s[k] == '\n',
        forall|i: int| 0 <= i < k ==> s[i] != '\n',
    ensures
        first_newline(s) == k,
{
    lemma_first_newline_bounds(s);
    let f = first_newline(s);
    if f < k {
        assert(s[f] == '\n');
    } else if f > k {
        assert(s[k] != '\n');
    }
}

/// A single line is the only line of itself.
pub proof fn lemma_lines_of_line(l: Seq<char>)
    requires
        is_line(l),
    ensures
        lines_of(l) == seq![l],
{
    lemma_first_newline_bounds(l);
    let k = first_newline(l);
    if k < l.len() {
        assert(k == l.len() - 1);
        assert(l.subrange(0, k + 1) == l);
        assert(l.subrange(k + 1, l.len() as int).len() == 0);
        assert(lines_of(l.subrange(k + 1, l.len() as int)) == Seq::<Seq<char>>::empty());
        assert(seq![l] + Seq::<Seq<char>>::empty() == seq![l]);
    }
}

/// The lines of a terminated text followed by another text are the lines
/// of the one followed by the lines of the other.
pub proof fn lemma_lines_of_concat(x: Seq<char>, y: Seq<char>)
    requires
        is_terminated(x),
    ensures
        lines_of(x + y) == lines_of(x) + lines_of(y),
    decreases x.len(),
{
    if x.len() == 0 {
        assert(x + y == y);
        assert(lines_of(x) + lines_of(y) == lines_of(y));
    } else {
        lemma_first_newline_bounds(x);
        let k = first_newline(x);
        let n = x.len() as int;
        assert(k < n) by {
            if k >= n {
                assert(x[n - 1] != '\n');
            }
        }
        let z = x + y;
        lemma_first_newline_is(z, k);
        let xr = x.subrange(k + 1, n);
        assert(z.subrange(0, k + 1) == x.subrange(0, k + 1));
        assert(z.subrange(k + 1, z.len() as int) == xr + y);
        assert(is_terminated(xr)) by {
            if xr.len() > 0 {
                assert(xr[xr.len() - 1] == x[n - 1]);
            }
        }
        lemma_lines_of_concat(xr, y);
        assert(lines_of(z) == seq![x.subrange(0, k + 1)] + (lines_of(xr) + lines_of(y)));
        assert(lines_of(x) == seq![x.subrange(0, k + 1)] + lines_of(xr));
        assert(seq![x.subrange(0, k + 1)] + (lines_of(xr) + lines_of(y)) == (seq![
            x.subrange(0, k + 1),
        ] + lines_of(xr)) + lines_of(y));
    }
}

/// Every line of a text is a line, and all but the last are terminated.
pub proof fn lemma_lines_of_shape(s: Seq<char>)
    ensures
        forall|i: int| 0 <= i < lines_of(s).len() ==> is_line(#[trigger] lines_of(s)[i]),
        forall|i: int|
            0 <= i < lines_of(s).len() - 1 ==> is_terminated(#[trigger] lines_of(s)[i]),
        s.len() > 0 ==> lines_of(s).len() > 0,
        lines_of(s).len() > 0 ==> (is_terminated(lines_of(s).last()) <==> is_terminated(s)),
    decreases s.len(),
{
    if s.len() > 0 {
        lemma_first_newline_bounds(s);
        let k = first_newline(s);
        if k < s.len() {
            let head = s.subrange(0, k + 1);
            let rest = s.subrange(k + 1, s.len() as int);
            lemma_lines_of_shape(rest);
            let ls = lines_of(s);
            assert(ls == seq![head] + lines_of(rest));
            assert(is_line(head));
            assert(is_terminated(head));
            assert forall|i: int| 0 <= i < ls.len() implies is_line(#[trigger] ls[i]) by {
                if i > 0 {
                    assert(ls[i] == lines_of(rest)[i - 1]);
                }
            }
            assert forall|i: int| 0 <= i < ls.len() - 1 implies is_terminated(
                #[trigger] ls[i],
            ) by {
                if i > 0 {
                    assert(ls[i] == lines_of(rest)[i - 1]);
                }
            }
            if rest.len() > 0 {
                assert(ls.last() == lines_of(rest).last());
                assert(rest[rest.len() - 1] == s[s.len() - 1]);
            } else {
                assert(ls.last() == head);
                assert(head[head.len() - 1] == s[s.len() - 1]);
            }
        } else {
            assert(lines_of(s) == seq![s]);
            assert(lines_of(s)[0] == s);
        }
    }
}

/// Putting the lines of a text end to end gives the text back.
pub proof fn lemma_lines_round_trip(s: Seq<char>)
    ensures
        lines_of(s).flatten() == s,
    decreases s.len(),
{
    if s.len() == 0 {
        assert(lines_of(s).flatten() == s);
    } else {
        lemma_first_newline_bounds(s);
        let k = first_newline(s);
        if k >= s.len() {
            seq![s].lemma_flatten_one_element();
            assert(seq![s].first() == s);
        } else {
            let head = s.subrange(0, k + 1);
            let rest = s.subrange(k + 1, s.len() as int);
            lemma_lines_round_trip(rest);
            let ls = seq![head] + lines_of(rest);
            assert(ls.first() == head);
            assert(ls.drop_first() == lines_of(rest));
            assert(ls.flatten() == head + lines_of(rest).flatten());
            assert(head + rest == s);
        }
    }
}

/// Whether two lines hold the same characters.
pub fn lines_equal(a: &Vec<char>, b: &Vec<char>) -> (r: bool)
    ensures
        r == (a@ == b@),
{
    if a.len() != b.len() {
        return false;
    }
    let mut i: usize = 0;
    while i < a.len()
        invariant
            i <= a.len(),
            a.len() == b.len(),
            forall|j: int| 0 <= j < i ==> a@[j] == b@[j],
        decreases a.len() - i,
    {
        if a[i] != b[i] {
            return false;
        }
        i += 1;
    }
    assert(a@ =~= b@);
    true
}

/// Divides a text into its lines.
pub fn split_lines(text: &Vec<char>) -> (lines: Vec<Vec<char>>)
    ensures
        line_views(lines@) == lines_of(text@),
{
    let mut lines: Vec<Vec<char>> = Vec::new();
    let mut cur: Vec<char> = Vec::new();
    let mut i: usize = 0;
    let ghost mut start: int = 0;
    proof {
        assert(text@.subrange(0, 0).len() == 0);
        assert(line_views(lines@) =~= lines_of(text@.subrange(0, 0)));
    }
    while i < text.len()
        invariant
            0 <= start <= i <= text.len(),
            is_terminated(text@.subrange(0, start)),
            line_views(lines@) == lines_of(text@.subrange(0, start)),
            cur@ == text@.subrange(start, i as int),
            forall|j: int| 0 <= j < cur@.len() ==> cur@[j] != '\n',
        decreases text.len() - i,
    {
        let c = text[i];
        cur.push(c);
        i += 1;
        assert(cur@ =~= text@.subrange(start, i as int));
        if c == '\n' {
            proof {
                let done = text@.subrange(0, start);
                assert(is_line(cur@));
                lemma_lines_of_line(cur@);
                lemma_lines_of_concat(done, cur@);
                assert(done + cur@ =~= text@.subrange(0, i as int));
                assert(line_views(lines@.push(cur)) =~= line_views(lines@) + seq![cur@]);
            }
            lines.push(cur);
            cur = Vec::new();
            proof {
                start = i as int;
                assert(cur@ =~= text@.subrange(start, i as int));
            }
        }
    }
    if cur.len() > 0 {
        proof {
            let done = text@.subrange(0, start);
            assert(is_line(cur@));
            lemma_lines_of_line(cur@);
            lemma_lines_of_concat(done, cur@);
            assert(done + cur@ =~= text@);
            assert(line_views(lines@.push(cur)) =~= line_views(lines@) + seq![cur@]);
        }
        lines.push(cur);
    } else {
        assert(text@.subrange(0, start) =~= text@);
    }
    lines
}

} // verus!
