//! Counting the marker lines of a merged text.

use vstd::prelude::*;
use crate::emit::{
    closed_lines, conflict_text, conflicts_written, joined_lines, marker_line, marker_width, region_text,
    render, repeated,
};
use crate::merge::{is_marker_line, marker_lines, starts_with_run};
use crate::region::{
    base_before, base_of, chained, classified, lemma_chained_take, ours_of, region_holds, theirs_of, Region,
    RegionKind,
};
use crate::spacing::{can_follow, spaced};
use crate::text::{is_line, is_terminated, lemma_lines_of_concat, lemma_lines_of_line, lines_of};
use crate::types::{MergeFavor, MergeStyle};

verus! {

/// The marker lines of a text.
pub open spec fn marker_lines_in(text: Seq<char>) -> int {
    marker_lines(lines_of(text))
}

/// Every element is a line, and all but the last have their terminator.
pub open spec fn proper_lines(ls: Seq<Seq<char>>) -> bool {
    &&& forall|i: int| 0 <= i < ls.len() ==> is_line(#[trigger] ls[i])
    &&& forall|i: int| 0 <= i < ls.len() - 1 ==> is_terminated(#[trigger] ls[i])
}

/// None of the lines starts as a marker line does.
pub open spec fn no_marker_lines(ls: Seq<Seq<char>>) -> bool {
    forall|i: int| 0 <= i < ls.len() ==> !is_marker_line(#[trigger] ls[i])
}

/// The marker lines of two runs of lines are those of the one and those
/// of the other.
pub proof fn lemma_marker_lines_add(u: Seq<Seq<char>>, v: Seq<Seq<char>>)
    ensures
        marker_lines(u + v) == marker_lines(u) + marker_lines(v),
    decreases v.len(),
{
    if v.len() == 0 {
        assert(u + v =~= u);
    } else {
        assert((u + v).drop_last() =~= u + v.drop_last());
        assert((u + v).last() == v.last());
        lemma_marker_lines_add(u, v.drop_last());
    }
}

/// Lines of which none starts as a marker line does hold no marker lines.
pub proof fn lemma_no_marker_lines(ls: Seq<Seq<char>>)
    requires
        no_marker_lines(ls),
    ensures
        marker_lines(ls) == 0,
    decreases ls.len(),
{
    if ls.len() > 0 {
        assert(!is_marker_line(ls[ls.len() - 1]));
        assert forall|i: int| 0 <= i < ls.drop_last().len() implies !is_marker_line(
            #[trigger] ls.drop_last()[i],
        ) by {
            assert(ls.drop_last()[i] == ls[i]);
        }
        lemma_no_marker_lines(ls.drop_last());
    }
}

/// Proper lines, put end to end, are divided into themselves again; the
/// text is terminated where the last line is.
pub proof fn lemma_lines_of_joined(ls: Seq<Seq<char>>)
    requires
        proper_lines(ls),
    ensures
        lines_of(ls.flatten()) == ls,
        ls.len() > 0 ==> (is_terminated(ls.flatten()) <==> is_terminated(ls.last())),
        ls.len() == 0 ==> ls.flatten().len() == 0,
    decreases ls.len(),
{
    if ls.len() == 0 {
        assert(ls.flatten() =~= Seq::<char>::empty());
    } else {
        let front = ls.drop_last();
        let last = ls.last();
        assert(is_line(ls[ls.len() - 1]));
        assert forall|i: int| 0 <= i < front.len() implies is_line(#[trigger] front[i]) by {
            assert(front[i] == ls[i]);
        }
        assert forall|i: int| 0 <= i < front.len() - 1 implies is_terminated(#[trigger] front[i]) by {
            assert(front[i] == ls[i]);
        }
        lemma_lines_of_joined(front);
        front.lemma_flatten_push(last);
        assert(front.push(last) =~= ls);
        let x = front.flatten();
        assert(is_terminated(x)) by {
            if front.len() > 0 {
                assert(front.last() == ls[ls.len() - 2]);
                assert(is_terminated(ls[ls.len() - 2]));
            }
        }
        lemma_lines_of_concat(x, last);
        lemma_lines_of_line(last);
        assert(lines_of(x + last) =~= front + seq![last]);
        assert(front + seq![last] =~= ls);
        assert((x + last)[(x + last).len() - 1] == last[last.len() - 1]);
    }
}

/// A line with a terminator added starts as a marker line does exactly if
/// the line itself does.
pub proof fn lemma_marker_line_closed(l: Seq<char>)
    requires
        is_line(l),
        !is_terminated(l),
    ensures
        is_marker_line(l.push('\n')) == is_marker_line(l),
        is_line(l.push('\n')),
        is_terminated(l.push('\n')),
{
    let c = l.push('\n');
    assert(c[c.len() - 1] == '\n');
    assert forall|i: int| 0 <= i < l.len() implies c[i] == l[i] by {}
    if c.len() >= 7 && l.len() < 7 {
        assert(c[6] == '\n');
    }
    assert(starts_with_run(c, '<') == starts_with_run(l, '<')) by {
        if starts_with_run(c, '<') {
            assert(c[6] == '<');
        }
    }
    assert(starts_with_run(c, '=') == starts_with_run(l, '=')) by {
        if starts_with_run(c, '=') {
            assert(c[6] == '=');
        }
    }
    assert(starts_with_run(c, '>') == starts_with_run(l, '>')) by {
        if starts_with_run(c, '>') {
            assert(c[6] == '>');
        }
    }
    assert forall|i: int| 0 <= i < c.len() - 1 implies c[i] != '\n' by {
        assert(c[i] == l[i]);
        if i == l.len() - 1 {
            assert(l[l.len() - 1] != '\n');
        }
    }
}

/// Proper lines, put end to end and closed with a terminator, are a
/// terminated text with the marker lines of the lines themselves.
pub proof fn lemma_closed_lines(ls: Seq<Seq<char>>)
    requires
        proper_lines(ls),
    ensures
        is_terminated(closed_lines(ls)),
        marker_lines_in(closed_lines(ls)) == marker_lines(ls),
{
    lemma_lines_of_joined(ls);
    if ls.len() > 0 {
        let last = ls.last();
        assert(is_line(ls[ls.len() - 1]));
        if last.last() != '\n' {
            let closed = last.push('\n');
            let front = ls.drop_last();
            let cs = front.push(closed);
            lemma_marker_line_closed(last);
            assert forall|i: int| 0 <= i < cs.len() implies is_line(#[trigger] cs[i]) by {
                if i < front.len() {
                    assert(cs[i] == ls[i]);
                }
            }
            assert forall|i: int| 0 <= i < cs.len() - 1 implies is_terminated(#[trigger] cs[i]) by {
                assert(cs[i] == ls[i]);
            }
            lemma_lines_of_joined(cs);
            front.lemma_flatten_push(closed);
            front.lemma_flatten_push(last);
            assert(front.push(last) =~= ls);
            assert(cs.flatten() =~= ls.flatten().push('\n'));
            assert(cs.drop_last() =~= front);
            assert(ls.drop_last() =~= front);
        }
    }
}

/// A marker line whose label holds no line terminator is one terminated
/// line. It starts as a marker line does exactly if its marker is one of
/// the three that open, part and close a conflict and stands seven times
/// or more.
pub proof fn lemma_marker_line(c: char, size: int, label: Option<Seq<char>>)
    requires
        size >= 0,
        c != '\n',
        match label {
            Some(l) => no_terminator(l),
            None => true,
        },
    ensures
        is_terminated(marker_line(c, size, label)),
        marker_lines_in(marker_line(c, size, label)) == (if (c == '<' || c == '=' || c == '>') && marker_width(
            size,
        ) >= 7 {
            1int
        } else {
            0int
        }),
{
    let m = marker_line(c, size, label);
    let w = marker_width(size);
    let run = repeated(c, w);
    assert(m.len() >= w + 1);
    assert(m[m.len() - 1] == '\n');
    assert forall|i: int| 0 <= i < w implies m[i] == c by {
        assert(run[i] == c);
    }
    assert forall|i: int| 0 <= i < m.len() - 1 implies m[i] != '\n' by {
        if i >= w {
            match label {
                Some(l) => {
                    if i > w {
                        assert(m[i] == l[i - w - 1]);
                    } else {
                        assert(m[i] == ' ');
                    }
                },
                None => {},
            }
        }
    }
    assert(is_line(m));
    lemma_lines_of_line(m);
    assert(seq![m].drop_last() =~= Seq::<Seq<char>>::empty());
    assert(seq![m].last() == m);
    assert(marker_lines(Seq::<Seq<char>>::empty()) == 0);
    assert(marker_lines(seq![m].drop_last()) == 0);
    assert(marker_lines(seq![m]) == if is_marker_line(m) {
        1int
    } else {
        0int
    });
    if w >= 7 {
        assert(starts_with_run(m, c));
        assert(m[0] == c);
    } else {
        assert(w > 0);
        assert(m[0] == c);
        if is_marker_line(m) {
            if w < m.len() - 1 {
                match label {
                    Some(l) => {
                        assert(m[w] == ' ');
                    },
                    None => {},
                }
            } else {
                assert(m[w] == '\n');
            }
            assert(m[w] != '<' && m[w] != '=' && m[w] != '>');
        }
    }
    if is_marker_line(m) {
        assert(m[0] == '<' || m[0] == '=' || m[0] == '>');
    }
}

/// The characters hold no line terminator.
pub open spec fn no_terminator(l: Seq<char>) -> bool {
    forall|i: int| 0 <= i < l.len() ==> (#[trigger] l[i]) != '\n'
}

/// Of two texts of which the first is terminated, the marker lines are
/// those of the one and those of the other.
pub proof fn lemma_marker_lines_in_add(x: Seq<char>, y: Seq<char>)
    requires
        is_terminated(x),
    ensures
        marker_lines_in(x + y) == marker_lines_in(x) + marker_lines_in(y),
        is_terminated(y) ==> is_terminated(x + y),
{
    lemma_lines_of_concat(x, y);
    lemma_marker_lines_add(lines_of(x), lines_of(y));
    if y.len() > 0 {
        assert((x + y)[(x + y).len() - 1] == y[y.len() - 1]);
    } else {
        assert(x + y =~= x);
    }
}

/// What the counting of marker lines asks of the markers: they stand
/// seven times or more, and no label holds a line terminator.
pub open spec fn countable_markers(
    size: int,
    ours_label: Option<Seq<char>>,
    base_label: Option<Seq<char>>,
    theirs_label: Option<Seq<char>>,
) -> bool {
    &&& size == 0 || size >= 7
    &&& match ours_label {
        Some(l) => no_terminator(l),
        None => true,
    }
    &&& match base_label {
        Some(l) => no_terminator(l),
        None => true,
    }
    &&& match theirs_label {
        Some(l) => no_terminator(l),
        None => true,
    }
}

/// A run of proper lines, closed, is a terminated text with the marker
/// lines of the run.
pub proof fn lemma_closed_run(ls: Seq<Seq<char>>, from: int, to: int)
    requires
        proper_lines(ls),
        0 <= from <= to <= ls.len(),
    ensures
        is_terminated(closed_lines(ls.subrange(from, to))),
        marker_lines_in(closed_lines(ls.subrange(from, to))) == marker_lines(ls.subrange(from, to)),
        no_marker_lines(ls) ==> marker_lines(ls.subrange(from, to)) == 0,
{
    let sub = ls.subrange(from, to);
    assert forall|i: int| 0 <= i < sub.len() implies is_line(#[trigger] sub[i]) by {
        assert(sub[i] == ls[from + i]);
    }
    assert forall|i: int| 0 <= i < sub.len() - 1 implies is_terminated(#[trigger] sub[i]) by {
        assert(sub[i] == ls[from + i]);
    }
    lemma_closed_lines(sub);
    if no_marker_lines(ls) {
        assert forall|i: int| 0 <= i < sub.len() implies !is_marker_line(#[trigger] sub[i]) by {
            assert(sub[i] == ls[from + i]);
        }
        lemma_no_marker_lines(sub);
    }
}

/// What the counting of marker lines asks of the three sequences of
/// lines: they are the lines of texts, and no line that can reach the
/// merged text starts as a marker line does.
pub open spec fn plain_lines(
    base: Seq<Seq<char>>,
    ours: Seq<Seq<char>>,
    theirs: Seq<Seq<char>>,
    style: MergeStyle,
) -> bool {
    &&& proper_lines(base)
    &&& proper_lines(ours)
    &&& proper_lines(theirs)
    &&& no_marker_lines(ours)
    &&& no_marker_lines(theirs)
    &&& style != MergeStyle::Normal ==> no_marker_lines(base)
}

/// A run of the lines of a text without marker lines, put end to end,
/// holds no marker line, and it is terminated unless it holds the last
/// line of the text.
pub proof fn lemma_open_run(ls: Seq<Seq<char>>, from: int, to: int)
    requires
        proper_lines(ls),
        no_marker_lines(ls),
        0 <= from <= to <= ls.len(),
    ensures
        marker_lines_in(joined_lines(ls.subrange(from, to))) == 0,
        !is_terminated(joined_lines(ls.subrange(from, to))) ==> from < to && to == ls.len() && !is_terminated(
            ls[ls.len() - 1],
        ),
{
    let sub = ls.subrange(from, to);
    assert forall|i: int| 0 <= i < sub.len() implies is_line(#[trigger] sub[i]) && !is_marker_line(sub[i]) by {
        assert(sub[i] == ls[from + i]);
    }
    assert forall|i: int| 0 <= i < sub.len() - 1 implies is_terminated(#[trigger] sub[i]) by {
        assert(sub[i] == ls[from + i]);
    }
    lemma_lines_of_joined(sub);
    lemma_no_marker_lines(sub);
    if sub.len() > 0 && !is_terminated(sub.last()) {
        assert(sub.last() == ls[to - 1]);
        if to - 1 < ls.len() - 1 {
            assert(is_terminated(ls[to - 1]));
        }
    }
}

/// The region gives our lines to the merged text.
pub open spec fn gives_ours(kind: RegionKind, favor: Option<MergeFavor>) -> bool {
    ||| kind == RegionKind::Stable
    ||| kind == RegionKind::OursOnly
    ||| kind == RegionKind::Concordant
    ||| (kind == RegionKind::Conflict && favor == Some(MergeFavor::Ours))
}

/// The region gives their lines to the merged text, behind anything else
/// that it gives.
pub open spec fn gives_theirs(kind: RegionKind, favor: Option<MergeFavor>) -> bool {
    ||| kind == RegionKind::TheirsOnly
    ||| (kind == RegionKind::Conflict && (favor == Some(MergeFavor::Theirs) || favor == Some(MergeFavor::Union)))
}

/// What a region gives to the merged text holds three marker lines where
/// the region is a conflict that is written out, and none otherwise; and
/// it is terminated unless it ends with the last line of a side, and that
/// line has no terminator.
pub proof fn lemma_region_text_open(
    r: Region,
    base: Seq<Seq<char>>,
    ours: Seq<Seq<char>>,
    theirs: Seq<Seq<char>>,
    style: MergeStyle,
    favor: Option<MergeFavor>,
    size: int,
    ours_label: Option<Seq<char>>,
    base_label: Option<Seq<char>>,
    theirs_label: Option<Seq<char>>,
)
    requires
        plain_lines(base, ours, theirs, style),
        countable_markers(size, ours_label, base_label, theirs_label),
        r.base_end() <= base.len(),
        r.ours_end() <= ours.len(),
        r.theirs_end() <= theirs.len(),
    ensures
        marker_lines_in(
            region_text(r, base, ours, theirs, style, favor, size, ours_label, base_label, theirs_label),
        ) == (if r.kind == RegionKind::Conflict && favor is None {
            3int
        } else {
            0int
        }),
        !is_terminated(
            region_text(r, base, ours, theirs, style, favor, size, ours_label, base_label, theirs_label),
        ) ==> {
            ||| (gives_ours(r.kind, favor) && r.ours_len > 0 && r.ours_end() == ours.len() && !is_terminated(
                ours[ours.len() - 1],
            ))
            ||| (gives_theirs(r.kind, favor) && r.theirs_len > 0 && r.theirs_end() == theirs.len()
                && !is_terminated(theirs[theirs.len() - 1]))
        },
{
    lemma_open_run(ours, r.ours_start as int, r.ours_end());
    lemma_open_run(theirs, r.theirs_start as int, r.theirs_end());
    if r.kind == RegionKind::Conflict {
        match favor {
            None => {
                lemma_conflict_text_open(r, base, ours, theirs, style, size, ours_label, base_label, theirs_label);
            },
            Some(MergeFavor::Union) => {
                if ours_of(ours, r) != theirs_of(theirs, r) {
                    lemma_closed_run(ours, r.ours_start as int, r.ours_end());
                    let first = closed_lines(ours_of(ours, r));
                    let second = joined_lines(theirs_of(theirs, r));
                    lemma_marker_lines_in_add(first, second);
                    if second.len() == 0 {
                        assert(first + second =~= first);
                    } else {
                        assert((first + second)[(first + second).len() - 1] == second[second.len() - 1]);
                    }
                }
            },
            _ => {},
        }
    }
}

/// A conflict written out is a terminated text with three marker lines.
pub proof fn lemma_conflict_text_open(
    r: Region,
    base: Seq<Seq<char>>,
    ours: Seq<Seq<char>>,
    theirs: Seq<Seq<char>>,
    style: MergeStyle,
    size: int,
    ours_label: Option<Seq<char>>,
    base_label: Option<Seq<char>>,
    theirs_label: Option<Seq<char>>,
)
    requires
        plain_lines(base, ours, theirs, style),
        countable_markers(size, ours_label, base_label, theirs_label),
        r.base_end() <= base.len(),
        r.ours_end() <= ours.len(),
        r.theirs_end() <= theirs.len(),
    ensures
        is_terminated(
            conflict_text(r, base, ours, theirs, style, size, ours_label, base_label, theirs_label),
        ),
        marker_lines_in(
            conflict_text(r, base, ours, theirs, style, size, ours_label, base_label, theirs_label),
        ) == 3,
{
    let open_line = marker_line('<', size, ours_label);
    let ours_text = closed_lines(ours_of(ours, r));
    let top = open_line + ours_text;
    let base_line = marker_line('|', size, base_label);
    let base_text = closed_lines(base_of(base, r));
    let middle = if style == MergeStyle::Normal {
        Seq::<char>::empty()
    } else {
        base_line + base_text
    };
    let part_line = marker_line('=', size, None);
    let theirs_text = closed_lines(theirs_of(theirs, r));
    let close_line = marker_line('>', size, theirs_label);
    lemma_marker_line('<', size, ours_label);
    lemma_marker_line('|', size, base_label);
    lemma_marker_line('=', size, None);
    lemma_marker_line('>', size, theirs_label);
    lemma_closed_run(ours, r.ours_start as int, r.ours_end());
    lemma_closed_run(theirs, r.theirs_start as int, r.theirs_end());
    lemma_closed_run(base, r.base_start as int, r.base_end());
    lemma_marker_lines_in_add(open_line, ours_text);
    if style == MergeStyle::Normal {
        assert(top + middle =~= top);
    } else {
        lemma_marker_lines_in_add(base_line, base_text);
        lemma_marker_lines_in_add(top, middle);
    }
    lemma_marker_lines_in_add(top + middle, part_line);
    lemma_marker_lines_in_add(top + middle + part_line, theirs_text);
    lemma_marker_lines_in_add(top + middle + part_line + theirs_text, close_line);
}

/// What the counting asks of the regions: they lie in the texts one
/// behind the other, they are what their classes say, and they are spaced.
pub open spec fn countable_regions(
    rs: Seq<Region>,
    base: Seq<Seq<char>>,
    ours: Seq<Seq<char>>,
    theirs: Seq<Seq<char>>,
) -> bool {
    &&& chained(rs, base.len() as int, ours.len() as int, theirs.len() as int)
    &&& classified(rs, base, ours, theirs)
    &&& spaced(rs)
}

/// All but the last of countable regions are countable.
pub proof fn lemma_countable_front(rs: Seq<Region>, base: Seq<Seq<char>>, ours: Seq<Seq<char>>, theirs: Seq<Seq<char>>)
    requires
        countable_regions(rs, base, ours, theirs),
        rs.len() > 0,
    ensures
        countable_regions(rs.drop_last(), base, ours, theirs),
{
    let front = rs.drop_last();
    assert(front =~= rs.take(rs.len() - 1));
    lemma_chained_take(rs, base.len() as int, ours.len() as int, theirs.len() as int, rs.len() - 1);
    assert forall|k: int| 0 <= k < front.len() implies region_holds(#[trigger] front[k], base, ours, theirs) by {
        assert(front[k] == rs[k]);
    }
    assert forall|k: int, l: int| 0 <= k && l == k + 1 && l < front.len() implies can_follow(
        (#[trigger] front[k]).kind,
        #[trigger] front[l],
    ) by {
        assert(front[k] == rs[k] && front[l] == rs[l]);
    }
}

/// What a region that another follows gives to the merged text is
/// terminated.
pub proof fn lemma_followed_is_terminated(
    rs: Seq<Region>,
    k: int,
    base: Seq<Seq<char>>,
    ours: Seq<Seq<char>>,
    theirs: Seq<Seq<char>>,
    style: MergeStyle,
    favor: Option<MergeFavor>,
    size: int,
    ours_label: Option<Seq<char>>,
    base_label: Option<Seq<char>>,
    theirs_label: Option<Seq<char>>,
)
    requires
        plain_lines(base, ours, theirs, style),
        countable_markers(size, ours_label, base_label, theirs_label),
        countable_regions(rs, base, ours, theirs),
        0 <= k < rs.len() - 1,
    ensures
        is_terminated(
            region_text(rs[k], base, ours, theirs, style, favor, size, ours_label, base_label, theirs_label),
        ),
{
    let r = rs[k];
    let next = rs[k + 1];
    let text = region_text(r, base, ours, theirs, style, favor, size, ours_label, base_label, theirs_label);
    assert(r.base_end() <= base.len());
    assert(next.base_start == base_before(rs, k + 1));
    assert(next.base_end() <= base.len());
    assert(can_follow(r.kind, next));
    assert(region_holds(r, base, ours, theirs));
    lemma_region_text_open(r, base, ours, theirs, style, favor, size, ours_label, base_label, theirs_label);
    if !is_terminated(text) {
        if gives_ours(r.kind, favor) && r.ours_len > 0 && r.ours_end() == ours.len() && !is_terminated(
            ours[ours.len() - 1],
        ) {
            assert(next.ours_len == 0);
            let mine = ours_of(ours, r);
            assert(mine.last() == ours[ours.len() - 1]);
            if r.kind == RegionKind::Stable {
                lemma_last_line(base, r.base_start as int, r.base_end(), mine);
                lemma_last_line(theirs, r.theirs_start as int, r.theirs_end(), mine);
            } else if r.kind == RegionKind::Concordant {
                lemma_last_line(theirs, r.theirs_start as int, r.theirs_end(), mine);
            }
        } else {
            assert(next.theirs_len == 0);
        }
    }
}

/// A run of the lines of a text that ends with a line without terminator
/// ends with the last line of the text.
pub proof fn lemma_last_line(ls: Seq<Seq<char>>, from: int, to: int, other: Seq<Seq<char>>)
    requires
        proper_lines(ls),
        0 <= from <= to <= ls.len(),
        ls.subrange(from, to) == other,
        other.len() > 0,
        !is_terminated(other.last()),
    ensures
        to == ls.len(),
{
    let sub = ls.subrange(from, to);
    assert(sub.last() == ls[to - 1]);
    if to - 1 < ls.len() - 1 {
        assert(is_terminated(ls[to - 1]));
    }
}

/// The merged text of countable regions holds three marker lines for
/// every conflict that is written out, and it is terminated unless what
/// its last region gives is not.
pub proof fn lemma_render_count_open(
    rs: Seq<Region>,
    base: Seq<Seq<char>>,
    ours: Seq<Seq<char>>,
    theirs: Seq<Seq<char>>,
    style: MergeStyle,
    favor: Option<MergeFavor>,
    size: int,
    ours_label: Option<Seq<char>>,
    base_label: Option<Seq<char>>,
    theirs_label: Option<Seq<char>>,
)
    requires
        plain_lines(base, ours, theirs, style),
        countable_markers(size, ours_label, base_label, theirs_label),
        countable_regions(rs, base, ours, theirs),
    ensures
        marker_lines_in(
            render(rs, base, ours, theirs, style, favor, size, ours_label, base_label, theirs_label),
        ) == 3 * conflicts_written(rs, favor),
        !is_terminated(
            render(rs, base, ours, theirs, style, favor, size, ours_label, base_label, theirs_label),
        ) ==> rs.len() > 0 && !is_terminated(
            region_text(rs.last(), base, ours, theirs, style, favor, size, ours_label, base_label, theirs_label),
        ),
    decreases rs.len(),
{
    if rs.len() == 0 {
        assert(marker_lines(Seq::<Seq<char>>::empty()) == 0);
    } else {
        let front = rs.drop_last();
        let r = rs.last();
        let head = render(front, base, ours, theirs, style, favor, size, ours_label, base_label, theirs_label);
        let text = region_text(r, base, ours, theirs, style, favor, size, ours_label, base_label, theirs_label);
        lemma_countable_front(rs, base, ours, theirs);
        lemma_render_count_open(front, base, ours, theirs, style, favor, size, ours_label, base_label, theirs_label);
        assert(rs[rs.len() - 1].base_end() <= base.len());
        lemma_region_text_open(r, base, ours, theirs, style, favor, size, ours_label, base_label, theirs_label);
        if front.len() > 0 {
            assert(front.last() == rs[rs.len() - 2]);
            lemma_followed_is_terminated(
                rs,
                rs.len() - 2,
                base,
                ours,
                theirs,
                style,
                favor,
                size,
                ours_label,
                base_label,
                theirs_label,
            );
        }
        assert(is_terminated(head));
        lemma_marker_lines_in_add(head, text);
        if text.len() == 0 {
            assert(head + text =~= head);
        } else {
            assert((head + text)[(head + text).len() - 1] == text[text.len() - 1]);
        }
    }
}

} // verus!
