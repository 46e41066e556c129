//! The emitter: from the regions of a merge to the merged text.

use vstd::prelude::*;
use crate::region::{base_of, chained, ours_of, runs_match, theirs_of, Region, RegionKind};
use crate::text::line_views;
use crate::types::{MergeFavor, MergeStyle};

verus! {

/// The marker lines of a conflict: how many marker characters a line
/// starts with, and what stands behind them on the lines that open the
/// band of our side, the band of the base and, at the end, close the
/// conflict.
pub struct Markers {
    pub size: usize,
    pub ours: Option<Vec<char>>,
    pub base: Option<Vec<char>>,
    pub theirs: Option<Vec<char>>,
}

/// The characters of a label, where there is one.
pub open spec fn label_view(l: Option<Vec<char>>) -> Option<Seq<char>> {
    match l {
        Some(v) => Some(v@),
        None => None,
    }
}

/// The number of marker characters on a marker line: the size asked for,
/// or 7 where none is asked for.
pub open spec fn marker_width(size: int) -> int {
    if size == 0 {
        7
    } else {
        size
    }
}

/// `n` times the character `c`.
pub open spec fn repeated(c: char, n: int) -> Seq<char> {
    Seq::new(n as nat, |i: int| c)
}

/// A marker line: the marker characters, a blank and the label where
/// there is one, and the line terminator.
pub open spec fn marker_line(c: char, size: int, label: Option<Seq<char>>) -> Seq<char> {
    let run = repeated(c, marker_width(size));
    match label {
        Some(l) => (run.push(' ') + l).push('\n'),
        None => run.push('\n'),
    }
}

/// The lines put end to end.
pub open spec fn joined_lines(ls: Seq<Seq<char>>) -> Seq<char> {
    ls.flatten()
}

/// The lines put end to end, with a terminator added where the last line
/// has none.
pub open spec fn closed_lines(ls: Seq<Seq<char>>) -> Seq<char> {
    if ls.len() > 0 && (ls.last().len() == 0 || ls.last().last() != '\n') {
        ls.flatten().push('\n')
    } else {
        ls.flatten()
    }
}

/// A conflict written out: our lines, under the style with three bands
/// the lines of the base, and their lines, between marker lines.
pub open spec fn conflict_text(
    r: Region,
    base: Seq<Seq<char>>,
    ours: Seq<Seq<char>>,
    theirs: Seq<Seq<char>>,
    style: MergeStyle,
    size: int,
    ours_label: Option<Seq<char>>,
    base_label: Option<Seq<char>>,
    theirs_label: Option<Seq<char>>,
) -> Seq<char> {
    let top = marker_line('<', size, ours_label) + closed_lines(ours_of(ours, r));
    let middle = if style == MergeStyle::Normal {
        Seq::<char>::empty()
    } else {
        marker_line('|', size, base_label) + closed_lines(base_of(base, r))
    };
    top + middle + marker_line('=', size, None) + closed_lines(theirs_of(theirs, r)) + marker_line(
        '>',
        size,
        theirs_label,
    )
}

/// Our lines followed by their lines, or the lines once where the two
/// sides are the same.
pub open spec fn union_text(mine: Seq<Seq<char>>, other: Seq<Seq<char>>) -> Seq<char> {
    if mine == other {
        joined_lines(mine)
    } else {
        closed_lines(mine) + joined_lines(other)
    }
}

/// What a region gives to the merged text. A conflict is written out with
/// markers unless a side is favored: then it gives our lines, their lines,
/// or both, ours first.
pub open spec fn region_text(
    r: Region,
    base: Seq<Seq<char>>,
    ours: Seq<Seq<char>>,
    theirs: Seq<Seq<char>>,
    style: MergeStyle,
    favor: Option<MergeFavor>,
    size: int,
    ours_label: Option<Seq<char>>,
    base_label: Option<Seq<char>>,
    theirs_label: Option<Seq<char>>,
) -> Seq<char> {
    match r.kind {
        RegionKind::Stable | RegionKind::OursOnly | RegionKind::Concordant => joined_lines(ours_of(ours, r)),
        RegionKind::TheirsOnly => joined_lines(theirs_of(theirs, r)),
        RegionKind::Conflict => match favor {
            None => conflict_text(r, base, ours, theirs, style, size, ours_label, base_label, theirs_label),
            Some(MergeFavor::Ours) => joined_lines(ours_of(ours, r)),
            Some(MergeFavor::Theirs) => joined_lines(theirs_of(theirs, r)),
            Some(MergeFavor::Union) => union_text(ours_of(ours, r), theirs_of(theirs, r)),
        },
    }
}

/// The merged text: what the regions give, one after the other.
pub open spec fn render(
    rs: Seq<Region>,
    base: Seq<Seq<char>>,
    ours: Seq<Seq<char>>,
    theirs: Seq<Seq<char>>,
    style: MergeStyle,
    favor: Option<MergeFavor>,
    size: int,
    ours_label: Option<Seq<char>>,
    base_label: Option<Seq<char>>,
    theirs_label: Option<Seq<char>>,
) -> Seq<char>
    decreases rs.len(),
{
    if rs.len() == 0 {
        Seq::empty()
    } else {
        render(rs.drop_last(), base, ours, theirs, style, favor, size, ours_label, base_label, theirs_label)
            + region_text(
            rs.last(),
            base,
            ours,
            theirs,
            style,
            favor,
            size,
            ours_label,
            base_label,
            theirs_label,
        )
    }
}

/// The number of conflicts among the regions.
pub open spec fn conflict_regions(rs: Seq<Region>) -> int
    decreases rs.len(),
{
    if rs.len() == 0 {
        0
    } else {
        conflict_regions(rs.drop_last()) + if rs.last().kind == RegionKind::Conflict {
            1int
        } else {
            0int
        }
    }
}

/// The number of conflicts that are written out with markers: all of
/// them where no side is favored, none where one is.
pub open spec fn conflicts_written(rs: Seq<Region>, favor: Option<MergeFavor>) -> int {
    if favor is None {
        conflict_regions(rs)
    } else {
        0
    }
}

/// There are no more conflicts than regions.
pub proof fn lemma_conflict_regions_bound(rs: Seq<Region>)
    ensures
        0 <= conflict_regions(rs) <= rs.len(),
    decreases rs.len(),
{
    if rs.len() > 0 {
        lemma_conflict_regions_bound(rs.drop_last());
    }
}

/// Adds the characters of a line.
pub fn push_chars(out: &mut Vec<char>, line: &Vec<char>)
    ensures
        final(out)@ == old(out)@ + line@,
{
    let mut j: usize = 0;
    assert(out@ =~= old(out)@ + line@.subrange(0, 0));
    while j < line.len()
        invariant
            j <= line@.len(),
            out@ == old(out)@ + line@.subrange(0, j as int),
        decreases line@.len() - j,
    {
        out.push(line[j]);
        j += 1;
        assert(out@ =~= old(out)@ + line@.subrange(0, j as int));
    }
    assert(line@.subrange(0, j as int) =~= line@);
}

/// Adds the lines `lines[start..start + len]`, and with `close` a
/// terminator where the last of them has none.
pub fn push_lines(out: &mut Vec<char>, lines: &Vec<Vec<char>>, start: usize, len: usize, close: bool)
    requires
        start + len <= lines@.len(),
    ensures
        final(out)@ == old(out)@ + (if close {
            closed_lines(line_views(lines@).subrange(start as int, start + len))
        } else {
            joined_lines(line_views(lines@).subrange(start as int, start + len))
        }),
{
    let ghost vl = line_views(lines@);
    let count: usize = lines.len();
    let mut t: usize = 0;
    proof {
        assert(vl.subrange(start as int, start + 0) =~= Seq::<Seq<char>>::empty());
        assert(out@ =~= old(out)@ + vl.subrange(start as int, start + 0).flatten());
    }
    while t < len
        invariant
            t <= len,
            start + len <= count,
            count == lines@.len(),
            vl == line_views(lines@),
            out@ == old(out)@ + vl.subrange(start as int, start + t).flatten(),
        decreases len - t,
    {
        let ghost before = out@;
        push_chars(out, &lines[start + t]);
        proof {
            let done = vl.subrange(start as int, start + t);
            assert(vl.subrange(start as int, start + t + 1) =~= done.push(vl[start + t]));
            done.lemma_flatten_push(vl[start + t]);
            assert(out@ =~= old(out)@ + vl.subrange(start as int, start + t + 1).flatten());
        }
        t += 1;
    }
    if close && len > 0 {
        let last: &Vec<char> = &lines[start + len - 1];
        assert(vl.subrange(start as int, start + len).last() == last@);
        if last.len() == 0 || last[last.len() - 1] != '\n' {
            out.push('\n');
        }
    }
}

/// Adds a marker line.
pub fn push_marker(out: &mut Vec<char>, c: char, size: usize, label: &Option<Vec<char>>)
    ensures
        final(out)@ == old(out)@ + marker_line(c, size as int, label_view(*label)),
{
    let width: usize = if size == 0 {
        7
    } else {
        size
    };
    let mut i: usize = 0;
    assert(out@ =~= old(out)@ + repeated(c, 0));
    while i < width
        invariant
            i <= width,
            out@ == old(out)@ + repeated(c, i as int),
        decreases width - i,
    {
        out.push(c);
        i += 1;
        assert(out@ =~= old(out)@ + repeated(c, i as int));
    }
    match label {
        Some(l) => {
            out.push(' ');
            push_chars(out, l);
            out.push('\n');
            assert(out@ =~= old(out)@ + (repeated(c, width as int).push(' ') + l@).push('\n'));
        },
        None => {
            out.push('\n');
            assert(out@ =~= old(out)@ + repeated(c, width as int).push('\n'));
        },
    }
}

/// Adds a conflict, written out with its markers.
pub fn push_conflict(
    out: &mut Vec<char>,
    r: Region,
    base: &Vec<Vec<char>>,
    ours: &Vec<Vec<char>>,
    theirs: &Vec<Vec<char>>,
    style: MergeStyle,
    markers: &Markers,
)
    requires
        r.base_end() <= base@.len(),
        r.ours_end() <= ours@.len(),
        r.theirs_end() <= theirs@.len(),
    ensures
        final(out)@ == old(out)@ + conflict_text(
            r,
            line_views(base@),
            line_views(ours@),
            line_views(theirs@),
            style,
            markers.size as int,
            label_view(markers.ours),
            label_view(markers.base),
            label_view(markers.theirs),
        ),
{
    let ghost size = markers.size as int;
    let ghost top = marker_line('<', size, label_view(markers.ours)) + closed_lines(
        ours_of(line_views(ours@), r),
    );
    let ghost middle = if style == MergeStyle::Normal {
        Seq::<char>::empty()
    } else {
        marker_line('|', size, label_view(markers.base)) + closed_lines(base_of(line_views(base@), r))
    };
    push_marker(out, '<', markers.size, &markers.ours);
    push_lines(out, ours, r.ours_start, r.ours_len, true);
    assert(out@ =~= old(out)@ + top);
    match style {
        MergeStyle::Normal => {},
        _ => {
            push_marker(out, '|', markers.size, &markers.base);
            push_lines(out, base, r.base_start, r.base_len, true);
        },
    }
    assert(out@ =~= old(out)@ + (top + middle));
    let none: Option<Vec<char>> = None;
    push_marker(out, '=', markers.size, &none);
    push_lines(out, theirs, r.theirs_start, r.theirs_len, true);
    push_marker(out, '>', markers.size, &markers.theirs);
    assert(out@ =~= old(out)@ + (top + middle + marker_line('=', size, None) + closed_lines(
        theirs_of(line_views(theirs@), r),
    ) + marker_line('>', size, label_view(markers.theirs))));
}

/// Adds what a region gives to the merged text.
pub fn push_region_text(
    out: &mut Vec<char>,
    r: Region,
    base: &Vec<Vec<char>>,
    ours: &Vec<Vec<char>>,
    theirs: &Vec<Vec<char>>,
    style: MergeStyle,
    favor: Option<MergeFavor>,
    markers: &Markers,
)
    requires
        r.base_end() <= base@.len(),
        r.ours_end() <= ours@.len(),
        r.theirs_end() <= theirs@.len(),
    ensures
        final(out)@ == old(out)@ + region_text(
            r,
            line_views(base@),
            line_views(ours@),
            line_views(theirs@),
            style,
            favor,
            markers.size as int,
            label_view(markers.ours),
            label_view(markers.base),
            label_view(markers.theirs),
        ),
{
    match r.kind {
        RegionKind::Stable | RegionKind::OursOnly | RegionKind::Concordant => {
            push_lines(out, ours, r.ours_start, r.ours_len, false);
        },
        RegionKind::TheirsOnly => {
            push_lines(out, theirs, r.theirs_start, r.theirs_len, false);
        },
        RegionKind::Conflict => match favor {
            None => {
                push_conflict(out, r, base, ours, theirs, style, markers);
            },
            Some(MergeFavor::Ours) => {
                push_lines(out, ours, r.ours_start, r.ours_len, false);
            },
            Some(MergeFavor::Theirs) => {
                push_lines(out, theirs, r.theirs_start, r.theirs_len, false);
            },
            Some(MergeFavor::Union) => {
                if r.ours_len == r.theirs_len && runs_match(ours, r.ours_start, theirs, r.theirs_start, r.ours_len) {
                    push_lines(out, ours, r.ours_start, r.ours_len, false);
                } else {
                    assert(ours_of(line_views(ours@), r).len() == r.ours_len);
                    assert(theirs_of(line_views(theirs@), r).len() == r.theirs_len);
                    push_lines(out, ours, r.ours_start, r.ours_len, true);
                    push_lines(out, theirs, r.theirs_start, r.theirs_len, false);
                    assert(out@ =~= old(out)@ + (closed_lines(ours_of(line_views(ours@), r)) + joined_lines(
                        theirs_of(line_views(theirs@), r),
                    )));
                }
            },
        },
    }
}

/// Writes the merged text and counts the conflicts that are written out
/// with markers.
pub fn emit(
    rs: &Vec<Region>,
    base: &Vec<Vec<char>>,
    ours: &Vec<Vec<char>>,
    theirs: &Vec<Vec<char>>,
    style: MergeStyle,
    favor: Option<MergeFavor>,
    markers: &Markers,
) -> (res: (Vec<char>, usize))
    requires
        chained(rs@, base@.len() as int, ours@.len() as int, theirs@.len() as int),
    ensures
        res.0@ == render(
            rs@,
            line_views(base@),
            line_views(ours@),
            line_views(theirs@),
            style,
            favor,
            markers.size as int,
            label_view(markers.ours),
            label_view(markers.base),
            label_view(markers.theirs),
        ),
        res.1 == conflicts_written(rs@, favor),
{
    let mut out: Vec<char> = Vec::new();
    let mut conflicts: usize = 0;
    let mut i: usize = 0;
    assert(rs@.take(0) =~= Seq::<Region>::empty());
    while i < rs.len()
        invariant
            i <= rs@.len(),
            chained(rs@, base@.len() as int, ours@.len() as int, theirs@.len() as int),
            out@ == render(
                rs@.take(i as int),
                line_views(base@),
                line_views(ours@),
                line_views(theirs@),
                style,
                favor,
                markers.size as int,
                label_view(markers.ours),
                label_view(markers.base),
                label_view(markers.theirs),
            ),
            conflicts == conflict_regions(rs@.take(i as int)),
        decreases rs@.len() - i,
    {
        let r: Region = rs[i];
        proof {
            assert(rs@.take(i + 1).drop_last() =~= rs@.take(i as int));
            assert(rs@.take(i + 1).last() == r);
            lemma_conflict_regions_bound(rs@.take(i as int));
            assert(rs@[i as int].base_end() <= base@.len());
        }
        push_region_text(&mut out, r, base, ours, theirs, style, favor, markers);
        match r.kind {
            RegionKind::Conflict => {
                conflicts += 1;
            },
            _ => {},
        }
        i += 1;
    }
    assert(rs@.take(i as int) =~= rs@);
    let written: usize = if favor.is_none() {
        conflicts
    } else {
        0
    };
    (out, written)
}

} // verus!
