//! The three-way merge: two edit scripts from the base, the regions they
//! give, and the merged text.

use vstd::prelude::*;
use vstd::string::StringExecFns;
use crate::classify::{
    lemma_chained_fit, lemma_simplify_classified, lemma_split_all_classified,
};
use crate::classify::lemma_dividable;
use crate::diff::{diff, diff_post, fits, too_large};
use crate::emit::{
    conflicts_written, emit, joined_lines, label_view, push_lines, render, Markers,
};
use crate::plan::{plan, plan_of};
use crate::refine::{refine_conflicts, split_all, subs_ok};
use crate::region::{classified, tiles, Region};
use crate::script::Hunk;
use crate::simplify::{simplify, simplify_all};
use crate::spacing::{alternating, lemma_alternating_spaced, lemma_split_all_spaced, spaced};
use crate::strings::{chars_of, string_of};
use crate::text::{line_views, lines_of, split_lines};
use crate::types::{DiffAlgorithm, MergeError, MergeFavor, MergeLevel, MergeOptions, MergeResult, MergeStyle};

verus! {

/// Whether the conflicts of a merge are looked into by a diff of their
/// two sides: under the style `ZealousDiff3`, and under the style `Normal`
/// from the level `Zealous` on.
pub open spec fn rediffs(style: MergeStyle, level: MergeLevel) -> bool {
    ||| style == MergeStyle::ZealousDiff3
    ||| (style == MergeStyle::Normal && (level == MergeLevel::Zealous || level == MergeLevel::ZealousAlnum))
}

/// The regions of a merge, from the two edit scripts from the base and,
/// where conflicts are looked into by a diff, the scripts between the
/// sides of the conflicts.
///
/// Under the style `Diff3` the regions stay as the planner gives them.
/// Under `ZealousDiff3` every conflict is divided by the script between
/// its sides. Under `Normal`, from the level `Zealous` on, the conflicts
/// are divided in the same way, and conflicts that then lie close
/// together are joined; with `ZealousAlnum`, lines without a letter or
/// digit do not keep two conflicts apart.
pub open spec fn final_regions(
    base: Seq<Seq<char>>,
    ours: Seq<Seq<char>>,
    theirs: Seq<Seq<char>>,
    s1: Seq<Hunk>,
    s2: Seq<Hunk>,
    subs: Seq<Seq<Hunk>>,
    style: MergeStyle,
    level: MergeLevel,
) -> Seq<Region> {
    let first = plan_of(base, ours, theirs, s1, s2, level);
    if !rediffs(style, level) {
        first
    } else if style == MergeStyle::Normal {
        simplify_all(split_all(first, subs), ours, level == MergeLevel::ZealousAlnum)
    } else {
        split_all(first, subs)
    }
}

/// The text and the number of conflicts that the edit scripts `s1`, from
/// the base to ours, and `s2`, from the base to theirs, give. Where one
/// side did not change the base, the merge is the other side.
pub open spec fn merged_by(
    base: Seq<Seq<char>>,
    ours: Seq<Seq<char>>,
    theirs: Seq<Seq<char>>,
    s1: Seq<Hunk>,
    s2: Seq<Hunk>,
    subs: Seq<Seq<Hunk>>,
    style: MergeStyle,
    favor: Option<MergeFavor>,
    algorithm: DiffAlgorithm,
    level: MergeLevel,
    size: int,
    ours_label: Option<Seq<char>>,
    base_label: Option<Seq<char>>,
    theirs_label: Option<Seq<char>>,
    text: Seq<char>,
    conflicts: int,
) -> bool {
    if s1.len() == 0 {
        text == joined_lines(theirs) && conflicts == 0
    } else if s2.len() == 0 {
        text == joined_lines(ours) && conflicts == 0
    } else {
        let first = plan_of(base, ours, theirs, s1, s2, level);
        let rs = final_regions(base, ours, theirs, s1, s2, subs, style, level);
        &&& rediffs(style, level) ==> subs_ok(first, subs, ours, theirs, algorithm)
        &&& tiles(first, base.len() as int, ours.len() as int, theirs.len() as int)
        &&& tiles(rs, base.len() as int, ours.len() as int, theirs.len() as int)
        &&& classified(rs, base, ours, theirs)
        &&& spaced(rs)
        &&& text == render(rs, base, ours, theirs, style, favor, size, ours_label, base_label, theirs_label)
        &&& conflicts == conflicts_written(rs, favor)
    }
}

/// `text` with `conflicts` conflicts is a merge of the three sequences of
/// lines: there are edit scripts from the base to either side, as the
/// diff engine promises them, that give it.
pub open spec fn is_merge(
    base: Seq<Seq<char>>,
    ours: Seq<Seq<char>>,
    theirs: Seq<Seq<char>>,
    style: MergeStyle,
    favor: Option<MergeFavor>,
    algorithm: DiffAlgorithm,
    level: MergeLevel,
    size: int,
    ours_label: Option<Seq<char>>,
    base_label: Option<Seq<char>>,
    theirs_label: Option<Seq<char>>,
    text: Seq<char>,
    conflicts: int,
) -> bool {
    exists|s1: Seq<Hunk>, s2: Seq<Hunk>, subs: Seq<Seq<Hunk>>|
        {
            &&& diff_post(base, ours, algorithm, s1)
            &&& diff_post(base, theirs, algorithm, s2)
            &&& #[trigger] merged_by(
                base,
                ours,
                theirs,
                s1,
                s2,
                subs,
                style,
                favor,
                algorithm,
                level,
                size,
                ours_label,
                base_label,
                theirs_label,
                text,
                conflicts,
            )
        }
}

/// The three sequences are more than the engine can take on.
pub open spec fn inputs_too_large(n0: int, n1: int, n2: int, algorithm: DiffAlgorithm) -> bool {
    too_large(n0, n1, algorithm) || too_large(n0, n2, algorithm) || too_large(n1, n2, algorithm)
}

/// Brings the regions into their final form, as the style and the level ask.
fn finish_regions(
    first: Vec<Region>,
    base: &Vec<Vec<char>>,
    ours: &Vec<Vec<char>>,
    theirs: &Vec<Vec<char>>,
    style: MergeStyle,
    level: MergeLevel,
    algorithm: DiffAlgorithm,
) -> (res: (Vec<Region>, Ghost<Seq<Seq<Hunk>>>))
    requires
        tiles(first@, base@.len() as int, ours@.len() as int, theirs@.len() as int),
        classified(first@, line_views(base@), line_views(ours@), line_views(theirs@)),
        alternating(first@),
        !too_large(ours@.len() as int, theirs@.len() as int, algorithm),
    ensures
        tiles(res.0@, base@.len() as int, ours@.len() as int, theirs@.len() as int),
        classified(res.0@, line_views(base@), line_views(ours@), line_views(theirs@)),
        spaced(res.0@),
        rediffs(style, level) ==> subs_ok(first@, res.1@, line_views(ours@), line_views(theirs@), algorithm),
        res.0@ == (if !rediffs(style, level) {
            first@
        } else if style == MergeStyle::Normal {
            simplify_all(split_all(first@, res.1@), line_views(ours@), level == MergeLevel::ZealousAlnum)
        } else {
            split_all(first@, res.1@)
        }),
{
    let ghost vb = line_views(base@);
    let ghost vo = line_views(ours@);
    let ghost vt = line_views(theirs@);
    let base_count: usize = base.len();
    let theirs_count: usize = theirs.len();
    let divide: bool = match style {
        MergeStyle::ZealousDiff3 => true,
        MergeStyle::Diff3 => false,
        MergeStyle::Normal => match level {
            MergeLevel::Zealous | MergeLevel::ZealousAlnum => true,
            _ => false,
        },
    };
    if !divide {
        proof {
            lemma_alternating_spaced(first@);
        }
        return (first, Ghost(Seq::empty()));
    }
    let (split, subs) = refine_conflicts(&first, base_count, ours, theirs, algorithm);
    proof {
        lemma_chained_fit(first@, base_count as int, vo, vt);
        lemma_split_all_classified(first@, subs@, vb, vo, vt, algorithm);
        lemma_dividable(first@, subs@, vo, vt, algorithm);
        lemma_split_all_spaced(first@, subs@, vo, vt);
    }
    match style {
        MergeStyle::Normal => {
            let alnum: bool = match level {
                MergeLevel::ZealousAlnum => true,
                _ => false,
            };
            let rs = simplify(&split, base_count, ours, theirs_count, alnum);
            proof {
                lemma_simplify_classified(split@, alnum, vb, vo, vt);
            }
            (rs, subs)
        },
        _ => (split, subs),
    }
}

/// Merges three sequences of lines. The engine gives up, with
/// `OutOfMemory`, on sequences that it cannot index; on all others it
/// gives the merged text and the number of conflicts written into it.
pub fn merge_lines(
    base: &Vec<Vec<char>>,
    ours: &Vec<Vec<char>>,
    theirs: &Vec<Vec<char>>,
    style: MergeStyle,
    favor: Option<MergeFavor>,
    algorithm: DiffAlgorithm,
    level: MergeLevel,
    markers: &Markers,
) -> (r: Result<(Vec<char>, usize), MergeError>)
    ensures
        match r {
            Ok((text, conflicts)) => {
                &&& !inputs_too_large(
                    base@.len() as int,
                    ours@.len() as int,
                    theirs@.len() as int,
                    algorithm,
                )
                &&& is_merge(
                    line_views(base@),
                    line_views(ours@),
                    line_views(theirs@),
                    style,
                    favor,
                    algorithm,
                    level,
                    markers.size as int,
                    label_view(markers.ours),
                    label_view(markers.base),
                    label_view(markers.theirs),
                    text@,
                    conflicts as int,
                )
            },
            Err(e) => e is OutOfMemory && inputs_too_large(
                base@.len() as int,
                ours@.len() as int,
                theirs@.len() as int,
                algorithm,
            ),
        },
{
    let ghost vb = line_views(base@);
    let ghost vo = line_views(ours@);
    let ghost vt = line_views(theirs@);
    let s1: Vec<Hunk> = match diff(base, ours, algorithm) {
        Ok(s) => s,
        Err(_) => {
            return Err(MergeError::OutOfMemory);
        },
    };
    let s2: Vec<Hunk> = match diff(base, theirs, algorithm) {
        Ok(s) => s,
        Err(_) => {
            return Err(MergeError::OutOfMemory);
        },
    };
    // The sides are compared with each other only inside conflicts, but
    // whether they can be is settled here, before any text is written.
    if !fits(ours.len(), theirs.len(), algorithm) {
        return Err(MergeError::OutOfMemory);
    }
    if s1.len() == 0 || s2.len() == 0 {
        let mut text: Vec<char> = Vec::new();
        if s1.len() == 0 {
            push_lines(&mut text, theirs, 0, theirs.len(), false);
            assert(vt.subrange(0, theirs@.len() as int) =~= vt);
        } else {
            push_lines(&mut text, ours, 0, ours.len(), false);
            assert(vo.subrange(0, ours@.len() as int) =~= vo);
        }
        proof {
            let subs = Seq::<Seq<Hunk>>::empty();
            assert(merged_by(
                vb,
                vo,
                vt,
                s1@,
                s2@,
                subs,
                style,
                favor,
                algorithm,
                level,
                markers.size as int,
                label_view(markers.ours),
                label_view(markers.base),
                label_view(markers.theirs),
                text@,
                0,
            ));
        }
        return Ok((text, 0));
    }
    let first = plan(base, ours, theirs, &s1, &s2, level);
    let (rs, subs) = finish_regions(first, base, ours, theirs, style, level, algorithm);
    let (text, conflicts) = emit(&rs, base, ours, theirs, style, favor, markers);
    proof {
        assert(merged_by(
            vb,
            vo,
            vt,
            s1@,
            s2@,
            subs@,
            style,
            favor,
            algorithm,
            level,
            markers.size as int,
            label_view(markers.ours),
            label_view(markers.base),
            label_view(markers.theirs),
            text@,
            conflicts as int,
        ));
    }
    Ok((text, conflicts))
}

/// The characters of a label of the options, where there is one.
pub open spec fn label_chars(l: Option<String>) -> Option<Seq<char>> {
    match l {
        Some(s) => Some(s@),
        None => None,
    }
}

/// A label can stand on a marker line: it holds no line terminator and no
/// character with the code 0.
pub open spec fn label_valid(l: Option<Seq<char>>) -> bool {
    match l {
        Some(s) => fits_marker_line(s),
        None => true,
    }
}

/// The characters hold no line terminator and no character with the code 0.
pub open spec fn fits_marker_line(s: Seq<char>) -> bool {
    forall|i: int| 0 <= i < s.len() ==> (#[trigger] s[i]) != '\n' && s[i] != '\0'
}

/// All labels of the options can stand on a marker line.
pub open spec fn options_valid(o: MergeOptions) -> bool {
    &&& label_valid(label_chars(o.ancestor_label))
    &&& label_valid(label_chars(o.ours_label))
    &&& label_valid(label_chars(o.theirs_label))
}

/// What the error says of options that are not valid: the first label, in
/// the order ancestor, ours, theirs, that cannot stand on a marker line.
pub open spec fn invalid_label_message(o: MergeOptions) -> Seq<char> {
    if !label_valid(label_chars(o.ancestor_label)) {
        "Invalid ancestor label"@
    } else if !label_valid(label_chars(o.ours_label)) {
        "Invalid ours label"@
    } else {
        "Invalid theirs label"@
    }
}

/// The characters of a label, if the label can stand on a marker line.
fn checked_label(l: &Option<String>) -> (r: Result<Option<Vec<char>>, ()>)
    ensures
        match r {
            Ok(v) => label_valid(label_chars(*l)) && label_view(v) == label_chars(*l),
            Err(_) => !label_valid(label_chars(*l)),
        },
{
    match l {
        None => Ok(None),
        Some(s) => {
            let v: Vec<char> = chars_of(s.as_str());
            let mut i: usize = 0;
            while i < v.len()
                invariant
                    i <= v@.len(),
                    v@ == s@,
                    label_chars(*l) == Some(s@),
                    forall|j: int| 0 <= j < i ==> (#[trigger] v@[j]) != '\n' && v@[j] != '\0',
                decreases v@.len() - i,
            {
                if v[i] == '\n' || v[i] == '\0' {
                    proof {
                        let bad = s@[i as int];
                        assert(bad == '\n' || bad == '\0');
                    }
                    return Err(());
                }
                i += 1;
            }
            Ok(Some(v))
        },
    }
}

/// Merges the texts `ours` and `theirs`, which both come from `base`.
///
/// The texts are divided into lines, an edit script is computed from the
/// base to either side, and the regions that the two scripts give are
/// written out; where the two sides changed the same stretch of the base
/// in different ways, the result holds a conflict. Options with a label
/// that cannot stand on a marker line are refused before anything is
/// computed, and texts that the engine cannot index are refused with
/// `OutOfMemory`.
pub fn merge_strings(base: &str, ours: &str, theirs: &str, options: &MergeOptions) -> (r: Result<
    MergeResult,
    MergeError,
>)
    ensures
        match r {
            Ok(res) => {
                &&& options_valid(*options)
                &&& !inputs_too_large(
                    lines_of(base@).len() as int,
                    lines_of(ours@).len() as int,
                    lines_of(theirs@).len() as int,
                    options.algorithm,
                )
                &&& is_merge(
                    lines_of(base@),
                    lines_of(ours@),
                    lines_of(theirs@),
                    options.style,
                    options.favor,
                    options.algorithm,
                    options.level,
                    options.marker_size as int,
                    label_chars(options.ours_label),
                    label_chars(options.ancestor_label),
                    label_chars(options.theirs_label),
                    res.content@,
                    res.conflicts as int,
                )
            },
            Err(MergeError::InvalidInput(msg)) => !options_valid(*options) && msg@ == invalid_label_message(
                *options,
            ),
            Err(MergeError::OutOfMemory) => options_valid(*options) && inputs_too_large(
                lines_of(base@).len() as int,
                lines_of(ours@).len() as int,
                lines_of(theirs@).len() as int,
                options.algorithm,
            ),
            Err(MergeError::Internal(_)) => false,
        },
{
    let base_label = match checked_label(&options.ancestor_label) {
        Ok(v) => v,
        Err(_) => {
            return Err(MergeError::InvalidInput(String::from_str("Invalid ancestor label")));
        },
    };
    let ours_label = match checked_label(&options.ours_label) {
        Ok(v) => v,
        Err(_) => {
            return Err(MergeError::InvalidInput(String::from_str("Invalid ours label")));
        },
    };
    let theirs_label = match checked_label(&options.theirs_label) {
        Ok(v) => v,
        Err(_) => {
            return Err(MergeError::InvalidInput(String::from_str("Invalid theirs label")));
        },
    };
    let markers = Markers { size: options.marker_size, ours: ours_label, base: base_label, theirs: theirs_label };
    let base_lines = split_lines(&chars_of(base));
    let ours_lines = split_lines(&chars_of(ours));
    let theirs_lines = split_lines(&chars_of(theirs));
    match merge_lines(
        &base_lines,
        &ours_lines,
        &theirs_lines,
        options.style,
        options.favor,
        options.algorithm,
        options.level,
        &markers,
    ) {
        Ok((text, conflicts)) => Ok(MergeResult { content: string_of(&text), conflicts }),
        Err(_) => Err(MergeError::OutOfMemory),
    }
}

/// The line starts with seven times the character `c`.
pub open spec fn starts_with_run(l: Seq<char>, c: char) -> bool {
    l.len() >= 7 && forall|i: int| 0 <= i < 7 ==> l[i] == c
}

/// The line starts as the marker lines of a conflict of the usual width do.
pub open spec fn is_marker_line(l: Seq<char>) -> bool {
    starts_with_run(l, '<') || starts_with_run(l, '=') || starts_with_run(l, '>')
}

/// The number of lines that start as marker lines do.
pub open spec fn marker_lines(ls: Seq<Seq<char>>) -> int
    decreases ls.len(),
{
    if ls.len() == 0 {
        0
    } else {
        marker_lines(ls.drop_last()) + if is_marker_line(ls.last()) {
            1int
        } else {
            0int
        }
    }
}

/// There are no more marker lines than lines.
pub proof fn lemma_marker_lines_bound(ls: Seq<Seq<char>>)
    ensures
        0 <= marker_lines(ls) <= ls.len(),
    decreases ls.len(),
{
    if ls.len() > 0 {
        lemma_marker_lines_bound(ls.drop_last());
    }
}

/// Whether the line starts with seven times the character `c`.
fn begins_with_run(l: &Vec<char>, c: char) -> (r: bool)
    ensures
        r == starts_with_run(l@, c),
{
    if l.len() < 7 {
        return false;
    }
    let mut i: usize = 0;
    while i < 7
        invariant
            i <= 7,
            l@.len() >= 7,
            forall|j: int| 0 <= j < i ==> l@[j] == c,
        decreases 7 - i,
    {
        if l[i] != c {
            return false;
        }
        i += 1;
    }
    true
}

/// Counts the conflicts that a text shows: a third of the number of its
/// lines that start as marker lines do.
pub fn count_conflicts(content: &str) -> (n: usize)
    ensures
        n == marker_lines(lines_of(content@)) / 3,
{
    let lines = split_lines(&chars_of(content));
    let ghost vl = line_views(lines@);
    let mut found: usize = 0;
    let mut i: usize = 0;
    assert(vl.take(0) =~= Seq::<Seq<char>>::empty());
    while i < lines.len()
        invariant
            i <= lines@.len(),
            vl == line_views(lines@),
            found == marker_lines(vl.take(i as int)),
        decreases lines@.len() - i,
    {
        proof {
            assert(vl.take(i + 1).drop_last() =~= vl.take(i as int));
            assert(vl.take(i + 1).last() == lines@[i as int]@);
            lemma_marker_lines_bound(vl.take(i as int));
        }
        let l: &Vec<char> = &lines[i];
        if begins_with_run(l, '<') || begins_with_run(l, '=') || begins_with_run(l, '>') {
            found += 1;
        }
        i += 1;
    }
    assert(vl.take(i as int) =~= vl);
    found / 3
}

} // verus!
