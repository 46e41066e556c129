//! What holds of every merge.

use vstd::prelude::*;
use crate::count::{
    countable_markers, lemma_no_marker_lines, lemma_render_count_open, no_marker_lines, plain_lines,
};
use crate::diff::{diff_post, is_shortest};
use crate::edit_graph::lemma_script_cost_bound;
use crate::emit::lemma_conflict_regions_bound;
use crate::merge::{final_regions, is_merge, merged_by, rediffs};
use crate::merge::marker_lines;
use crate::plan::plan_of;
use crate::refine::split_all;
use crate::region::{ours_of, refinable, theirs_of, Region};
use crate::script::{lemma_equal_sequences_have_empty_script, script_cost, script_valid, Hunk};
use crate::text::{lemma_lines_of_shape, lemma_lines_round_trip, lines_of};
use crate::types::{DiffAlgorithm, MergeFavor, MergeLevel, MergeStyle};
use crate::unique::{lemma_tight_script_is_unique, lemma_unambiguous_runs, unambiguous};

verus! {

/// A merge of three identical texts is that text, without a conflict,
/// whatever the style, the level and the favored side.
pub proof fn law_identical_texts_merge_to_themselves(
    text: Seq<char>,
    style: MergeStyle,
    favor: Option<MergeFavor>,
    algorithm: DiffAlgorithm,
    level: MergeLevel,
    size: int,
    ours_label: Option<Seq<char>>,
    base_label: Option<Seq<char>>,
    theirs_label: Option<Seq<char>>,
    merged: Seq<char>,
    conflicts: int,
)
    requires
        is_merge(
            lines_of(text),
            lines_of(text),
            lines_of(text),
            style,
            favor,
            algorithm,
        level,
            size,
            ours_label,
            base_label,
            theirs_label,
            merged,
            conflicts,
        ),
    ensures
        merged == text,
        conflicts == 0,
{
    law_unchanged_ours_gives_theirs(
        text,
        text,
        style,
        favor,
        algorithm,
        level,
        size,
        ours_label,
        base_label,
        theirs_label,
        merged,
        conflicts,
    );
}

/// Where our side is the base, the merge is their side as it stands,
/// without a conflict.
pub proof fn law_unchanged_ours_gives_theirs(
    base: Seq<char>,
    theirs: Seq<char>,
    style: MergeStyle,
    favor: Option<MergeFavor>,
    algorithm: DiffAlgorithm,
    level: MergeLevel,
    size: int,
    ours_label: Option<Seq<char>>,
    base_label: Option<Seq<char>>,
    theirs_label: Option<Seq<char>>,
    merged: Seq<char>,
    conflicts: int,
)
    requires
        is_merge(
            lines_of(base),
            lines_of(base),
            lines_of(theirs),
            style,
            favor,
            algorithm,
        level,
            size,
            ours_label,
            base_label,
            theirs_label,
            merged,
            conflicts,
        ),
    ensures
        merged == theirs,
        conflicts == 0,
{
    let b = lines_of(base);
    let t = lines_of(theirs);
    let (s1, s2, subs): (Seq<Hunk>, Seq<Hunk>, Seq<Seq<Hunk>>) = choose|
        s1: Seq<Hunk>,
        s2: Seq<Hunk>,
        subs: Seq<Seq<Hunk>>,
    |
        {
            &&& diff_post(b, b, algorithm, s1)
            &&& diff_post(b, t, algorithm, s2)
            &&& #[trigger] merged_by(
                b,
                b,
                t,
                s1,
                s2,
                subs,
                style,
                favor,
                algorithm,
        level,
                size,
                ours_label,
                base_label,
                theirs_label,
                merged,
                conflicts,
            )
        };
    lemma_equal_sequences_have_empty_script(b, b, s1);
    lemma_lines_round_trip(theirs);
}

/// Where their side is the base, the merge is our side as it stands,
/// without a conflict.
pub proof fn law_unchanged_theirs_gives_ours(
    base: Seq<char>,
    ours: Seq<char>,
    style: MergeStyle,
    favor: Option<MergeFavor>,
    algorithm: DiffAlgorithm,
    level: MergeLevel,
    size: int,
    ours_label: Option<Seq<char>>,
    base_label: Option<Seq<char>>,
    theirs_label: Option<Seq<char>>,
    merged: Seq<char>,
    conflicts: int,
)
    requires
        is_merge(
            lines_of(base),
            lines_of(ours),
            lines_of(base),
            style,
            favor,
            algorithm,
        level,
            size,
            ours_label,
            base_label,
            theirs_label,
            merged,
            conflicts,
        ),
    ensures
        merged == ours,
        conflicts == 0,
{
    let b = lines_of(base);
    let o = lines_of(ours);
    let (s1, s2, subs): (Seq<Hunk>, Seq<Hunk>, Seq<Seq<Hunk>>) = choose|
        s1: Seq<Hunk>,
        s2: Seq<Hunk>,
        subs: Seq<Seq<Hunk>>,
    |
        {
            &&& diff_post(b, o, algorithm, s1)
            &&& diff_post(b, b, algorithm, s2)
            &&& #[trigger] merged_by(
                b,
                o,
                b,
                s1,
                s2,
                subs,
                style,
                favor,
                algorithm,
        level,
                size,
                ours_label,
                base_label,
                theirs_label,
                merged,
                conflicts,
            )
        };
    lemma_equal_sequences_have_empty_script(b, b, s2);
    lemma_lines_round_trip(ours);
    if s1.len() == 0 {
        crate::script::lemma_empty_script_means_equal(b, o, s1);
        lemma_lines_round_trip(base);
    }
}

/// A merge never counts fewer than no conflicts, and none at all where a
/// side is favored.
pub proof fn law_conflict_count(
    base: Seq<Seq<char>>,
    ours: Seq<Seq<char>>,
    theirs: Seq<Seq<char>>,
    style: MergeStyle,
    favor: Option<MergeFavor>,
    algorithm: DiffAlgorithm,
    level: MergeLevel,
    size: int,
    ours_label: Option<Seq<char>>,
    base_label: Option<Seq<char>>,
    theirs_label: Option<Seq<char>>,
    merged: Seq<char>,
    conflicts: int,
)
    requires
        is_merge(
            base,
            ours,
            theirs,
            style,
            favor,
            algorithm,
        level,
            size,
            ours_label,
            base_label,
            theirs_label,
            merged,
            conflicts,
        ),
    ensures
        0 <= conflicts,
        favor is Some ==> conflicts == 0,
{
    let (s1, s2, subs): (Seq<Hunk>, Seq<Hunk>, Seq<Seq<Hunk>>) = choose|
        s1: Seq<Hunk>,
        s2: Seq<Hunk>,
        subs: Seq<Seq<Hunk>>,
    |
        {
            &&& diff_post(base, ours, algorithm, s1)
            &&& diff_post(base, theirs, algorithm, s2)
            &&& #[trigger] merged_by(
                base,
                ours,
                theirs,
                s1,
                s2,
                subs,
                style,
                favor,
                algorithm,
        level,
                size,
                ours_label,
                base_label,
                theirs_label,
                merged,
                conflicts,
            )
        };
    if s1.len() != 0 && s2.len() != 0 {
        lemma_conflict_regions_bound(final_regions(base, ours, theirs, s1, s2, subs, style, level));
    }
}

/// To favor a side never adds conflicts: a merge with a favored side
/// counts no more conflicts than any merge of the same texts without one.
pub proof fn law_favor_never_adds_conflicts(
    base: Seq<Seq<char>>,
    ours: Seq<Seq<char>>,
    theirs: Seq<Seq<char>>,
    style: MergeStyle,
    favor: MergeFavor,
    algorithm: DiffAlgorithm,
    level: MergeLevel,
    size: int,
    ours_label: Option<Seq<char>>,
    base_label: Option<Seq<char>>,
    theirs_label: Option<Seq<char>>,
    favored: Seq<char>,
    favored_conflicts: int,
    plain: Seq<char>,
    plain_conflicts: int,
)
    requires
        is_merge(
            base,
            ours,
            theirs,
            style,
            Some(favor),
            algorithm,
        level,
            size,
            ours_label,
            base_label,
            theirs_label,
            favored,
            favored_conflicts,
        ),
        is_merge(
            base,
            ours,
            theirs,
            style,
            None,
            algorithm,
        level,
            size,
            ours_label,
            base_label,
            theirs_label,
            plain,
            plain_conflicts,
        ),
    ensures
        favored_conflicts <= plain_conflicts,
{
    law_conflict_count(
        base,
        ours,
        theirs,
        style,
        Some(favor),
        algorithm,
        level,
        size,
        ours_label,
        base_label,
        theirs_label,
        favored,
        favored_conflicts,
    );
    law_conflict_count(
        base,
        ours,
        theirs,
        style,
        None,
        algorithm,
        level,
        size,
        ours_label,
        base_label,
        theirs_label,
        plain,
        plain_conflicts,
    );
}

/// The merged text shows as many conflicts as the merge counts: it holds
/// three lines that start as marker lines do for every conflict, and so a
/// third of their number is the number of conflicts.
///
/// This holds of sides of which no line starts as a marker line does, nor
/// a line of the base where the base is shown, under markers that stand
/// seven times or more and labels without a line terminator.
pub proof fn law_marker_lines_show_the_conflicts(
    base: Seq<char>,
    ours: Seq<char>,
    theirs: Seq<char>,
    style: MergeStyle,
    favor: Option<MergeFavor>,
    algorithm: DiffAlgorithm,
    level: MergeLevel,
    size: int,
    ours_label: Option<Seq<char>>,
    base_label: Option<Seq<char>>,
    theirs_label: Option<Seq<char>>,
    merged: Seq<char>,
    conflicts: int,
)
    requires
        is_merge(
            lines_of(base),
            lines_of(ours),
            lines_of(theirs),
            style,
            favor,
            algorithm,
            level,
            size,
            ours_label,
            base_label,
            theirs_label,
            merged,
            conflicts,
        ),
        no_marker_lines(lines_of(ours)),
        no_marker_lines(lines_of(theirs)),
        style != MergeStyle::Normal ==> no_marker_lines(lines_of(base)),
        countable_markers(size, ours_label, base_label, theirs_label),
    ensures
        marker_lines(lines_of(merged)) == 3 * conflicts,
        marker_lines(lines_of(merged)) / 3 == conflicts,
{
    let b = lines_of(base);
    let o = lines_of(ours);
    let t = lines_of(theirs);
    let (s1, s2, subs): (Seq<Hunk>, Seq<Hunk>, Seq<Seq<Hunk>>) = choose|
        s1: Seq<Hunk>,
        s2: Seq<Hunk>,
        subs: Seq<Seq<Hunk>>,
    |
        {
            &&& diff_post(b, o, algorithm, s1)
            &&& diff_post(b, t, algorithm, s2)
            &&& #[trigger] merged_by(
                b,
                o,
                t,
                s1,
                s2,
                subs,
                style,
                favor,
                algorithm,
                level,
                size,
                ours_label,
                base_label,
                theirs_label,
                merged,
                conflicts,
            )
        };
    lemma_lines_of_shape(base);
    lemma_lines_of_shape(ours);
    lemma_lines_of_shape(theirs);
    assert(plain_lines(b, o, t, style));
    if s1.len() == 0 {
        lemma_no_marker_lines(t);
        lemma_lines_round_trip(theirs);
    } else if s2.len() == 0 {
        lemma_no_marker_lines(o);
        lemma_lines_round_trip(ours);
    } else {
        let rs = final_regions(b, o, t, s1, s2, subs, style, level);
        lemma_render_count_open(rs, b, o, t, style, favor, size, ours_label, base_label, theirs_label);
    }
}

/// A shortest script is one that no edit script undercuts: whatever
/// script leads from `a` to `b` removes and inserts at least as many
/// elements as the script that the searches `Myers` and `Minimal` give.
pub proof fn law_no_script_is_shorter<T>(a: Seq<T>, b: Seq<T>, shortest: Seq<Hunk>, other: Seq<Hunk>)
    requires
        is_shortest(a, b, shortest),
        script_valid(a, b, other),
    ensures
        script_cost(shortest) <= script_cost(other),
{
    lemma_script_cost_bound(a, b, other);
}

/// The searches `Myers` and `Minimal` agree on what a change costs: their
/// scripts between the same two sequences remove and insert equally many
/// elements.
pub proof fn law_shortest_searches_agree_on_cost<T>(a: Seq<T>, b: Seq<T>, by_myers: Seq<Hunk>, by_minimal: Seq<Hunk>)
    requires
        diff_post(a, b, DiffAlgorithm::Myers, by_myers),
        diff_post(a, b, DiffAlgorithm::Minimal, by_minimal),
    ensures
        script_cost(by_myers) == script_cost(by_minimal),
{
}

/// Which scripts divide the regions that cannot be divided is of no
/// account.
pub proof fn lemma_split_all_same(rs: Seq<Region>, first: Seq<Seq<Hunk>>, second: Seq<Seq<Hunk>>)
    requires
        first.len() == rs.len(),
        second.len() == rs.len(),
        forall|i: int| 0 <= i < rs.len() && refinable(#[trigger] rs[i]) ==> first[i] == second[i],
    ensures
        split_all(rs, first) == split_all(rs, second),
    decreases rs.len(),
{
    if rs.len() > 0 {
        let front = rs.drop_last();
        assert forall|i: int| 0 <= i < front.len() && refinable(#[trigger] front[i]) implies first.drop_last()[i]
            == second.drop_last()[i] by {
            assert(front[i] == rs[i]);
            assert(refinable(rs[i]));
        }
        lemma_split_all_same(front, first.drop_last(), second.drop_last());
        if refinable(rs.last()) {
            assert(refinable(rs[rs.len() - 1]));
        }
    }
}

/// Where nothing is left to choose, the four searches give the same
/// merge: of texts of which none holds a line twice, and in which no line
/// that two of them hold has moved, every merge is the same text with the
/// same number of conflicts, whichever search finds the edit scripts.
pub proof fn law_searches_agree_on_unambiguous_texts(
    base: Seq<Seq<char>>,
    ours: Seq<Seq<char>>,
    theirs: Seq<Seq<char>>,
    style: MergeStyle,
    favor: Option<MergeFavor>,
    level: MergeLevel,
    size: int,
    ours_label: Option<Seq<char>>,
    base_label: Option<Seq<char>>,
    theirs_label: Option<Seq<char>>,
    first_algorithm: DiffAlgorithm,
    first_merged: Seq<char>,
    first_conflicts: int,
    second_algorithm: DiffAlgorithm,
    second_merged: Seq<char>,
    second_conflicts: int,
)
    requires
        unambiguous(base, ours),
        unambiguous(base, theirs),
        unambiguous(ours, theirs),
        is_merge(
            base,
            ours,
            theirs,
            style,
            favor,
            first_algorithm,
            level,
            size,
            ours_label,
            base_label,
            theirs_label,
            first_merged,
            first_conflicts,
        ),
        is_merge(
            base,
            ours,
            theirs,
            style,
            favor,
            second_algorithm,
            level,
            size,
            ours_label,
            base_label,
            theirs_label,
            second_merged,
            second_conflicts,
        ),
    ensures
        first_merged == second_merged,
        first_conflicts == second_conflicts,
{
    let (s1, s2, subs): (Seq<Hunk>, Seq<Hunk>, Seq<Seq<Hunk>>) = choose|
        s1: Seq<Hunk>,
        s2: Seq<Hunk>,
        subs: Seq<Seq<Hunk>>,
    |
        {
            &&& diff_post(base, ours, first_algorithm, s1)
            &&& diff_post(base, theirs, first_algorithm, s2)
            &&& #[trigger] merged_by(
                base,
                ours,
                theirs,
                s1,
                s2,
                subs,
                style,
                favor,
                first_algorithm,
                level,
                size,
                ours_label,
                base_label,
                theirs_label,
                first_merged,
                first_conflicts,
            )
        };
    let (t1, t2, tubs): (Seq<Hunk>, Seq<Hunk>, Seq<Seq<Hunk>>) = choose|
        t1: Seq<Hunk>,
        t2: Seq<Hunk>,
        tubs: Seq<Seq<Hunk>>,
    |
        {
            &&& diff_post(base, ours, second_algorithm, t1)
            &&& diff_post(base, theirs, second_algorithm, t2)
            &&& #[trigger] merged_by(
                base,
                ours,
                theirs,
                t1,
                t2,
                tubs,
                style,
                favor,
                second_algorithm,
                level,
                size,
                ours_label,
                base_label,
                theirs_label,
                second_merged,
                second_conflicts,
            )
        };
    lemma_tight_script_is_unique(base, ours, s1, t1);
    lemma_tight_script_is_unique(base, theirs, s2, t2);
    if s1.len() != 0 && s2.len() != 0 && rediffs(style, level) {
        let rs = plan_of(base, ours, theirs, s1, s2, level);
        assert forall|i: int| 0 <= i < rs.len() && refinable(#[trigger] rs[i]) implies subs[i] == tubs[i] by {
            let r = rs[i];
            assert(r.ours_end() <= ours.len() && r.theirs_end() <= theirs.len());
            lemma_unambiguous_runs(ours, theirs, r.ours_start as int, r.ours_end(), r.theirs_start as int, r.theirs_end());
            lemma_tight_script_is_unique(ours_of(ours, r), theirs_of(theirs, r), subs[i], tubs[i]);
        }
        lemma_split_all_same(rs, subs, tubs);
    }
}

} // verus!
