//! Configuration, result and error types of the merge.

use vstd::prelude::*;

verus! {

/// The search that finds an edit script between two sequences of lines.
#[derive(Debug, Clone, Copy, PartialEq, Eq, Structural)]
pub enum DiffAlgorithm {
    /// The greedy search for a shortest path through the edit graph.
    Myers,
    /// A longest common subsequence from the full table of subproblems.
    Minimal,
    /// Lines that are single on both sides anchor the script.
    Patience,
    /// The rarest line that both sides hold anchors the script.
    Histogram,
}

/// How an unresolved conflict is written into the merged text.
#[derive(Debug, Clone, Copy, PartialEq, Eq, Structural)]
pub enum MergeStyle {
    /// Two bands: our lines and their lines.
    Normal,
    /// Three bands: our lines, the lines of the base, and their lines.
    Diff3,
    /// Three bands, with every conflict divided at the lines on which the
    /// two sides agree.
    ZealousDiff3,
}

/// The side that silently wins a conflict.
#[derive(Debug, Clone, Copy, PartialEq, Eq, Structural)]
pub enum MergeFavor {
    /// Our lines stand for the conflict.
    Ours,
    /// Their lines stand for the conflict.
    Theirs,
    /// Our lines and then their lines stand for the conflict.
    Union,
}

/// How hard the merge tries to make conflicts small.
#[derive(Debug, Clone, Copy, PartialEq, Eq, Structural)]
pub enum MergeLevel {
    /// Changes of both sides to the same lines are conflicts, even where
    /// the two sides made the same change.
    Minimal,
    /// The same change on both sides is no conflict.
    Eager,
    /// Under the style `Normal`, conflicts are also divided at the lines
    /// on which the two sides agree, and conflicts that are at most three
    /// lines apart are joined again.
    Zealous,
    /// As `Zealous`, and lines without a letter or digit do not keep two
    /// conflicts apart either.
    ZealousAlnum,
}

/// Everything a caller can choose about one merge. A value holds no state
/// and can be used for any number of merges.
#[derive(Debug, Clone)]
pub struct MergeOptions {
    pub style: MergeStyle,
    pub favor: Option<MergeFavor>,
    pub algorithm: DiffAlgorithm,
    pub marker_size: usize,
    pub level: MergeLevel,
    pub ancestor_label: Option<String>,
    pub ours_label: Option<String>,
    pub theirs_label: Option<String>,
}

impl Default for MergeOptions {
    fn default() -> (o: Self)
        ensures
            o.style == MergeStyle::Normal,
            o.favor.is_none(),
            o.algorithm == DiffAlgorithm::Myers,
            o.marker_size == 7,
            o.level == MergeLevel::ZealousAlnum,
            o.ancestor_label.is_none(),
            o.ours_label.is_none(),
            o.theirs_label.is_none(),
    {
        MergeOptions {
            style: MergeStyle::Normal,
            favor: None,
            algorithm: DiffAlgorithm::Myers,
            marker_size: 7,
            level: MergeLevel::ZealousAlnum,
            ancestor_label: None,
            ours_label: None,
            theirs_label: None,
        }
    }
}

/// Why a merge gave no result.
#[derive(Debug)]
pub enum MergeError {
    /// An invariant of the engine was broken.
    Internal(String),
    /// The options cannot be used as they are.
    InvalidInput(String),
    /// The inputs are too large to be processed.
    OutOfMemory,
}

/// The outcome of a merge: the merged text and the number of conflicts
/// that were written into it with markers.
#[derive(Debug, Clone)]
pub struct MergeResult {
    pub content: String,
    pub conflicts: usize,
}

impl MergeResult {
    /// True when at least one conflict was written with markers.
    pub fn has_conflicts(&self) -> (b: bool)
        ensures
            b == (self.conflicts > 0),
    {
        self.conflicts > 0
    }

    /// True when the merge went through without any conflict.
    pub fn is_clean_merge(&self) -> (b: bool)
        ensures
            b == (self.conflicts == 0),
    {
        self.conflicts == 0
    }
}

} // verus!
