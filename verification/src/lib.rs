//! Three-way merging of texts, line by line, with every step verified.
//!
//! A merge takes three texts: a base, and two sides that both come from
//! it, ours and theirs. The texts are divided into lines ([`text`]); a
//! diff engine finds an edit script from the base to either side
//! ([`diff`]), by one of four searches ([`myers`], [`minimal`],
//! [`patience`], [`histogram`]); a planner sweeps over the two scripts and
//! divides the texts into regions that neither side, one side or both
//! sides changed ([`plan`]); conflicts are made smaller and joined as the
//! options ask ([`refine`], [`simplify`]); and an emitter writes the merged
//! text, with markers around what is left in conflict ([`emit`]).
//!
//! [`merge_strings`] does all of this for three strings. What holds of
//! every merge is stated, and proved, in [`laws`].

use vstd::prelude::*;

pub mod anchors;
pub mod classify;
pub mod count;
pub mod diff;
pub mod edit_graph;
pub mod emit;
pub mod histogram;
pub mod intern;
pub mod laws;
pub mod lcs;
pub mod maximal;
pub mod merge;
pub mod minimal;
pub mod myers;
pub mod patience;
pub mod plan;
pub mod refine;
pub mod region;
pub mod script;
pub mod simplify;
pub mod spacing;
pub mod strings;
pub mod text;
pub mod types;
pub mod unique;

pub use merge::{count_conflicts, merge_strings};
pub use types::{DiffAlgorithm, MergeError, MergeFavor, MergeLevel, MergeOptions, MergeResult, MergeStyle};
