//! Diffing of token sequences and of text: shortest edit scripts, their
//! similarity ratio, hunks with context, unified diffs, refinement of replaced
//! lines by character, and the closest matches of a word.
//!
//! Every function states what it computes, and is verified against that.

pub mod anchors;
pub mod changes;
pub mod close;
pub mod group;
pub mod inline;
pub mod intern;
pub mod lcs;
pub mod linear;
pub mod matcher;
pub mod myers;
pub mod patience;
pub mod ratio;
pub mod script;
pub mod segment;
pub mod text;
pub mod tokenize;
pub mod trace;
pub mod types;
pub mod udiff;

pub use crate::changes::{Change, ChangeTag};
pub use crate::group::group_diff_ops;
pub use crate::inline::InlineChange;
pub use crate::matcher::capture_diff_slices;
pub use crate::ratio::{get_diff_ratio, Ratio};
pub use crate::text::{get_close_matches, TextDiff, TextDiffConfig};
pub use crate::types::{Algorithm, DiffOp, DiffTag};
pub use crate::udiff::UnifiedDiff;
