//! The basic vocabulary of a diff: tags, operations and the selectable algorithm.
use vstd::prelude::*;

verus! {

/// The diffing strategy used by the sequence matcher.
#[derive(Clone, Copy, Debug, PartialEq, Eq, Structural, Hash)]
pub enum Algorithm {
    /// Shortest edit script search over the edit graph.
    Myers,
    /// Anchoring on tokens that occur exactly once on both sides.
    Patience,
}

impl Default for Algorithm {
    fn default() -> (r: Algorithm)
        ensures
            r == Algorithm::Myers,
    {
        Algorithm::Myers
    }
}

/// The kind of a diff operation.
#[derive(Clone, Copy, Debug, PartialEq, Eq, Structural, Hash)]
pub enum DiffTag {
    /// Both sides hold the same tokens.
    Equal,
    /// Tokens present on the old side only.
    Delete,
    /// Tokens present on the new side only.
    Insert,
    /// Old tokens replaced by new tokens.
    Replace,
}

/// One operation of an edit script: a run of old tokens set against a run of new tokens.
#[derive(Clone, Copy, Debug, PartialEq, Eq, Structural, Hash)]
pub enum DiffOp {
    /// `len` tokens are the same on both sides.
    Equal { old_index: usize, new_index: usize, len: usize },
    /// `old_len` old tokens are removed at `new_index`.
    Delete { old_index: usize, old_len: usize, new_index: usize },
    /// `new_len` new tokens are added at `old_index`.
    Insert { old_index: usize, new_index: usize, new_len: usize },
    /// `old_len` old tokens give way to `new_len` new tokens.
    Replace { old_index: usize, old_len: usize, new_index: usize, new_len: usize },
}

impl DiffOp {
    /// The tag of the operation.
    pub open spec fn kind(self) -> DiffTag {
        match self {
            DiffOp::Equal { .. } => DiffTag::Equal,
            DiffOp::Delete { .. } => DiffTag::Delete,
            DiffOp::Insert { .. } => DiffTag::Insert,
            DiffOp::Replace { .. } => DiffTag::Replace,
        }
    }

    /// First old index the operation speaks of.
    pub open spec fn old_start(self) -> int {
        match self {
            DiffOp::Equal { old_index, .. } => old_index as int,
            DiffOp::Delete { old_index, .. } => old_index as int,
            DiffOp::Insert { old_index, .. } => old_index as int,
            DiffOp::Replace { old_index, .. } => old_index as int,
        }
    }

    /// Number of old tokens the operation covers.
    pub open spec fn old_count(self) -> int {
        match self {
            DiffOp::Equal { len, .. } => len as int,
            DiffOp::Delete { old_len, .. } => old_len as int,
            DiffOp::Insert { .. } => 0,
            DiffOp::Replace { old_len, .. } => old_len as int,
        }
    }

    /// First new index the operation speaks of.
    pub open spec fn new_start(self) -> int {
        match self {
            DiffOp::Equal { new_index, .. } => new_index as int,
            DiffOp::Delete { new_index, .. } => new_index as int,
            DiffOp::Insert { new_index, .. } => new_index as int,
            DiffOp::Replace { new_index, .. } => new_index as int,
        }
    }

    /// Number of new tokens the operation covers.
    pub open spec fn new_count(self) -> int {
        match self {
            DiffOp::Equal { len, .. } => len as int,
            DiffOp::Delete { .. } => 0,
            DiffOp::Insert { new_len, .. } => new_len as int,
            DiffOp::Replace { new_len, .. } => new_len as int,
        }
    }

    /// One past the last old index covered.
    pub open spec fn old_end(self) -> int {
        self.old_start() + self.old_count()
    }

    /// One past the last new index covered.
    pub open spec fn new_end(self) -> int {
        self.new_start() + self.new_count()
    }

    /// Number of tokens the operation declares equal.
    pub open spec fn equal_count(self) -> nat {
        match self {
            DiffOp::Equal { len, .. } => len as nat,
            _ => 0,
        }
    }

    /// The operation covers at least one token, on the sides its tag names.
    pub open spec fn shaped(self) -> bool {
        match self {
            DiffOp::Equal { len, .. } => len > 0,
            DiffOp::Delete { old_len, .. } => old_len > 0,
            DiffOp::Insert { new_len, .. } => new_len > 0,
            DiffOp::Replace { old_len, new_len, .. } => old_len > 0 && new_len > 0,
        }
    }

    /// Both ranges end within `usize`.
    pub open spec fn bounded(self) -> bool {
        self.old_end() <= usize::MAX && self.new_end() <= usize::MAX
    }

    /// Returns the tag of the operation.
    pub fn tag(&self) -> (t: DiffTag)
        ensures
            t == self.kind(),
    {
        match self {
            DiffOp::Equal { .. } => DiffTag::Equal,
            DiffOp::Delete { .. } => DiffTag::Delete,
            DiffOp::Insert { .. } => DiffTag::Insert,
            DiffOp::Replace { .. } => DiffTag::Replace,
        }
    }

    /// Returns the old range as `(start, end)`.
    pub fn old_range(&self) -> (r: (usize, usize))
        requires
            self.bounded(),
        ensures
            r.0 == self.old_start(),
            r.1 == self.old_end(),
    {
        match self {
            DiffOp::Equal { old_index, len, .. } => (*old_index, *old_index + *len),
            DiffOp::Delete { old_index, old_len, .. } => (*old_index, *old_index + *old_len),
            DiffOp::Insert { old_index, .. } => (*old_index, *old_index),
            DiffOp::Replace { old_index, old_len, .. } => (*old_index, *old_index + *old_len),
        }
    }

    /// Returns the new range as `(start, end)`.
    pub fn new_range(&self) -> (r: (usize, usize))
        requires
            self.bounded(),
        ensures
            r.0 == self.new_start(),
            r.1 == self.new_end(),
    {
        match self {
            DiffOp::Equal { new_index, len, .. } => (*new_index, *new_index + *len),
            DiffOp::Delete { new_index, .. } => (*new_index, *new_index),
            DiffOp::Insert { new_index, new_len, .. } => (*new_index, *new_index + *new_len),
            DiffOp::Replace { new_index, new_len, .. } => (*new_index, *new_index + *new_len),
        }
    }

    /// Returns the tag with both ranges.
    pub fn as_tag_tuple(&self) -> (r: (DiffTag, (usize, usize), (usize, usize)))
        requires
            self.bounded(),
        ensures
            r.0 == self.kind(),
            r.1.0 == self.old_start(),
            r.1.1 == self.old_end(),
            r.2.0 == self.new_start(),
            r.2.1 == self.new_end(),
    {
        (self.tag(), self.old_range(), self.new_range())
    }
}

} // verus!
