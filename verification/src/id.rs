//! Opaque identifiers of stored objects.

use crate::model::Model;
use vstd::prelude::*;

verus! {

/// Identifies one immutable commit object.
#[derive(Clone, Copy, Debug, PartialEq, Eq, Structural, Hash, PartialOrd, Ord)]
pub struct CommitId(pub u64);

/// Identifies a logical change across the commits that rewrite one another.
#[derive(Clone, Copy, Debug, PartialEq, Eq, Structural, Hash, PartialOrd, Ord)]
pub struct ChangeId(pub u64);

/// Identifies one stored tree.
#[derive(Clone, Copy, Debug, PartialEq, Eq, Structural, Hash, PartialOrd, Ord)]
pub struct TreeId(pub u64);

/// Identifies one record of the operation log.
#[derive(Clone, Copy, Debug, PartialEq, Eq, Structural, Hash, PartialOrd, Ord)]
pub struct OperationId(pub u64);

/// Identifies one stored snapshot of the repository's references.
#[derive(Clone, Copy, Debug, PartialEq, Eq, Structural, Hash, PartialOrd, Ord)]
pub struct ViewId(pub u64);

impl View for CommitId {
    type V = CommitId;

    open spec fn view(&self) -> CommitId {
        *self
    }
}

impl Model for CommitId {
    open spec fn valid(&self) -> bool {
        true
    }

    fn same(&self, other: &Self) -> (b: bool) {
        self.0 == other.0
    }

    fn dup(&self) -> (r: Self) {
        *self
    }
}

} // verus!
