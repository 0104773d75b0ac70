//! Targets of named references.
//!
//! A target is a small merge: no commit (absent), one commit (normal), or several
//! commits among which nobody has chosen yet (a conflict). A conflict is data, never an
//! error.

use crate::id::CommitId;
use crate::idlist::{append_unique, copy_ids, extend_unique, ids_equal, lemma_append_unique};
use crate::model::Model;
use vstd::prelude::*;

verus! {

/// What a named reference points at.
#[derive(Clone, Debug, PartialEq, Eq)]
pub struct RefTarget {
    ids: Vec<CommitId>,
}

impl View for RefTarget {
    type V = Seq<CommitId>;

    closed spec fn view(&self) -> Seq<CommitId> {
        self.ids@
    }
}

impl RefTarget {
    /// The target that points at nothing.
    pub fn absent() -> (t: RefTarget)
        ensures
            t@ == Seq::<CommitId>::empty(),
            t.valid(),
    {
        RefTarget { ids: Vec::new() }
    }

    /// The target that points at exactly one commit.
    pub fn normal(id: CommitId) -> (t: RefTarget)
        ensures
            t@ == seq![id],
            t.valid(),
    {
        let mut ids: Vec<CommitId> = Vec::new();
        ids.push(id);
        proof {
            assert(ids@ =~= seq![id]);
        }
        RefTarget { ids }
    }

    /// The target that points at the given commits, each once, in their order.
    pub fn from_ids(ids: &Vec<CommitId>) -> (t: RefTarget)
        ensures
            t@ == append_unique(Seq::<CommitId>::empty(), ids@),
            t.valid(),
    {
        let mut out: Vec<CommitId> = Vec::new();
        extend_unique(&mut out, ids);
        proof {
            lemma_append_unique(Seq::<CommitId>::empty(), ids@);
        }
        RefTarget { ids: out }
    }

    /// The target that points at the commits of a list without repetition.
    pub fn from_unique(ids: Vec<CommitId>) -> (t: RefTarget)
        requires
            ids@.no_duplicates(),
        ensures
            t@ == ids@,
            t.valid(),
    {
        RefTarget { ids }
    }

    /// Whether the target points at nothing.
    pub fn is_absent(&self) -> (b: bool)
        ensures
            b == (self@.len() == 0),
    {
        self.ids.len() == 0
    }

    /// Whether the target points at something.
    pub fn is_present(&self) -> (b: bool)
        ensures
            b == (self@.len() > 0),
    {
        self.ids.len() > 0
    }

    /// Whether the target is an unresolved choice among several commits.
    pub fn has_conflict(&self) -> (b: bool)
        ensures
            b == (self@.len() > 1),
    {
        self.ids.len() > 1
    }

    /// The one commit that the target points at, if it is exactly one.
    pub fn as_normal(&self) -> (r: Option<CommitId>)
        ensures
            r == (if self@.len() == 1 {
                Some(self@[0])
            } else {
                None
            }),
    {
        if self.ids.len() == 1 {
            Some(self.ids[0])
        } else {
            None
        }
    }

    /// The commits that the target points at.
    pub fn added_ids(&self) -> (ids: &Vec<CommitId>)
        ensures
            ids@ == self@,
    {
        &self.ids
    }
}

impl Model for RefTarget {
    closed spec fn valid(&self) -> bool {
        self.ids@.no_duplicates()
    }

    fn same(&self, other: &Self) -> (b: bool) {
        ids_equal(&self.ids, &other.ids)
    }

    fn dup(&self) -> (r: Self) {
        RefTarget { ids: copy_ids(&self.ids) }
    }
}

/// Whether a remote reference is followed by a local one.
#[derive(Clone, Copy, Debug, PartialEq, Eq, Structural)]
pub enum RemoteRefState {
    /// Seen on the remote, not followed.
    New,
    /// Followed by the local reference of the same name.
    Tracking,
}

/// A reference as last seen on a remote.
#[derive(Clone, Debug, PartialEq, Eq)]
pub struct RemoteRef {
    pub target: RefTarget,
    pub state: RemoteRefState,
}

/// The model of a [`RemoteRef`].
pub struct RemoteRefModel {
    pub target: Seq<CommitId>,
    pub state: RemoteRefState,
}

impl View for RemoteRef {
    type V = RemoteRefModel;

    open spec fn view(&self) -> RemoteRefModel {
        RemoteRefModel { target: self.target@, state: self.state }
    }
}

impl RemoteRef {
    /// The remote reference that points at nothing.
    pub fn absent() -> (r: RemoteRef)
        ensures
            r@ == Self::absent_model(),
            r.valid(),
    {
        RemoteRef { target: RefTarget::absent(), state: RemoteRefState::New }
    }

    /// The model of the absent remote reference.
    pub open spec fn absent_model() -> RemoteRefModel {
        RemoteRefModel { target: Seq::<CommitId>::empty(), state: RemoteRefState::New }
    }

    /// Whether the reference points at nothing.
    pub fn is_absent(&self) -> (b: bool)
        ensures
            b == (self@.target.len() == 0),
    {
        self.target.is_absent()
    }

    /// Whether the reference points at something.
    pub fn is_present(&self) -> (b: bool)
        ensures
            b == (self@.target.len() > 0),
    {
        self.target.is_present()
    }

    /// Whether a local reference follows this one.
    pub fn is_tracking(&self) -> (b: bool)
        ensures
            b == (self@.state == RemoteRefState::Tracking),
    {
        match self.state {
            RemoteRefState::Tracking => true,
            RemoteRefState::New => false,
        }
    }
}

impl Model for RemoteRef {
    open spec fn valid(&self) -> bool {
        self.target.valid()
    }

    fn same(&self, other: &Self) -> (b: bool) {
        let b = self.target.same(&other.target) && self.state == other.state;
        b
    }

    fn dup(&self) -> (r: Self) {
        RemoteRef { target: self.target.dup(), state: self.state }
    }
}

/// The name of a workspace.
#[derive(Clone, Debug, PartialEq, Eq, Hash)]
pub struct WorkspaceId {
    name: String,
}

impl View for WorkspaceId {
    type V = Seq<char>;

    closed spec fn view(&self) -> Seq<char> {
        self.name@
    }
}

impl WorkspaceId {
    /// The workspace with the given name.
    pub fn new(name: String) -> (w: WorkspaceId)
        ensures
            w@ == name@,
    {
        WorkspaceId { name }
    }

    /// The workspace that a repository starts with, named `default`.
    pub fn default() -> (w: WorkspaceId)
        ensures
            w@ == "default"@,
    {
        WorkspaceId { name: "default".to_owned() }
    }

    /// The name of the workspace.
    pub fn as_str(&self) -> (s: &str)
        ensures
            s@ == self@,
    {
        self.name.as_str()
    }
}

impl Model for WorkspaceId {
    open spec fn valid(&self) -> bool {
        true
    }

    fn same(&self, other: &Self) -> (b: bool) {
        self.name == other.name
    }

    fn dup(&self) -> (r: Self) {
        WorkspaceId { name: self.name.clone() }
    }
}

} // verus!
