//! Snapshots of the repository's references, records of the operation log, and the store
//! that holds both under content-derived ids.

use crate::assoc::AssocMap;
use crate::backend::{StoreError, Timestamp};
use crate::id::{CommitId, OperationId, ViewId};
use crate::idlist::{
    contains_id, copy_ids, lemma_push_unique, lemma_remove_all, push_unique, push_unique_id,
    remove_all, same_id_set, without_id,
};
use crate::model::Model;
use crate::refs::{RefTarget, RemoteRef, RemoteRefModel, WorkspaceId};
use vstd::prelude::*;

verus! {

/// The model of a snapshot: visible heads, working-copy commits and named references.
pub struct ViewModel {
    pub heads: Set<CommitId>,
    pub wc_commits: Map<Seq<char>, CommitId>,
    pub local_bookmarks: Map<Seq<char>, Seq<CommitId>>,
    pub tags: Map<Seq<char>, Seq<CommitId>>,
    /// For each remote, the references last seen there.
    pub remotes: Map<Seq<char>, Map<Seq<char>, RemoteRefModel>>,
}

impl ViewModel {
    /// The snapshot without heads and references.
    pub open spec fn empty() -> ViewModel {
        ViewModel {
            heads: Set::empty(),
            wc_commits: Map::empty(),
            local_bookmarks: Map::empty(),
            tags: Map::empty(),
            remotes: Map::empty(),
        }
    }

    /// No absent target and no remote without references is kept: absence has one
    /// representation.
    pub open spec fn canonical(self) -> bool {
        &&& forall|n: Seq<char>| #[trigger]
            self.local_bookmarks.contains_key(n) ==> self.local_bookmarks[n].len() > 0
        &&& forall|n: Seq<char>| #[trigger] self.tags.contains_key(n) ==> self.tags[n].len() > 0
        &&& forall|r: Seq<char>| #[trigger]
            self.remotes.contains_key(r) ==> self.remotes[r] != Map::<
                Seq<char>,
                RemoteRefModel,
            >::empty()
        &&& forall|r: Seq<char>, n: Seq<char>|
            self.remotes.contains_key(r) && #[trigger] self.remotes[r].contains_key(n)
                ==> self.remotes[r][n].target.len() > 0
    }

    /// Whether a snapshot is canonical depends on its named references alone.
    pub proof fn lemma_canonical_frame(self, other: ViewModel)
        requires
            self.canonical(),
            self.local_bookmarks == other.local_bookmarks,
            self.tags == other.tags,
            self.remotes == other.remotes,
        ensures
            other.canonical(),
    {
    }

    /// Binding a name keeps a snapshot canonical.
    pub proof fn lemma_canonical_bind(self, name: Seq<char>, target: Seq<CommitId>)
        requires
            self.canonical(),
        ensures
            self.with_local_bookmark(name, target).canonical(),
            self.with_tag(name, target).canonical(),
    {
    }

    /// Recording a remote bookmark keeps a snapshot canonical.
    pub proof fn lemma_canonical_remote(
        self,
        name: Seq<char>,
        remote: Seq<char>,
        new_ref: RemoteRefModel,
    )
        requires
            self.canonical(),
        ensures
            self.with_remote_bookmark(name, remote, new_ref).canonical(),
    {
        let next = self.with_remote_bookmark(name, remote, new_ref);
        let before = self.remote_view(remote);
        let after = if new_ref.target.len() == 0 {
            before.remove(name)
        } else {
            before.insert(name, new_ref)
        };
        assert forall|r: Seq<char>, n: Seq<char>|
            next.remotes.contains_key(r) && #[trigger] next.remotes[r].contains_key(
                n,
            ) implies next.remotes[r][n].target.len() > 0 by {
            if r == remote {
                assert(next.remotes[r] == after);
                if n != name {
                    assert(before.contains_key(n));
                    assert(self.remotes.contains_key(remote));
                    assert(self.remotes[remote].contains_key(n));
                }
            } else {
                assert(self.remotes.contains_key(r));
                assert(self.remotes[r].contains_key(n));
            }
        }
        assert forall|r: Seq<char>| #[trigger] next.remotes.contains_key(r) implies next.remotes[r]
            != Map::<Seq<char>, RemoteRefModel>::empty() by {
            if r != remote {
                assert(self.remotes.contains_key(r));
            }
        }
    }

    /// Renaming a remote keeps a snapshot canonical.
    pub proof fn lemma_canonical_rename(self, old_name: Seq<char>, new_name: Seq<char>)
        requires
            self.canonical(),
        ensures
            self.with_remote_renamed(old_name, new_name).canonical(),
    {
        let next = self.with_remote_renamed(old_name, new_name);
        if self.remotes.contains_key(old_name) {
            assert forall|r: Seq<char>, n: Seq<char>|
                next.remotes.contains_key(r) && #[trigger] next.remotes[r].contains_key(
                    n,
                ) implies next.remotes[r][n].target.len() > 0 by {
                if r == new_name {
                    assert(self.remotes[old_name].contains_key(n));
                } else {
                    assert(self.remotes.contains_key(r));
                    assert(self.remotes[r].contains_key(n));
                }
            }
            assert forall|r: Seq<char>| #[trigger] next.remotes.contains_key(
                r,
            ) implies next.remotes[r] != Map::<Seq<char>, RemoteRefModel>::empty() by {
                if r != new_name {
                    assert(self.remotes.contains_key(r));
                }
            }
        }
    }

    /// The snapshot with the id among its heads.
    pub open spec fn with_head(self, id: CommitId) -> ViewModel {
        ViewModel { heads: self.heads.insert(id), ..self }
    }

    /// The snapshot without the id among its heads.
    pub open spec fn without_head(self, id: CommitId) -> ViewModel {
        ViewModel { heads: self.heads.remove(id), ..self }
    }

    /// The snapshot with the given heads.
    pub open spec fn with_heads(self, heads: Set<CommitId>) -> ViewModel {
        ViewModel { heads, ..self }
    }

    /// The snapshot with the workspace's working copy at the commit.
    pub open spec fn with_wc_commit(self, workspace: Seq<char>, id: CommitId) -> ViewModel {
        ViewModel { wc_commits: self.wc_commits.insert(workspace, id), ..self }
    }

    /// The snapshot without a working copy for the workspace.
    pub open spec fn without_wc_commit(self, workspace: Seq<char>) -> ViewModel {
        ViewModel { wc_commits: self.wc_commits.remove(workspace), ..self }
    }

    /// A map of targets with `name` bound to `target`, or unbound if the target is absent.
    pub open spec fn bind(
        map: Map<Seq<char>, Seq<CommitId>>,
        name: Seq<char>,
        target: Seq<CommitId>,
    ) -> Map<Seq<char>, Seq<CommitId>> {
        if target.len() == 0 {
            map.remove(name)
        } else {
            map.insert(name, target)
        }
    }

    /// The target bound to `name`, absent if there is none.
    pub open spec fn lookup(map: Map<Seq<char>, Seq<CommitId>>, name: Seq<char>) -> Seq<CommitId> {
        if map.contains_key(name) {
            map[name]
        } else {
            Seq::empty()
        }
    }

    /// The target of a local bookmark.
    pub open spec fn local_bookmark(self, name: Seq<char>) -> Seq<CommitId> {
        Self::lookup(self.local_bookmarks, name)
    }

    /// The snapshot with the local bookmark at the target.
    pub open spec fn with_local_bookmark(self, name: Seq<char>, target: Seq<CommitId>) -> ViewModel {
        ViewModel { local_bookmarks: Self::bind(self.local_bookmarks, name, target), ..self }
    }

    /// The target of a tag.
    pub open spec fn tag(self, name: Seq<char>) -> Seq<CommitId> {
        Self::lookup(self.tags, name)
    }

    /// The snapshot with the tag at the target.
    pub open spec fn with_tag(self, name: Seq<char>, target: Seq<CommitId>) -> ViewModel {
        ViewModel { tags: Self::bind(self.tags, name, target), ..self }
    }

    /// The references last seen on a remote.
    pub open spec fn remote_view(self, remote: Seq<char>) -> Map<Seq<char>, RemoteRefModel> {
        if self.remotes.contains_key(remote) {
            self.remotes[remote]
        } else {
            Map::empty()
        }
    }

    /// The bookmark as last seen on the remote, absent if it was not.
    pub open spec fn remote_bookmark(self, name: Seq<char>, remote: Seq<char>) -> RemoteRefModel {
        if self.remote_view(remote).contains_key(name) {
            self.remote_view(remote)[name]
        } else {
            RemoteRef::absent_model()
        }
    }

    /// The snapshot with the bookmark of the remote at the given reference.
    pub open spec fn with_remote_bookmark(
        self,
        name: Seq<char>,
        remote: Seq<char>,
        new_ref: RemoteRefModel,
    ) -> ViewModel {
        let before = self.remote_view(remote);
        let after = if new_ref.target.len() == 0 {
            before.remove(name)
        } else {
            before.insert(name, new_ref)
        };
        let remotes = if after == Map::<Seq<char>, RemoteRefModel>::empty() {
            self.remotes.remove(remote)
        } else {
            self.remotes.insert(remote, after)
        };
        ViewModel { remotes, ..self }
    }

    /// The snapshot with everything seen on `old_name` moved under `new_name`.
    pub open spec fn with_remote_renamed(self, old_name: Seq<char>, new_name: Seq<char>) -> ViewModel {
        if self.remotes.contains_key(old_name) {
            ViewModel {
                remotes: self.remotes.remove(old_name).insert(new_name, self.remotes[old_name]),
                ..self
            }
        } else {
            self
        }
    }
}

/// A snapshot of the repository's references.
pub struct ViewData {
    head_ids: Vec<CommitId>,
    wc_commit_ids: AssocMap<WorkspaceId, CommitId>,
    local_bookmarks: AssocMap<String, RefTarget>,
    tags: AssocMap<String, RefTarget>,
    remote_views: AssocMap<String, AssocMap<String, RemoteRef>>,
}

impl View for ViewData {
    type V = ViewModel;

    closed spec fn view(&self) -> ViewModel {
        ViewModel {
            heads: self.head_ids@.to_set(),
            wc_commits: self.wc_commit_ids@,
            local_bookmarks: self.local_bookmarks@,
            tags: self.tags@,
            remotes: self.remote_views@,
        }
    }
}

impl ViewData {
    /// The representation invariant: no head is listed twice, the maps are well formed,
    /// and absence has one representation.
    pub closed spec fn wf(&self) -> bool {
        &&& self.head_ids@.no_duplicates()
        &&& self.wc_commit_ids.wf()
        &&& self.local_bookmarks.wf()
        &&& self.tags.wf()
        &&& self.remote_views.wf()
        &&& self@.canonical()
    }

    /// A well-formed snapshot is canonical.
    pub proof fn lemma_canonical(&self)
        requires
            self.wf(),
        ensures
            self@.canonical(),
    {
    }

    /// The snapshot without heads and references.
    pub fn new() -> (v: ViewData)
        ensures
            v.wf(),
            v@ == ViewModel::empty(),
    {
        let v = ViewData {
            head_ids: Vec::new(),
            wc_commit_ids: AssocMap::new(),
            local_bookmarks: AssocMap::new(),
            tags: AssocMap::new(),
            remote_views: AssocMap::new(),
        };
        proof {
            assert(v.head_ids@.to_set() =~= Set::<CommitId>::empty());
        }
        v
    }

    /// The visible heads, each once.
    pub fn heads(&self) -> (heads: &Vec<CommitId>)
        requires
            self.wf(),
        ensures
            heads@.to_set() == self@.heads,
            heads@.no_duplicates(),
    {
        &self.head_ids
    }

    /// Whether the id is a visible head.
    pub fn has_head(&self, id: CommitId) -> (b: bool)
        requires
            self.wf(),
        ensures
            b == self@.heads.contains(id),
    {
        contains_id(&self.head_ids, id)
    }

    /// Makes the id a head.
    pub fn add_head(&mut self, id: CommitId)
        requires
            old(self).wf(),
        ensures
            final(self).wf(),
            final(self)@ == old(self)@.with_head(id),
    {
        push_unique_id(&mut self.head_ids, id);
        proof {
            lemma_push_unique(old(self).head_ids@, id);
            assert(self.head_ids@.to_set() =~= old(self).head_ids@.to_set().insert(id));
            old(self)@.lemma_canonical_frame(self@);
        }
    }

    /// Removes the id from the heads.
    pub fn remove_head(&mut self, id: CommitId)
        requires
            old(self).wf(),
        ensures
            final(self).wf(),
            final(self)@ == old(self)@.without_head(id),
    {
        self.head_ids = without_id(&self.head_ids, id);
        proof {
            lemma_remove_all(old(self).head_ids@, id);
            assert(self.head_ids@.to_set() =~= old(self).head_ids@.to_set().remove(id));
            old(self)@.lemma_canonical_frame(self@);
        }
    }

    /// Replaces the heads by the ids of the list.
    pub fn set_heads(&mut self, ids: &Vec<CommitId>)
        requires
            old(self).wf(),
            ids@.no_duplicates(),
        ensures
            final(self).wf(),
            final(self)@ == old(self)@.with_heads(ids@.to_set()),
    {
        self.head_ids = copy_ids(ids);
        proof {
            old(self)@.lemma_canonical_frame(self@);
        }
    }

    /// The working-copy commits, by workspace.
    pub fn wc_commit_ids(&self) -> (map: &AssocMap<WorkspaceId, CommitId>)
        requires
            self.wf(),
        ensures
            map.wf(),
            map@ == self@.wc_commits,
    {
        &self.wc_commit_ids
    }

    /// The working-copy commit of the workspace.
    pub fn get_wc_commit_id(&self, workspace: &WorkspaceId) -> (r: Option<CommitId>)
        requires
            self.wf(),
        ensures
            r == (if self@.wc_commits.contains_key(workspace@) {
                Some(self@.wc_commits[workspace@])
            } else {
                None
            }),
    {
        match self.wc_commit_ids.get(workspace) {
            Some(id) => Some(*id),
            None => None,
        }
    }

    /// Points the working copy of the workspace at the commit.
    pub fn set_wc_commit(&mut self, workspace: WorkspaceId, id: CommitId)
        requires
            old(self).wf(),
        ensures
            final(self).wf(),
            final(self)@ == old(self)@.with_wc_commit(workspace@, id),
    {
        self.wc_commit_ids.insert(workspace, id);
        proof {
            old(self)@.lemma_canonical_frame(self@);
        }
    }

    /// Forgets the working copy of the workspace.
    pub fn remove_wc_commit(&mut self, workspace: &WorkspaceId)
        requires
            old(self).wf(),
        ensures
            final(self).wf(),
            final(self)@ == old(self)@.without_wc_commit(workspace@),
    {
        self.wc_commit_ids.remove(workspace);
        proof {
            old(self)@.lemma_canonical_frame(self@);
        }
    }

    /// The local bookmarks, by name.
    pub fn local_bookmarks(&self) -> (map: &AssocMap<String, RefTarget>)
        requires
            self.wf(),
        ensures
            map.wf(),
            map@ == self@.local_bookmarks,
    {
        &self.local_bookmarks
    }

    /// The target of the local bookmark, absent if there is none.
    pub fn get_local_bookmark(&self, name: &str) -> (t: RefTarget)
        requires
            self.wf(),
        ensures
            t@ == self@.local_bookmark(name@),
            t.valid(),
    {
        let key = name.to_owned();
        match self.local_bookmarks.get(&key) {
            Some(t) => t.dup(),
            None => RefTarget::absent(),
        }
    }

    /// Points the local bookmark at the target; an absent target removes the bookmark.
    pub fn set_local_bookmark_target(&mut self, name: &str, target: RefTarget)
        requires
            old(self).wf(),
            target.valid(),
        ensures
            final(self).wf(),
            final(self)@ == old(self)@.with_local_bookmark(name@, target@),
    {
        let key = name.to_owned();
        if target.is_absent() {
            self.local_bookmarks.remove(&key);
        } else {
            self.local_bookmarks.insert(key, target);
        }
        proof {
            old(self)@.lemma_canonical_bind(name@, target@);
            assert(self@ == old(self)@.with_local_bookmark(name@, target@));
        }
    }

    /// The tags, by name.
    pub fn tags(&self) -> (map: &AssocMap<String, RefTarget>)
        requires
            self.wf(),
        ensures
            map.wf(),
            map@ == self@.tags,
    {
        &self.tags
    }

    /// The target of the tag, absent if there is none.
    pub fn get_tag(&self, name: &str) -> (t: RefTarget)
        requires
            self.wf(),
        ensures
            t@ == self@.tag(name@),
            t.valid(),
    {
        let key = name.to_owned();
        match self.tags.get(&key) {
            Some(t) => t.dup(),
            None => RefTarget::absent(),
        }
    }

    /// Points the tag at the target; an absent target removes the tag.
    pub fn set_tag_target(&mut self, name: &str, target: RefTarget)
        requires
            old(self).wf(),
            target.valid(),
        ensures
            final(self).wf(),
            final(self)@ == old(self)@.with_tag(name@, target@),
    {
        let key = name.to_owned();
        if target.is_absent() {
            self.tags.remove(&key);
        } else {
            self.tags.insert(key, target);
        }
        proof {
            old(self)@.lemma_canonical_bind(name@, target@);
            assert(self@ == old(self)@.with_tag(name@, target@));
        }
    }

    /// The bookmark as last seen on the remote, absent if it was not.
    pub fn get_remote_bookmark(&self, name: &str, remote: &str) -> (r: RemoteRef)
        requires
            self.wf(),
        ensures
            r@ == self@.remote_bookmark(name@, remote@),
            r.valid(),
    {
        let remote_key = remote.to_owned();
        let name_key = name.to_owned();
        match self.remote_views.get(&remote_key) {
            Some(refs) => match refs.get(&name_key) {
                Some(r) => r.dup(),
                None => RemoteRef::absent(),
            },
            None => RemoteRef::absent(),
        }
    }

    /// Records the bookmark as seen on the remote; an absent reference removes the record.
    pub fn set_remote_bookmark(&mut self, name: &str, remote: &str, new_ref: RemoteRef)
        requires
            old(self).wf(),
            new_ref.valid(),
        ensures
            final(self).wf(),
            final(self)@ == old(self)@.with_remote_bookmark(name@, remote@, new_ref@),
    {
        let remote_key = remote.to_owned();
        let name_key = name.to_owned();
        let ghost before = old(self)@.remote_view(remote@);
        let mut refs = match self.remote_views.take(&remote_key) {
            Some(refs) => refs,
            None => AssocMap::new(),
        };
        assert(refs@ == before);
        if new_ref.is_absent() {
            refs.remove(&name_key);
        } else {
            refs.insert(name_key, new_ref);
        }
        if refs.is_empty() {
            proof {
                assert(self.remote_views@ =~= old(self)@.remotes.remove(remote@));
            }
        } else {
            self.remote_views.insert(remote_key, refs);
            proof {
                assert(self.remote_views@ =~= old(self)@.remotes.insert(remote@, refs@));
            }
        }
        proof {
            old(self)@.lemma_canonical_remote(name@, remote@, new_ref@);
            assert(self@ == old(self)@.with_remote_bookmark(name@, remote@, new_ref@));
        }
    }

    /// Moves everything seen on one remote under another name; the old name is left
    /// without references.
    pub fn rename_remote(&mut self, old_name: &str, new_name: &str)
        requires
            old(self).wf(),
        ensures
            final(self).wf(),
            final(self)@ == old(self)@.with_remote_renamed(old_name@, new_name@),
    {
        let old_key = old_name.to_owned();
        let new_key = new_name.to_owned();
        match self.remote_views.take(&old_key) {
            Some(refs) => {
                self.remote_views.insert(new_key, refs);
            },
            None => {
                proof {
                    assert(self.remote_views@ =~= old(self)@.remotes);
                }
            },
        }
        proof {
            old(self)@.lemma_canonical_rename(old_name@, new_name@);
            assert(self@ == old(self)@.with_remote_renamed(old_name@, new_name@));
        }
    }

    /// Replaces the local bookmarks by the given ones, none of which is absent.
    pub fn set_local_bookmarks(&mut self, bookmarks: AssocMap<String, RefTarget>)
        requires
            old(self).wf(),
            bookmarks.wf(),
            forall|n: Seq<char>| #[trigger] bookmarks@.contains_key(n) ==> bookmarks@[n].len() > 0,
        ensures
            final(self).wf(),
            final(self)@ == (ViewModel { local_bookmarks: bookmarks@, ..old(self)@ }),
    {
        self.local_bookmarks = bookmarks;
        proof {
            let next = ViewModel { local_bookmarks: bookmarks@, ..old(self)@ };
            assert(self@ == next);
            assert(old(self)@.canonical());
            assert(next.canonical());
        }
    }

    /// Replaces the working-copy commits by the given ones.
    pub fn set_wc_commit_ids(&mut self, wc_commit_ids: AssocMap<WorkspaceId, CommitId>)
        requires
            old(self).wf(),
            wc_commit_ids.wf(),
        ensures
            final(self).wf(),
            final(self)@ == (ViewModel { wc_commits: wc_commit_ids@, ..old(self)@ }),
    {
        self.wc_commit_ids = wc_commit_ids;
        proof {
            old(self)@.lemma_canonical_frame(self@);
        }
    }
}

impl Model for ViewData {
    open spec fn valid(&self) -> bool {
        self.wf()
    }

    fn same(&self, other: &Self) -> (b: bool) {
        let b = same_id_set(&self.head_ids, &other.head_ids) && self.wc_commit_ids.same(
            &other.wc_commit_ids,
        ) && self.local_bookmarks.same(&other.local_bookmarks) && self.tags.same(&other.tags)
            && self.remote_views.same(&other.remote_views);
        b
    }

    fn dup(&self) -> (r: Self) {
        let r = ViewData {
            head_ids: copy_ids(&self.head_ids),
            wc_commit_ids: self.wc_commit_ids.dup(),
            local_bookmarks: self.local_bookmarks.dup(),
            tags: self.tags.dup(),
            remote_views: self.remote_views.dup(),
        };
        proof {
            self@.lemma_canonical_frame(r@);
        }
        r
    }
}

/// What is recorded about an operation besides the state it led to.
#[derive(Debug)]
pub struct OperationMetadata {
    pub description: String,
    pub timestamp: Timestamp,
    pub actor: String,
}

/// One record of the operation log.
#[derive(Debug)]
pub struct OperationData {
    pub view_id: ViewId,
    pub parents: Vec<OperationId>,
    pub metadata: OperationMetadata,
}

/// The model of an [`OperationData`].
pub struct OperationModel {
    pub view_id: ViewId,
    pub parents: Seq<OperationId>,
    pub description: Seq<char>,
    pub timestamp: Timestamp,
    pub actor: Seq<char>,
}

impl View for OperationData {
    type V = OperationModel;

    open spec fn view(&self) -> OperationModel {
        OperationModel {
            view_id: self.view_id,
            parents: self.parents@,
            description: self.metadata.description@,
            timestamp: self.metadata.timestamp,
            actor: self.metadata.actor@,
        }
    }
}

/// A copy of a list of operation ids.
pub fn copy_operation_ids(v: &Vec<OperationId>) -> (r: Vec<OperationId>)
    ensures
        r@ == v@,
{
    let mut r: Vec<OperationId> = Vec::new();
    let mut i: usize = 0;
    while i < v.len()
        invariant
            i <= v@.len(),
            r@ == v@.take(i as int),
        decreases v@.len() - i,
    {
        r.push(v[i]);
        proof {
            assert(v@.take(i + 1) =~= v@.take(i as int).push(v@[i as int]));
        }
        i += 1;
    }
    proof {
        assert(v@.take(v@.len() as int) =~= v@);
    }
    r
}

/// Whether both lists hold the same operation ids in the same order.
pub fn operation_ids_equal(a: &Vec<OperationId>, b: &Vec<OperationId>) -> (r: bool)
    ensures
        r == (a@ == b@),
{
    if a.len() != b.len() {
        return false;
    }
    let mut i: usize = 0;
    while i < a.len()
        invariant
            i <= a@.len(),
            a@.len() == b@.len(),
            forall|j: int| 0 <= j < i ==> a@[j] == b@[j],
        decreases a@.len() - i,
    {
        if a[i] != b[i] {
            return false;
        }
        i += 1;
    }
    proof {
        assert(a@ =~= b@);
    }
    true
}

impl Model for OperationData {
    open spec fn valid(&self) -> bool {
        true
    }

    fn same(&self, other: &Self) -> (b: bool) {
        let b = self.view_id == other.view_id && operation_ids_equal(&self.parents, &other.parents)
            && self.metadata.description == other.metadata.description && self.metadata.timestamp
            == other.metadata.timestamp && self.metadata.actor == other.metadata.actor;
        b
    }

    fn dup(&self) -> (r: Self) {
        OperationData {
            view_id: self.view_id,
            parents: copy_operation_ids(&self.parents),
            metadata: OperationMetadata {
                description: self.metadata.description.clone(),
                timestamp: self.metadata.timestamp,
                actor: self.metadata.actor.clone(),
            },
        }
    }
}

/// The model of an [`OpStore`]: operations and views, each found by its id as a position.
pub struct OpStoreModel {
    pub operations: Seq<OperationModel>,
    pub views: Seq<ViewModel>,
}

impl OpStoreModel {
    /// Whether a view is stored under the id.
    pub open spec fn has_view(self, id: ViewId) -> bool {
        id.0 < self.views.len()
    }

    /// The view stored under the id.
    pub open spec fn view_at(self, id: ViewId) -> ViewModel {
        self.views[id.0 as int]
    }

    /// Whether an operation is stored under the id.
    pub open spec fn has_operation(self, id: OperationId) -> bool {
        id.0 < self.operations.len()
    }

    /// The operation stored under the id.
    pub open spec fn operation_at(self, id: OperationId) -> OperationModel {
        self.operations[id.0 as int]
    }

    /// The store that holds the root operation, which leads to the view whose only head is
    /// the root commit, and nothing else.
    pub open spec fn initial() -> OpStoreModel {
        OpStoreModel {
            operations: seq![
                OperationModel {
                    view_id: ViewId(0),
                    parents: Seq::empty(),
                    description: Seq::empty(),
                    timestamp: Timestamp { millis_since_epoch: 0, tz_offset: 0 },
                    actor: Seq::empty(),
                },
            ],
            views: seq![ViewModel::empty().with_head(CommitId(0))],
        }
    }

    /// Nothing is stored twice, so that equal content has one id, and the root operation
    /// is first.
    pub open spec fn wf(self) -> bool {
        &&& self.operations.len() >= 1
        &&& self.views.len() >= 1
        &&& forall|i: int, j: int|
            0 <= i < j < self.views.len() ==> #[trigger] self.views[i] != #[trigger] self.views[j]
        &&& forall|i: int, j: int|
            0 <= i < j < self.operations.len() ==> #[trigger] self.operations[i]
                != #[trigger] self.operations[j]
    }

    /// Whether the view is stored.
    pub open spec fn holds_view(self, view: ViewModel) -> bool {
        exists|i: int| 0 <= i < self.views.len() && #[trigger] self.views[i] == view
    }

    /// The id under which the view is stored, or the next free id.
    pub open spec fn view_id_of(self, view: ViewModel) -> ViewId {
        if self.holds_view(view) {
            ViewId((choose|i: int| 0 <= i < self.views.len() && #[trigger] self.views[i] == view) as u64)
        } else {
            ViewId(self.views.len() as u64)
        }
    }

    /// The store after the view has been written.
    pub open spec fn with_view(self, view: ViewModel) -> OpStoreModel {
        if self.holds_view(view) {
            self
        } else {
            OpStoreModel { views: self.views.push(view), ..self }
        }
    }

    /// Whether the operation is stored.
    pub open spec fn holds_operation(self, operation: OperationModel) -> bool {
        exists|i: int|
            0 <= i < self.operations.len() && #[trigger] self.operations[i] == operation
    }

    /// The id under which the operation is stored, or the next free id.
    pub open spec fn operation_id_of(self, operation: OperationModel) -> OperationId {
        if self.holds_operation(operation) {
            OperationId(
                (choose|i: int|
                    0 <= i < self.operations.len() && #[trigger] self.operations[i]
                        == operation) as u64,
            )
        } else {
            OperationId(self.operations.len() as u64)
        }
    }

    /// The store after the operation has been written.
    pub open spec fn with_operation(self, operation: OperationModel) -> OpStoreModel {
        if self.holds_operation(operation) {
            self
        } else {
            OpStoreModel { operations: self.operations.push(operation), ..self }
        }
    }
}

/// Operations and views held in memory, each under an id that stands for its content.
pub struct OpStore {
    operations: Vec<OperationData>,
    views: Vec<ViewData>,
}

impl View for OpStore {
    type V = OpStoreModel;

    closed spec fn view(&self) -> OpStoreModel {
        OpStoreModel {
            operations: Seq::new(self.operations@.len(), |i: int| self.operations@[i]@),
            views: Seq::new(self.views@.len(), |i: int| self.views@[i]@),
        }
    }
}

impl OpStore {
    /// The representation invariant; it implies that the model is well formed and that
    /// every stored view is canonical.
    pub closed spec fn wf(&self) -> bool {
        &&& self@.wf()
        &&& forall|i: int| 0 <= i < self.views@.len() ==> (#[trigger] self.views@[i]).wf()
    }

    /// A well-formed store has a well-formed model of canonical views.
    pub proof fn lemma_wf(&self)
        requires
            self.wf(),
        ensures
            self@.wf(),
            forall|i: int| 0 <= i < self@.views.len() ==> (#[trigger] self@.views[i]).canonical(),
    {
        assert forall|i: int| 0 <= i < self@.views.len() implies (
        #[trigger] self@.views[i]).canonical() by {
            self.views@[i].lemma_canonical();
        }
    }

    /// A store that holds the root operation, which leads to the view whose only head is
    /// the root commit.
    pub fn new() -> (s: OpStore)
        ensures
            s.wf(),
            s@ == OpStoreModel::initial(),
    {
        let mut view = ViewData::new();
        view.add_head(CommitId(0));
        let mut views: Vec<ViewData> = Vec::new();
        views.push(view);
        let mut operations: Vec<OperationData> = Vec::new();
        operations.push(
            OperationData {
                view_id: ViewId(0),
                parents: Vec::new(),
                metadata: OperationMetadata {
                    description: String::new(),
                    timestamp: Timestamp { millis_since_epoch: 0, tz_offset: 0 },
                    actor: String::new(),
                },
            },
        );
        let store = OpStore { operations, views };
        proof {
            assert(store@.operations =~= OpStoreModel::initial().operations);
            assert(store@.views =~= OpStoreModel::initial().views);
        }
        store
    }

    /// The view stored under the id.
    pub fn read_view(&self, id: ViewId) -> (r: Result<ViewData, StoreError>)
        requires
            self.wf(),
        ensures
            match r {
                Ok(view) => self@.has_view(id) && view@ == self@.view_at(id) && view.wf(),
                Err(e) => !self@.has_view(id) && e == StoreError::ViewNotFound(id),
            },
    {
        if id.0 < self.views.len() as u64 {
            Ok(self.views[id.0 as usize].dup())
        } else {
            Err(StoreError::ViewNotFound(id))
        }
    }

    /// The operation stored under the id.
    pub fn read_operation(&self, id: OperationId) -> (r: Result<OperationData, StoreError>)
        requires
            self.wf(),
        ensures
            match r {
                Ok(operation) => self@.has_operation(id) && operation@ == self@.operation_at(id),
                Err(e) => !self@.has_operation(id) && e == StoreError::OperationNotFound(id),
            },
    {
        if id.0 < self.operations.len() as u64 {
            Ok(self.operations[id.0 as usize].dup())
        } else {
            Err(StoreError::OperationNotFound(id))
        }
    }

    /// Stores the view unless an equal one is stored, and returns its id.
    pub fn write_view(&mut self, view: &ViewData) -> (id: ViewId)
        requires
            old(self).wf(),
            view.wf(),
        ensures
            final(self).wf(),
            id == old(self)@.view_id_of(view@),
            final(self)@ == old(self)@.with_view(view@),
            final(self)@.has_view(id),
            final(self)@.view_at(id) == view@,
    {
        let mut i: usize = 0;
        while i < self.views.len()
            invariant
                *self == *old(self),
                self.wf(),
                view.wf(),
                i <= self.views@.len(),
                forall|j: int| 0 <= j < i ==> (#[trigger] self.views@[j])@ != view@,
            decreases self.views@.len() - i,
        {
            if self.views[i].same(view) {
                proof {
                    let m = self@;
                    assert(m.views[i as int] == view@);
                    let c = choose|c: int| 0 <= c < m.views.len() && #[trigger] m.views[c] == view@;
                    if c < i {
                        assert(m.views[c] != m.views[i as int]);
                    } else if i < c {
                        assert(m.views[i as int] != m.views[c]);
                    }
                }
                return ViewId(i as u64);
            }
            i += 1;
        }
        let id = ViewId(self.views.len() as u64);
        let copy = view.dup();
        self.views.push(copy);
        let count = self.views.len();
        proof {
            let m0 = old(self)@;
            let m1 = self@;
            assert(!m0.holds_view(view@)) by {
                if m0.holds_view(view@) {
                    let c = choose|c: int| 0 <= c < m0.views.len() && #[trigger] m0.views[c] == view@;
                    assert(old(self).views@[c]@ != view@);
                }
            }
            assert(m1.operations =~= m0.operations);
            assert(m1.views =~= m0.views.push(view@));
            assert forall|a: int, b: int| 0 <= a < b < m1.views.len() implies #[trigger] m1.views[a]
                != #[trigger] m1.views[b] by {
                if b < m0.views.len() {
                    assert(m0.views[a] != m0.views[b]);
                } else {
                    assert(old(self).views@[a]@ != view@);
                }
            }
            assert forall|a: int, b: int| 0 <= a < b < m1.operations.len() implies #[trigger] m1.operations[a]
                != #[trigger] m1.operations[b] by {
                assert(m0.operations[a] != m0.operations[b]);
            }
        }
        id
    }

    /// Stores the operation unless an equal one is stored, and returns its id.
    pub fn write_operation(&mut self, operation: &OperationData) -> (id: OperationId)
        requires
            old(self).wf(),
        ensures
            final(self).wf(),
            id == old(self)@.operation_id_of(operation@),
            final(self)@ == old(self)@.with_operation(operation@),
            final(self)@.has_operation(id),
            final(self)@.operation_at(id) == operation@,
    {
        let mut i: usize = 0;
        while i < self.operations.len()
            invariant
                *self == *old(self),
                self.wf(),
                i <= self.operations@.len(),
                forall|j: int| 0 <= j < i ==> (#[trigger] self.operations@[j])@ != operation@,
            decreases self.operations@.len() - i,
        {
            if self.operations[i].same(operation) {
                proof {
                    let m = self@;
                    assert(m.operations[i as int] == operation@);
                    let c = choose|c: int|
                        0 <= c < m.operations.len() && #[trigger] m.operations[c] == operation@;
                    if c < i {
                        assert(m.operations[c] != m.operations[i as int]);
                    } else if i < c {
                        assert(m.operations[i as int] != m.operations[c]);
                    }
                }
                return OperationId(i as u64);
            }
            i += 1;
        }
        let id = OperationId(self.operations.len() as u64);
        let copy = operation.dup();
        self.operations.push(copy);
        let count = self.operations.len();
        proof {
            let m0 = old(self)@;
            let m1 = self@;
            assert(!m0.holds_operation(operation@)) by {
                if m0.holds_operation(operation@) {
                    let c = choose|c: int|
                        0 <= c < m0.operations.len() && #[trigger] m0.operations[c] == operation@;
                    assert(old(self).operations@[c]@ != operation@);
                }
            }
            assert(m1.views =~= m0.views);
            assert(m1.operations =~= m0.operations.push(operation@));
            assert forall|a: int, b: int| 0 <= a < b < m1.operations.len() implies #[trigger] m1.operations[a]
                != #[trigger] m1.operations[b] by {
                if b < m0.operations.len() {
                    assert(m0.operations[a] != m0.operations[b]);
                } else {
                    assert(old(self).operations@[a]@ != operation@);
                }
            }
            assert forall|a: int, b: int| 0 <= a < b < m1.views.len() implies #[trigger] m1.views[a]
                != #[trigger] m1.views[b] by {
                assert(m0.views[a] != m0.views[b]);
            }
            assert forall|q: int| 0 <= q < self.views@.len() implies (#[trigger] self.views@[q]).wf() by {
                assert(old(self).views@[q].wf());
            }
        }
        id
    }
}

} // verus!
