//! Moving the working copy of a workspace, and giving up the commit it leaves where that
//! commit holds nothing worth keeping.

use crate::backend::{Commit, CommitModel, SignatureModel, Store, StoreError, StoreModel};
use crate::commit_builder::BuilderModel;
use crate::id::{ChangeId, TreeId};
use crate::id::CommitId;
use crate::idlist::{contains_id, copy_ids};
use crate::model::Model;
use crate::op_store::{ViewData, ViewModel};
use crate::refs::WorkspaceId;
use crate::repo::{MutableRepo, RepoModel};
use crate::rewrite::FateModel;
use vstd::prelude::*;

verus! {

/// Why the working copy of a workspace could not be moved.
#[derive(Clone, Copy, Debug, PartialEq, Eq, Structural)]
pub enum EditCommitError {
    /// The commit that the working copy is at is not stored.
    WorkingCopyCommitNotFound(CommitId),
    /// The root commit cannot be a working copy: it cannot be rewritten.
    RewriteRootCommit,
    /// The store failed.
    Store(StoreError),
}

impl ViewModel {
    /// Whether a local bookmark points at the commit.
    pub open spec fn bookmarked(self, id: CommitId) -> bool {
        exists|n: Seq<char>|
            self.local_bookmarks.contains_key(n) && (#[trigger] self.local_bookmarks[n]).contains(
                id,
            )
    }

    /// Whether the working copy of a workspace other than `workspace` is at the commit.
    pub open spec fn other_working_copy(self, workspace: Seq<char>, id: CommitId) -> bool {
        exists|w: Seq<char>|
            self.wc_commits.contains_key(w) && w != workspace && (#[trigger] self.wc_commits[w])
                == id
    }
}

/// Whether the commit may be given up once the working copy of `workspace` leaves it: it
/// says nothing, is not signed, changes nothing against its parents, is a head, and neither
/// a local bookmark nor another workspace points at it.
pub open spec fn discardable(
    store: StoreModel,
    view: ViewModel,
    workspace: Seq<char>,
    id: CommitId,
) -> bool {
    &&& store.has_commit(id)
    &&& store.commit(id).description.len() == 0
    &&& store.commit(id).secure_sig is None
    &&& store.commit(id).parents.len() > 0
    &&& store.peek_parents_tree(store.commit(id).parents) == Some(store.commit(id).tree)
    &&& view.heads.contains(id)
    &&& !view.bookmarked(id)
    &&& !view.other_working_copy(workspace, id)
}

impl RepoModel {
    /// The state after the working copy of the workspace has left its commit: a
    /// discardable commit is abandoned in favour of its parents.
    pub open spec fn after_leaving(self, store: StoreModel, workspace: Seq<char>) -> RepoModel {
        if self.view.wc_commits.contains_key(workspace) && discardable(
            store,
            self.view,
            workspace,
            self.view.wc_commits[workspace],
        ) {
            self.with_fate(
                self.view.wc_commits[workspace],
                FateModel::Abandoned(store.commit(self.view.wc_commits[workspace]).parents),
            )
        } else {
            self
        }
    }

    /// Whether `next` is the state after the commit was made visible.
    pub open spec fn landed(self, store: StoreModel, id: CommitId, next: RepoModel) -> bool {
        if self.visible(id) {
            next == self
        } else {
            self.head_added(store, id, next)
        }
    }

    /// The state with the working copy of the workspace at the commit.
    pub open spec fn with_wc_commit(self, workspace: Seq<char>, id: CommitId) -> RepoModel {
        self.with_view(self.view.with_wc_commit(workspace, id))
    }

    /// Why the working copy of the workspace cannot move to the commit, if it cannot.
    pub open spec fn edit_error(self, store: StoreModel, workspace: Seq<char>, id: CommitId) -> Option<
        EditCommitError,
    > {
        if self.view.wc_commits.contains_key(workspace) && !store.has_commit(
            self.view.wc_commits[workspace],
        ) {
            Some(EditCommitError::WorkingCopyCommitNotFound(self.view.wc_commits[workspace]))
        } else if !self.visible(id) && !store.has_commit(id) {
            Some(EditCommitError::Store(StoreError::CommitNotFound(id)))
        } else if id == CommitId(0) {
            Some(EditCommitError::RewriteRootCommit)
        } else {
            None
        }
    }

    /// Whether `next` is the state after the working copy of the workspace moved to the
    /// commit: the commit it left is abandoned if discardable, the new commit is made
    /// visible, and the workspace points at it.
    pub open spec fn edited(
        self,
        store: StoreModel,
        workspace: Seq<char>,
        id: CommitId,
        next: RepoModel,
    ) -> bool {
        exists|mid: RepoModel| #[trigger]
            self.after_leaving(store, workspace).landed(store, id, mid) && next
                == mid.with_wc_commit(workspace, id)
    }
}

/// Whether a local bookmark of the view points at the commit.
pub fn is_bookmarked(view: &ViewData, id: CommitId) -> (b: bool)
    requires
        view.wf(),
    ensures
        b == view@.bookmarked(id),
{
    let bookmarks = view.local_bookmarks();
    let mut i: usize = 0;
    while i < bookmarks.len()
        invariant
            bookmarks.wf(),
            bookmarks@ == view@.local_bookmarks,
            i <= bookmarks.spec_len(),
            forall|q: int| 0 <= q < i ==> !(#[trigger] bookmarks.spec_val(q)).contains(id),
        decreases bookmarks.spec_len() - i,
    {
        let target = bookmarks.val_at(i);
        if contains_id(target.added_ids(), id) {
            proof {
                bookmarks.lemma_entry(i as int);
                let n = bookmarks.spec_key(i as int);
                assert(view@.local_bookmarks.contains_key(n) && view@.local_bookmarks[n].contains(
                    id,
                ));
            }
            return true;
        }
        i += 1;
    }
    proof {
        if view@.bookmarked(id) {
            let n = choose|n: Seq<char>|
                view@.local_bookmarks.contains_key(n) && (#[trigger] view@.local_bookmarks[n]).contains(
                    id,
                );
            let q = bookmarks.lemma_position(n);
            assert(bookmarks.spec_val(q).contains(id));
        }
    }
    false
}

/// Whether the working copy of a workspace other than `workspace` is at the commit.
pub fn is_other_working_copy(view: &ViewData, workspace: &WorkspaceId, id: CommitId) -> (b: bool)
    requires
        view.wf(),
    ensures
        b == view@.other_working_copy(workspace@, id),
{
    let working_copies = view.wc_commit_ids();
    let mut i: usize = 0;
    while i < working_copies.len()
        invariant
            working_copies.wf(),
            working_copies@ == view@.wc_commits,
            i <= working_copies.spec_len(),
            forall|q: int|
                0 <= q < i ==> (#[trigger] working_copies.spec_key(q)) == workspace@
                    || working_copies.spec_val(q) != id,
        decreases working_copies.spec_len() - i,
    {
        let other = working_copies.key_at(i);
        let at = *working_copies.val_at(i);
        if at == id && !other.same(workspace) {
            proof {
                working_copies.lemma_entry(i as int);
                let w = working_copies.spec_key(i as int);
                assert(view@.wc_commits.contains_key(w) && w != workspace@ && view@.wc_commits[w]
                    == id);
            }
            return true;
        }
        i += 1;
    }
    proof {
        if view@.other_working_copy(workspace@, id) {
            let w = choose|w: Seq<char>|
                view@.wc_commits.contains_key(w) && w != workspace@ && (
                #[trigger] view@.wc_commits[w]) == id;
            let q = working_copies.lemma_position(w);
            assert(working_copies.spec_key(q) == w);
        }
    }
    false
}

impl MutableRepo {
    /// Whether the commit may be given up once the working copy of the workspace leaves
    /// it.
    pub fn is_discardable(&self, store: &Store, workspace: &WorkspaceId, id: CommitId) -> (b: bool)
        requires
            self.wf(),
            store@.wf(),
        ensures
            b == discardable(store@, self@.view, workspace@, id),
    {
        proof {
            self.lemma_parts();
        }
        let data = match store.commit_data(id) {
            Ok(data) => data,
            Err(_) => {
                return false;
            },
        };
        if !data.description.as_str().is_empty() || data.secure_sig.is_some()
            || data.parents.len() == 0 {
            return false;
        }
        proof {
            assert forall|k: int| 0 <= k < data@.parents.len() implies store@.has_commit(
                #[trigger] data@.parents[k],
            ) by {
                assert(store@.commits[id.0 as int].parents[k].0 < id.0);
            }
        }
        match store.peek_parents_tree(&data.parents) {
            Some(tree) => {
                if tree != data.tree {
                    return false;
                }
            },
            None => {
                return false;
            },
        }
        self.view.has_head(id) && !is_bookmarked(&self.view, id) && !is_other_working_copy(
            &self.view,
            workspace,
            id,
        )
    }

    /// Abandons the commit that the working copy of the workspace is at, if it is
    /// discardable.
    fn leave(&mut self, store: &Store, workspace: &WorkspaceId)
        requires
            old(self).wf(),
            store@.wf(),
        ensures
            final(self).wf(),
            final(self)@ == old(self)@.after_leaving(store@, workspace@),
    {
        proof {
            self.lemma_parts();
        }
        match self.view.get_wc_commit_id(workspace) {
            Some(id) => {
                if self.is_discardable(store, workspace, id) {
                    let parents = copy_ids(store.parents_of(id));
                    self.record_abandoned_commit_with_parents(id, parents);
                }
            },
            None => {},
        }
    }

    /// Points the working copy of the workspace at the commit, which must not be the
    /// root.
    pub fn set_wc_commit(&mut self, workspace: WorkspaceId, id: CommitId) -> (r: Result<
        (),
        EditCommitError,
    >)
        requires
            old(self).wf(),
        ensures
            final(self).wf(),
            match r {
                Ok(_) => id != CommitId(0) && final(self)@ == old(self)@.with_wc_commit(
                    workspace@,
                    id,
                ),
                Err(e) => id == CommitId(0) && e == EditCommitError::RewriteRootCommit && final(self)@ == old(self)@,
            },
    {
        if id.0 == 0 {
            return Err(EditCommitError::RewriteRootCommit);
        }
        proof {
            self.lemma_parts();
            self.lemma_wf();
        }
        self.view.set_wc_commit(workspace, id);
        proof {
            self.view.lemma_canonical();
            self.lemma_parts();
        }
        Ok(())
    }

    /// Why the working copy of the workspace cannot move to the commit, if it cannot.
    fn edit_error(&self, store: &Store, workspace: &WorkspaceId, id: CommitId) -> (r: Option<
        EditCommitError,
    >)
        requires
            self.wf(),
        ensures
            r == self@.edit_error(store@, workspace@, id),
    {
        proof {
            self.lemma_parts();
        }
        match self.view.get_wc_commit_id(workspace) {
            Some(at) => {
                if !store.has_commit(at) {
                    return Some(EditCommitError::WorkingCopyCommitNotFound(at));
                }
            },
            None => {},
        }
        if !self.is_visible(id) && !store.has_commit(id) {
            return Some(EditCommitError::Store(StoreError::CommitNotFound(id)));
        }
        if id.0 == 0 {
            return Some(EditCommitError::RewriteRootCommit);
        }
        None
    }

    /// Moves the working copy of the workspace to the commit, without writing a commit.
    ///
    /// The commit that the working copy leaves is abandoned if it is discardable; the new
    /// commit is made visible. On an error nothing changes.
    pub fn edit(&mut self, store: &Store, workspace: WorkspaceId, commit: &Commit) -> (r: Result<
        (),
        EditCommitError,
    >)
        requires
            old(self).wf(),
            store@.wf(),
        ensures
            final(self).wf(),
            match r {
                Ok(_) => old(self)@.edit_error(store@, workspace@, commit.id) is None && old(self)@.edited(store@, workspace@, commit.id, final(self)@),
                Err(e) => old(self)@.edit_error(store@, workspace@, commit.id) == Some(e) && final(self)@ == old(self)@,
            },
    {
        match self.edit_error(store, &workspace, commit.id) {
            Some(e) => {
                return Err(e);
            },
            None => {},
        }
        self.leave(store, &workspace);
        let ghost left = self@;
        proof {
            assert(left.view == old(self)@.view);
            assert(left.index == old(self)@.index);
            assert(left.visible(commit.id) == old(self)@.visible(commit.id));
        }
        let added = self.add_head(store, commit);
        let ghost mid = self@;
        proof {
            assert(left.landed(store@, commit.id, mid));
        }
        let pointed = self.set_wc_commit(workspace, commit.id);
        Ok(())
    }

    /// Forgets the working copy of the workspace; the commit it was at is abandoned if it
    /// is discardable. Fails, and changes nothing, if that commit is not stored.
    pub fn remove_wc_commit(&mut self, store: &Store, workspace: &WorkspaceId) -> (r: Result<
        (),
        EditCommitError,
    >)
        requires
            old(self).wf(),
            store@.wf(),
        ensures
            final(self).wf(),
            match r {
                Ok(_) => {
                    &&& old(self)@.view.wc_commits.contains_key(workspace@) ==> store@.has_commit(
                        old(self)@.view.wc_commits[workspace@],
                    )
                    &&& final(self)@ == old(self)@.after_leaving(store@, workspace@).with_view(
                        old(self)@.view.without_wc_commit(workspace@),
                    )
                },
                Err(e) => {
                    &&& old(self)@.view.wc_commits.contains_key(workspace@)
                    &&& !store@.has_commit(old(self)@.view.wc_commits[workspace@])
                    &&& e == EditCommitError::WorkingCopyCommitNotFound(
                        old(self)@.view.wc_commits[workspace@],
                    )
                    &&& final(self)@ == old(self)@
                },
            },
    {
        proof {
            self.lemma_parts();
        }
        match self.view.get_wc_commit_id(workspace) {
            Some(at) => {
                if !store.has_commit(at) {
                    return Err(EditCommitError::WorkingCopyCommitNotFound(at));
                }
            },
            None => {},
        }
        self.leave(store, workspace);
        proof {
            self.lemma_parts();
            self.lemma_wf();
            assert(self@.view == old(self)@.view);
        }
        self.view.remove_wc_commit(workspace);
        proof {
            self.view.lemma_canonical();
            self.lemma_parts();
        }
        Ok(())
    }
}

/// The fields of the commit that a working copy gets on top of another commit: that
/// commit as its only parent, the same tree, a change of its own, nothing said.
pub open spec fn checkout_fields(store: StoreModel, parent: CommitId, tree: TreeId) -> CommitModel {
    CommitModel {
        parents: seq![parent],
        predecessors: Seq::empty(),
        tree,
        change_id: ChangeId(store.next_commit_id().0),
        description: Seq::empty(),
        author: SignatureModel::empty(),
        committer: SignatureModel::empty(),
        secure_sig: None,
    }
}

impl MutableRepo {
    /// Writes a commit on top of the given one, with the same tree, and moves the working
    /// copy of the workspace to it.
    ///
    /// Fails, and changes nothing, if the commit that the working copy is at, or the given
    /// commit, is not stored.
    pub fn check_out(&mut self, store: &mut Store, workspace: WorkspaceId, commit: &Commit) -> (r:
        Result<Commit, EditCommitError>)
        requires
            old(self).wf(),
            old(store)@.wf(),
        ensures
            final(self).wf(),
            final(store)@.wf(),
            match r {
                Ok(wc_commit) => {
                    let fields = checkout_fields(old(store)@, commit.id, commit.data@.tree);
                    &&& old(store)@.has_commit(commit.id)
                    &&& wc_commit.id == old(store)@.next_commit_id()
                    &&& wc_commit.data@ == fields
                    &&& final(store)@ == old(store)@.with_commit(fields)
                    &&& exists|mid: RepoModel| #[trigger]
                        old(self)@.landed(final(store)@, wc_commit.id, mid) && mid.edited(
                            final(store)@,
                            workspace@,
                            wc_commit.id,
                            final(self)@,
                        )
                },
                Err(e) => {
                    &&& final(self)@ == old(self)@
                    &&& final(store)@ == old(store)@
                    &&& if old(self)@.view.wc_commits.contains_key(workspace@)
                        && !old(store)@.has_commit(old(self)@.view.wc_commits[workspace@]) {
                        e == EditCommitError::WorkingCopyCommitNotFound(
                            old(self)@.view.wc_commits[workspace@],
                        )
                    } else {
                        !old(store)@.has_commit(commit.id) && e == EditCommitError::Store(
                            StoreError::CommitNotFound(commit.id),
                        )
                    }
                },
            },
    {
        proof {
            self.lemma_parts();
        }
        match self.view.get_wc_commit_id(&workspace) {
            Some(at) => {
                if !store.has_commit(at) {
                    return Err(EditCommitError::WorkingCopyCommitNotFound(at));
                }
            },
            None => {},
        }
        if !store.has_commit(commit.id) {
            return Err(EditCommitError::Store(StoreError::CommitNotFound(commit.id)));
        }
        let mut parents: Vec<CommitId> = Vec::new();
        parents.push(commit.id);
        proof {
            assert(parents@ =~= seq![commit.id]);
        }
        let builder = self.new_commit(parents, commit.data.tree);
        let ghost model = builder@;
        let wc_commit = match builder.write(self, store) {
            Ok(wc_commit) => wc_commit,
            Err(e) => {
                proof {
                    assert(model.fields.parents[0] == commit.id);
                    old(store)@.lemma_first_missing(model.fields.parents);
                    assert(false);
                }
                return Err(EditCommitError::Store(e));
            },
        };
        let ghost mid = self@;
        proof {
            assert(!model.records_rewrite(old(store)@));
            assert(old(self)@.landed(store@, wc_commit.id, mid));
            assert(wc_commit.data@ == checkout_fields(old(store)@, commit.id, commit.data@.tree));
            assert(mid.view.wc_commits == old(self)@.view.wc_commits) by {
                if !old(self)@.visible(wc_commit.id) {
                }
            }
            assert(store@.has_commit(wc_commit.id));
            assert(wc_commit.id != CommitId(0));
            assert forall|id: CommitId| old(store)@.has_commit(id) implies store@.has_commit(id) by {}
            assert(mid.edit_error(store@, workspace@, wc_commit.id) is None);
        }
        let moved = self.edit(store, workspace, &wc_commit);
        Ok(wc_commit)
    }
}

} // verus!
