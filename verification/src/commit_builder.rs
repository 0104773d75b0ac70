//! Staging the fields of a commit and writing it.

use crate::backend::{
    Commit, CommitData, CommitModel, Signature, SignatureModel, Store, StoreError, StoreModel,
};
use crate::id::{ChangeId, CommitId, TreeId};
use crate::idlist::copy_ids;
use crate::repo::{MutableRepo, RepoModel};
use crate::rewrite::FateModel;
use crate::signing::{resolve_sign_behavior, should_sign, SignBehavior, SignSettings, Signer};
use vstd::prelude::*;

verus! {

/// The commit that a builder rewrites: its id and its change.
#[derive(Clone, Copy, Debug, PartialEq, Eq, Structural)]
pub struct RewriteSource {
    pub id: CommitId,
    pub change_id: ChangeId,
}

/// The fields of a commit that is about to be written.
pub struct CommitBuilder {
    data: CommitData,
    change_id: Option<ChangeId>,
    rewrite_source: Option<RewriteSource>,
    sign_behavior: Option<SignBehavior>,
}

/// The model of a [`CommitBuilder`].
pub struct BuilderModel {
    /// The fields as staged; the change id among them counts only if `change_id` is set.
    pub fields: CommitModel,
    pub change_id: Option<ChangeId>,
    pub rewrite_source: Option<RewriteSource>,
    pub sign_behavior: Option<SignBehavior>,
}

impl BuilderModel {
    /// The fields that are written into the store: the staged ones, with the given
    /// signature, under the staged change id or else one made from the id of the commit.
    pub open spec fn fields_for(self, store: StoreModel, signature: Option<Seq<u8>>) -> CommitModel {
        CommitModel {
            change_id: match self.change_id {
                Some(id) => id,
                None => ChangeId(store.next_commit_id().0),
            },
            secure_sig: signature,
            ..self.fields
        }
    }

    /// Whether the written commit is recorded as the rewrite of the source: it is if it
    /// belongs to the same change.
    pub open spec fn records_rewrite(self, store: StoreModel) -> bool {
        self.rewrite_source matches Some(source) && source.change_id == self.fields_for(
            store,
            None,
        ).change_id
    }

    /// Whether `next` is the overlay after the commit `id` was written into `store`: the
    /// commit is visible, and recorded as the rewrite of the source where it is one.
    pub open spec fn written(
        self,
        before: StoreModel,
        store: StoreModel,
        repo: RepoModel,
        id: CommitId,
        next: RepoModel,
    ) -> bool {
        exists|mid: RepoModel| #[trigger]
            repo.landed(store, id, mid) && next == (if self.records_rewrite(before) {
                mid.with_fate(self.rewrite_source->0.id, FateModel::Rewritten(id))
            } else {
                mid
            })
    }
}

impl View for CommitBuilder {
    type V = BuilderModel;

    closed spec fn view(&self) -> BuilderModel {
        BuilderModel {
            fields: self.data@,
            change_id: self.change_id,
            rewrite_source: self.rewrite_source,
            sign_behavior: self.sign_behavior,
        }
    }
}

impl MutableRepo {
    /// A builder for a new commit with the given parents and tree: a new change, without
    /// description, by nobody.
    pub fn new_commit(&self, parents: Vec<CommitId>, tree: TreeId) -> (b: CommitBuilder)
        ensures
            b@.fields.parents == parents@,
            b@.fields.tree == tree,
            b@.fields.predecessors == Seq::<CommitId>::empty(),
            b@.fields.description == Seq::<char>::empty(),
            b@.fields.author == SignatureModel::empty(),
            b@.fields.committer == SignatureModel::empty(),
            b@.change_id is None,
            b@.rewrite_source is None,
            b@.sign_behavior is None,
    {
        CommitBuilder {
            data: CommitData {
                parents,
                predecessors: Vec::new(),
                tree,
                change_id: ChangeId(0),
                description: String::new(),
                author: Signature::empty(),
                committer: Signature::empty(),
                secure_sig: None,
            },
            change_id: None,
            rewrite_source: None,
            sign_behavior: None,
        }
    }

    /// A builder for a commit that takes the place of the given one: the same fields and
    /// the same change, with the given commit as its predecessor.
    pub fn rewrite_commit(&self, commit: &Commit) -> (b: CommitBuilder)
        ensures
            b@.fields == (CommitModel { predecessors: seq![commit.id], ..commit.data@ }),
            b@.change_id == Some(commit.data@.change_id),
            b@.rewrite_source == Some(
                RewriteSource { id: commit.id, change_id: commit.data@.change_id },
            ),
            b@.sign_behavior is None,
    {
        let mut data = commit.data.dup();
        let mut predecessors: Vec<CommitId> = Vec::new();
        predecessors.push(commit.id);
        proof {
            assert(predecessors@ =~= seq![commit.id]);
        }
        data.predecessors = predecessors;
        CommitBuilder {
            data,
            change_id: Some(commit.data.change_id),
            rewrite_source: Some(RewriteSource { id: commit.id, change_id: commit.data.change_id }),
            sign_behavior: None,
        }
    }
}

impl CommitBuilder {
    /// The parents as staged.
    pub fn parents(&self) -> (p: &Vec<CommitId>)
        ensures
            p@ == self@.fields.parents,
    {
        &self.data.parents
    }

    /// The tree as staged.
    pub fn tree_id(&self) -> (t: TreeId)
        ensures
            t == self@.fields.tree,
    {
        self.data.tree
    }

    /// The behavior asked for, if one was.
    pub fn sign_behavior(&self) -> (b: Option<SignBehavior>)
        ensures
            b == self@.sign_behavior,
    {
        self.sign_behavior
    }

    /// Stages other parents.
    pub fn set_parents(self, parents: Vec<CommitId>) -> (b: CommitBuilder)
        ensures
            b@ == (BuilderModel {
                fields: CommitModel { parents: parents@, ..self@.fields },
                ..self@
            }),
    {
        let mut b = self;
        b.data.parents = parents;
        b
    }

    /// Stages other predecessors.
    pub fn set_predecessors(self, predecessors: Vec<CommitId>) -> (b: CommitBuilder)
        ensures
            b@ == (BuilderModel {
                fields: CommitModel { predecessors: predecessors@, ..self@.fields },
                ..self@
            }),
    {
        let mut b = self;
        b.data.predecessors = predecessors;
        b
    }

    /// Stages another tree.
    pub fn set_tree_id(self, tree: TreeId) -> (b: CommitBuilder)
        ensures
            b@ == (BuilderModel { fields: CommitModel { tree, ..self@.fields }, ..self@ }),
    {
        let mut b = self;
        b.data.tree = tree;
        b
    }

    /// Stages the change that the commit belongs to.
    pub fn set_change_id(self, change_id: ChangeId) -> (b: CommitBuilder)
        ensures
            b@ == (BuilderModel { change_id: Some(change_id), ..self@ }),
    {
        let mut b = self;
        b.change_id = Some(change_id);
        b
    }

    /// Stages another description.
    pub fn set_description(self, description: &str) -> (b: CommitBuilder)
        ensures
            b@ == (BuilderModel {
                fields: CommitModel { description: description@, ..self@.fields },
                ..self@
            }),
    {
        let mut b = self;
        b.data.description = description.to_owned();
        b
    }

    /// Stages another author.
    pub fn set_author(self, author: Signature) -> (b: CommitBuilder)
        ensures
            b@ == (BuilderModel {
                fields: CommitModel { author: author@, ..self@.fields },
                ..self@
            }),
    {
        let mut b = self;
        b.data.author = author;
        b
    }

    /// Stages another committer.
    pub fn set_committer(self, committer: Signature) -> (b: CommitBuilder)
        ensures
            b@ == (BuilderModel {
                fields: CommitModel { committer: committer@, ..self@.fields },
                ..self@
            }),
    {
        let mut b = self;
        b.data.committer = committer;
        b
    }

    /// Asks for a behavior about the signature, in place of the configured default.
    pub fn set_sign_behavior(self, behavior: SignBehavior) -> (b: CommitBuilder)
        ensures
            b@ == (BuilderModel { sign_behavior: Some(behavior), ..self@ }),
    {
        let mut b = self;
        b.sign_behavior = Some(behavior);
        b
    }

    /// Writes the commit with the given signature, makes it visible, and records it as the
    /// rewrite of its source if it belongs to the same change.
    ///
    /// Fails, and changes nothing, if the commit names no parent or a parent that is not
    /// stored.
    pub fn write_with_signature(
        self,
        repo: &mut MutableRepo,
        store: &mut Store,
        signature: Option<Vec<u8>>,
    ) -> (r: Result<Commit, StoreError>)
        requires
            old(repo).wf(),
            old(store)@.wf(),
        ensures
            final(repo).wf(),
            final(store)@.wf(),
            match r {
                Ok(commit) => {
                    let fields = self@.fields_for(
                        old(store)@,
                        match signature {
                            Some(bytes) => Some(bytes@),
                            None => None,
                        },
                    );
                    &&& fields.parents.len() > 0
                    &&& old(store)@.has_all(fields.parents)
                    &&& commit.id == old(store)@.next_commit_id()
                    &&& commit.data@ == fields
                    &&& final(store)@ == old(store)@.with_commit(fields)
                    &&& self@.written(
                        old(store)@,
                        final(store)@,
                        old(repo)@,
                        commit.id,
                        final(repo)@,
                    )
                },
                Err(e) => {
                    &&& final(store)@ == old(store)@
                    &&& final(repo)@ == old(repo)@
                    &&& old(store)@.write_error(self@.fields.parents) == Some(e)
                },
            },
    {
        let mut data = self.data;
        let ghost next = store@.next_commit_id();
        data.change_id = match self.change_id {
            Some(id) => id,
            None => ChangeId(store.next_commit_id().0),
        };
        data.secure_sig = signature;
        let copy = data.dup();
        let id = match store.write_commit(data) {
            Ok(id) => id,
            Err(e) => {
                return Err(e);
            },
        };
        let commit = Commit { id, data: copy };
        let landed = repo.add_head(store, &commit);
        proof {
            assert(old(repo)@.landed(store@, id, repo@));
        }
        match self.rewrite_source {
            Some(source) => {
                if source.change_id == commit.data.change_id {
                    let taken = repo.set_rewritten_commit(source.id, id);
                }
            },
            None => {},
        }
        Ok(commit)
    }

    /// Writes the commit without a signature.
    pub fn write(self, repo: &mut MutableRepo, store: &mut Store) -> (r: Result<Commit, StoreError>)
        requires
            old(repo).wf(),
            old(store)@.wf(),
        ensures
            final(repo).wf(),
            final(store)@.wf(),
            match r {
                Ok(commit) => {
                    let fields = self@.fields_for(old(store)@, None);
                    &&& fields.parents.len() > 0
                    &&& old(store)@.has_all(fields.parents)
                    &&& commit.id == old(store)@.next_commit_id()
                    &&& commit.data@ == fields
                    &&& final(store)@ == old(store)@.with_commit(fields)
                    &&& self@.written(
                        old(store)@,
                        final(store)@,
                        old(repo)@,
                        commit.id,
                        final(repo)@,
                    )
                },
                Err(e) => {
                    &&& final(store)@ == old(store)@
                    &&& final(repo)@ == old(repo)@
                    &&& old(store)@.write_error(self@.fields.parents) == Some(e)
                },
            },
    {
        self.write_with_signature(repo, store, None)
    }

    /// Writes the commit, signed by the signer where the behavior that applies says so and
    /// the signer makes a signature.
    pub fn write_signed<S: Signer>(
        self,
        repo: &mut MutableRepo,
        store: &mut Store,
        settings: &SignSettings,
        signer: &S,
    ) -> (r: Result<Commit, StoreError>)
        requires
            old(repo).wf(),
            old(store)@.wf(),
        ensures
            final(repo).wf(),
            final(store)@.wf(),
            r is Ok <==> self@.fields.parents.len() > 0 && old(store)@.has_all(self@.fields.parents),
            r matches Ok(commit) ==> {
                &&& commit.id == old(store)@.next_commit_id()
                &&& commit.data@ == self@.fields_for(old(store)@, commit.data@.secure_sig)
                &&& !crate::signing::signs(
                    crate::signing::effective_behavior(self@.sign_behavior, settings.behavior),
                    settings.key.is_some(),
                ) ==> commit.data@.secure_sig is None
                &&& final(store)@ == old(store)@.with_commit(commit.data@)
                &&& self@.written(
                    old(store)@,
                    final(store)@,
                    old(repo)@,
                    commit.id,
                    final(repo)@,
                )
            },
            r is Err ==> final(store)@ == old(store)@ && final(repo)@ == old(repo)@,
    {
        let behavior = resolve_sign_behavior(self.sign_behavior, settings);
        let signature = if should_sign(behavior, settings) {
            signer.sign(&self.data, &settings.key)
        } else {
            None
        };
        let r = self.write_with_signature(repo, store, signature);
        proof {
            old(store)@.lemma_first_missing(self@.fields.parents);
        }
        r
    }
}

} // verus!
