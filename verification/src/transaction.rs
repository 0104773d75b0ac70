//! A repository as of one operation, and the transaction that leads from it to the next.

use crate::backend::{Store, StoreError, StoreModel, Timestamp};
use crate::edit::is_bookmarked;
use crate::id::{CommitId, OperationId, ViewId};
use crate::idlist::{lemma_push_unique, push_unique_id};
use crate::index::{Index, IndexModel};
use crate::model::Model;
use crate::op_store::{
    OpStore, OpStoreModel, OperationData, OperationMetadata, OperationModel, ViewData, ViewModel,
};
use crate::operation::{Operation, View};
use crate::repo::{entries_from_store, index_ancestors, MutableRepo, RepoModel};
use crate::rewrite::TableModel;
use vstd::prelude::*;
use vstd::view::View as _;

verus! {

/// Why a transaction could not be committed or a repository could not be loaded.
#[derive(Clone, Copy, Debug, PartialEq, Eq, Structural)]
pub enum TransactionError {
    /// Commits were rewritten or abandoned and their descendants have not been rebased.
    UnpropagatedRewrites,
    /// The store failed.
    Store(StoreError),
}

/// A read-only repository: an operation, the view it led to, and the index of the commits
/// known at that point.
pub struct Repo {
    operation: Operation,
    view: View,
    index: Index,
}

impl Repo {
    /// The id of the operation.
    pub closed spec fn operation_id(&self) -> OperationId {
        self.operation.spec_id()
    }

    /// The record of the operation.
    pub closed spec fn operation_model(&self) -> OperationModel {
        self.operation.model()
    }

    /// The id of the view.
    pub closed spec fn view_id(&self) -> ViewId {
        self.view.spec_id()
    }

    /// The view.
    pub closed spec fn view_model(&self) -> ViewModel {
        self.view.model()
    }

    /// The index.
    pub closed spec fn index_model(&self) -> IndexModel {
        self.index@
    }

    /// The view and the index are well formed, and every head is indexed.
    pub closed spec fn wf(&self) -> bool {
        &&& self.view.wf()
        &&& self.index@.wf()
        &&& forall|h: CommitId| self.view.model().heads.contains(h) ==> #[trigger] self.index@.has_id(h)
    }

    /// In a well-formed repository every head is indexed.
    pub proof fn lemma_wf(&self)
        requires
            self.wf(),
        ensures
            self.index_model().wf(),
            forall|h: CommitId|
                self.view_model().heads.contains(h) ==> #[trigger] self.index_model().has_id(h),
    {
    }

    /// The operation.
    pub fn operation(&self) -> (op: &Operation)
        ensures
            op.spec_id() == self.operation_id(),
            op.model() == self.operation_model(),
    {
        &self.operation
    }

    /// The view.
    pub fn view(&self) -> (view: &View)
        ensures
            view.spec_id() == self.view_id(),
            view.model() == self.view_model(),
            self.wf() ==> view.wf(),
    {
        &self.view
    }

    /// The index.
    pub fn index(&self) -> (index: &Index)
        ensures
            index@ == self.index_model(),
    {
        &self.index
    }

    /// A fresh value for the same repository.
    pub fn dup(&self) -> (r: Repo)
        requires
            self.wf(),
        ensures
            r.wf(),
            r.operation_id() == self.operation_id(),
            r.operation_model() == self.operation_model(),
            r.view_id() == self.view_id(),
            r.view_model() == self.view_model(),
            r.index_model() == self.index_model(),
    {
        Repo { operation: self.operation.dup(), view: self.view.dup(), index: self.index.dup() }
    }

    /// Whether `r` is what loading the operation stored under the id gives: the
    /// repository as of that operation, with an index of the heads of its view and their
    /// ancestors as the store has them; or the error for the operation, its view, or a
    /// head that is not stored.
    pub open spec fn loaded(
        store: StoreModel,
        op_store: OpStoreModel,
        id: OperationId,
        r: Result<Repo, StoreError>,
    ) -> bool {
        match r {
            Ok(repo) => {
                &&& repo.wf()
                &&& op_store.has_operation(id)
                &&& repo.operation_id() == id
                &&& repo.operation_model() == op_store.operation_at(id)
                &&& op_store.has_view(repo.operation_model().view_id)
                &&& repo.view_id() == repo.operation_model().view_id
                &&& repo.view_model() == op_store.view_at(repo.view_id())
                &&& forall|h: CommitId| repo.view_model().heads.contains(h) ==> store.has_commit(h)
                &&& entries_from_store(repo.index_model(), 0, store, store.commits.len() as int)
                &&& repo.index_model().grown_towards(0, repo.view_model().heads)
            },
            Err(e) => {
                ||| !op_store.has_operation(id) && e == StoreError::OperationNotFound(id)
                ||| op_store.has_operation(id) && !op_store.has_view(
                    op_store.operation_at(id).view_id,
                ) && e == StoreError::ViewNotFound(op_store.operation_at(id).view_id)
                ||| op_store.has_operation(id) && op_store.has_view(
                    op_store.operation_at(id).view_id,
                ) && exists|h: CommitId|
                    op_store.view_at(op_store.operation_at(id).view_id).heads.contains(h)
                        && !store.has_commit(h) && e == StoreError::CommitNotFound(h)
            },
        }
    }

    /// The repository as of the operation stored under the id: its view, and an index of
    /// the heads of the view with their ancestors.
    ///
    /// Fails if the operation, its view or one of the heads is not stored.
    pub fn load(store: &Store, op_store: &OpStore, id: OperationId) -> (r: Result<Repo, StoreError>)
        requires
            store@.wf(),
            op_store.wf(),
        ensures
            Self::loaded(store@, op_store@, id, r),
    {
        let data = match op_store.read_operation(id) {
            Ok(data) => data,
            Err(e) => {
                return Err(e);
            },
        };
        let operation = Operation::new(id, data);
        let view = match operation.view(op_store) {
            Ok(view) => view,
            Err(e) => {
                return Err(e);
            },
        };
        let heads = view.heads();
        match store.first_missing(heads) {
            Some(h) => {
                proof {
                    assert(heads@.to_set().contains(h));
                }
                return Err(StoreError::CommitNotFound(h));
            },
            None => {},
        }
        let mut index = Index::new();
        let bound = store.next_commit_id().0;
        proof {
            assert forall|k: int| 0 <= k < heads@.len() implies (#[trigger] heads@[k]).0 < bound by {
                assert(store@.has_commit(heads@[k]));
            }
        }
        index_ancestors(&mut index, store, heads, bound);
        proof {
            assert forall|h: CommitId| view.model().heads.contains(h) implies #[trigger] index@.has_id(
                h,
            ) && store@.has_commit(h) by {
                assert(heads@.to_set().contains(h));
                let k = choose|k: int| 0 <= k < heads@.len() && heads@[k] == h;
                assert(store@.has_commit(heads@[k]));
            }
        }
        Ok(Repo { operation, view, index })
    }

    /// The repository as of the root operation.
    pub fn init(store: &Store, op_store: &OpStore) -> (r: Result<Repo, StoreError>)
        requires
            store@.wf(),
            op_store.wf(),
        ensures
            Self::loaded(store@, op_store@, OperationId(0), r),
    {
        Repo::load(store, op_store, OperationId(0))
    }

    /// Starts a transaction on top of this repository.
    pub fn start_transaction(&self) -> (tx: Transaction)
        requires
            self.wf(),
        ensures
            tx.wf(),
            tx.repo_model() == (RepoModel {
                base: self.view_model(),
                view: self.view_model(),
                index: self.index_model(),
                table: TableModel::empty(),
            }),
            tx.base_operation_id() == self.operation_id(),
    {
        let mut_repo = MutableRepo::new(self.view.store_view(), self.index.dup());
        Transaction { mut_repo, base: self.dup() }
    }
}

/// A transaction: one mutable overlay on top of a repository.
pub struct Transaction {
    mut_repo: MutableRepo,
    base: Repo,
}

impl RepoModel {
    /// The commits that a local bookmark points at and that are neither a head nor an
    /// ancestor of one.
    pub open spec fn hidden_targets(self) -> Set<CommitId> {
        Set::new(|id: CommitId| self.view.bookmarked(id) && !self.visible(id))
    }
}

impl Transaction {
    /// The overlay.
    pub closed spec fn repo_model(&self) -> RepoModel {
        self.mut_repo@
    }

    /// The id of the operation that the transaction started from.
    pub closed spec fn base_operation_id(&self) -> OperationId {
        self.base.operation_id()
    }

    /// The overlay and the repository underneath are well formed.
    pub closed spec fn wf(&self) -> bool {
        &&& self.mut_repo.wf()
        &&& self.base.wf()
        &&& self.base.view_model() == self.mut_repo@.base
    }

    /// The overlay.
    pub fn repo(&self) -> (repo: &MutableRepo)
        ensures
            repo@ == self.repo_model(),
            self.wf() ==> repo.wf(),
    {
        &self.mut_repo
    }

    /// The overlay, to be changed in place.
    pub fn repo_mut(&mut self) -> (repo: &mut MutableRepo)
        ensures
            repo@ == old(self).repo_model(),
            old(self).wf() ==> repo.wf(),
            final(self).repo_model() == final(repo)@,
            final(self).base_operation_id() == old(self).base_operation_id(),
            old(self).wf() && final(repo).wf() && final(repo)@.base == old(self).repo_model().base
                ==> final(self).wf(),
    {
        &mut self.mut_repo
    }

    /// The repository that the transaction started from.
    pub fn base_repo(&self) -> (repo: &Repo)
        ensures
            repo.operation_id() == self.base_operation_id(),
            self.wf() ==> repo.wf(),
    {
        &self.base
    }

    /// Gives up the transaction for its overlay.
    pub fn into_repo(self) -> (repo: MutableRepo)
        ensures
            repo@ == self.repo_model(),
            self.wf() ==> repo.wf(),
    {
        self.mut_repo
    }

    /// A transaction with the given overlay in place of its own; the overlay has to stem
    /// from this transaction.
    pub fn with_repo(self, repo: MutableRepo) -> (tx: Transaction)
        requires
            self.wf(),
            repo.wf(),
            repo@.base == self.repo_model().base,
        ensures
            tx.wf(),
            tx.repo_model() == repo@,
            tx.base_operation_id() == self.base_operation_id(),
    {
        Transaction { mut_repo: repo, base: self.base }
    }
}

/// Whether one of the first `count` targets of the list holds the commit.
pub open spec fn targeted(targets: Seq<Seq<CommitId>>, count: int, x: CommitId) -> bool {
    exists|q: int| 0 <= q < count && (#[trigger] targets[q]).contains(x)
}

/// The targets among the first `count + 1` are those among the first `count` and the next.
pub proof fn lemma_targeted_step(targets: Seq<Seq<CommitId>>, count: int, x: CommitId)
    requires
        0 <= count < targets.len(),
    ensures
        targeted(targets, count + 1, x) == (targeted(targets, count, x) || targets[count].contains(
            x,
        )),
{
    if targeted(targets, count, x) {
        let q = choose|q: int| 0 <= q < count && (#[trigger] targets[q]).contains(x);
        assert(0 <= q < count + 1 && targets[q].contains(x));
    }
    if targets[count].contains(x) {
        assert(0 <= count < count + 1 && targets[count].contains(x));
    }
    if targeted(targets, count + 1, x) {
        let q = choose|q: int| 0 <= q < count + 1 && (#[trigger] targets[q]).contains(x);
        if q < count {
            assert(targets[q].contains(x));
        }
    }
}

impl MutableRepo {
    /// Adds to `out` the commits of the list that are neither a head nor an ancestor of
    /// one, each once.
    fn push_hidden(&self, out: &mut Vec<CommitId>, ids: &Vec<CommitId>)
        requires
            self.wf(),
            old(out)@.no_duplicates(),
        ensures
            final(out)@.no_duplicates(),
            forall|x: CommitId| #[trigger]
                final(out)@.contains(x) <==> old(out)@.contains(x) || (ids@.contains(x)
                    && !self@.visible(x)),
    {
        proof {
            assert(ids@.take(0) =~= Seq::<CommitId>::empty());
        }
        let mut j: usize = 0;
        while j < ids.len()
            invariant
                self.wf(),
                j <= ids@.len(),
                out@.no_duplicates(),
                forall|x: CommitId| #[trigger]
                    out@.contains(x) <==> old(out)@.contains(x) || (ids@.take(j as int).contains(x)
                        && !self@.visible(x)),
            decreases ids@.len() - j,
        {
            let id = ids[j];
            let ghost before = out@;
            proof {
                crate::idlist::lemma_take_contains(ids@, j as int);
                lemma_push_unique(before, id);
            }
            if !self.is_visible(id) {
                push_unique_id(out, id);
            }
            j += 1;
        }
        proof {
            assert(ids@.take(ids@.len() as int) =~= ids@);
        }
    }

    /// The commits that a local bookmark points at and that are neither a head nor an
    /// ancestor of one, each once.
    pub fn hidden_targets(&self) -> (r: Vec<CommitId>)
        requires
            self.wf(),
        ensures
            r@.no_duplicates(),
            r@.to_set() == self@.hidden_targets(),
    {
        proof {
            self.lemma_parts();
        }
        let bookmarks = self.view.local_bookmarks();
        let ghost targets = Seq::new(bookmarks.spec_len(), |q: int| bookmarks.spec_val(q));
        let mut out: Vec<CommitId> = Vec::new();
        let mut i: usize = 0;
        proof {
            assert forall|x: CommitId| #[trigger]
                out@.contains(x) <==> !self@.visible(x) && targeted(targets, 0, x) by {
                assert(!Seq::<CommitId>::empty().contains(x));
            }
        }
        while i < bookmarks.len()
            invariant
                self.wf(),
                bookmarks.wf(),
                bookmarks@ == self@.view.local_bookmarks,
                targets == Seq::new(bookmarks.spec_len(), |q: int| bookmarks.spec_val(q)),
                i <= bookmarks.spec_len(),
                out@.no_duplicates(),
                forall|x: CommitId| #[trigger]
                    out@.contains(x) <==> !self@.visible(x) && targeted(targets, i as int, x),
            decreases bookmarks.spec_len() - i,
        {
            let target = bookmarks.val_at(i);
            let ghost before = out@;
            proof {
                assert forall|x: CommitId|
                    targeted(targets, i + 1, x) == (targeted(targets, i as int, x)
                        || target@.contains(x)) by {
                    lemma_targeted_step(targets, i as int, x);
                }
            }
            self.push_hidden(&mut out, target.added_ids());
            i += 1;
        }
        proof {
            let goal = self@.hidden_targets();
            assert forall|x: CommitId| out@.to_set().contains(x) == goal.contains(x) by {
                if targeted(targets, bookmarks.spec_len() as int, x) {
                    let q = choose|q: int|
                        0 <= q < bookmarks.spec_len() && (#[trigger] targets[q]).contains(x);
                    bookmarks.lemma_entry(q);
                    let n = bookmarks.spec_key(q);
                    assert(self@.view.local_bookmarks.contains_key(n)
                        && self@.view.local_bookmarks[n].contains(x));
                }
                if self@.view.bookmarked(x) {
                    let n = choose|n: Seq<char>|
                        self@.view.local_bookmarks.contains_key(n) && (
                        #[trigger] self@.view.local_bookmarks[n]).contains(x);
                    let q = bookmarks.lemma_position(n);
                    assert(targets[q].contains(x));
                }
            }
            assert(out@.to_set() =~= goal);
        }
        out
    }

    /// Indexes the given commits, all stored, with their ancestors.
    fn index_towards(&mut self, store: &Store, ids: &Vec<CommitId>)
        requires
            old(self).wf(),
            store@.wf(),
            store@.has_all(ids@),
        ensures
            final(self).wf(),
            final(self)@.base == old(self)@.base,
            final(self)@.table == old(self)@.table,
            final(self)@.view == old(self)@.view,
            final(self)@.index.has_all(ids@),
            old(self)@.index.extended_by(final(self)@.index),
            entries_from_store(
                final(self)@.index,
                old(self)@.index.entries.len() as int,
                store@,
                store@.commits.len() as int,
            ),
            final(self)@.index.grown_towards(old(self)@.index.entries.len() as int, ids@.to_set()),
    {
        proof {
            self.lemma_parts();
            self.lemma_wf();
        }
        let bound = store.next_commit_id().0;
        proof {
            assert forall|k: int| 0 <= k < ids@.len() implies (#[trigger] ids@[k]).0 < bound by {
                assert(store@.has_commit(ids@[k]));
            }
        }
        let ghost repo0 = self@;
        index_ancestors(&mut self.index, store, ids, bound);
        proof {
            self.lemma_parts();
            repo0.index.lemma_extended(self.index@);
            assert forall|k: CommitId| #[trigger]
                self@.table.fates.contains_key(k) implies self@.indexed(
                self@.table.fates[k].ids(),
            ) by {
                assert(repo0.indexed(repo0.table.fates[k].ids()));
                let list = repo0.table.fates[k].ids();
                assert forall|j: int| 0 <= j < list.len() implies self@.index.has_id(
                    #[trigger] list[j],
                ) by {
                    assert(repo0.index.has_id(list[j]));
                }
            }
            assert forall|h: CommitId| self@.view.heads.contains(h) implies #[trigger] self@.index.has_id(
                h,
            ) by {
                assert(repo0.index.has_id(h));
            }
            assert forall|k: int| 0 <= k < ids@.len() implies self@.index.has_id(
                #[trigger] ids@[k],
            ) by {
                assert(store@.has_commit(ids@[k]));
            }
        }
    }

    /// Makes the given commits, all indexed, heads; no head gives way.
    fn insert_heads(&mut self, ids: &Vec<CommitId>)
        requires
            old(self).wf(),
            old(self)@.index.has_all(ids@),
        ensures
            final(self).wf(),
            final(self)@ == old(self)@.with_view(
                old(self)@.view.with_heads(old(self)@.view.heads.union(ids@.to_set())),
            ),
    {
        let ghost repo0 = self@;
        proof {
            self.lemma_parts();
            self.lemma_wf();
            assert(ids@.take(0) =~= Seq::<CommitId>::empty());
            assert(Seq::<CommitId>::empty().to_set() =~= Set::<CommitId>::empty());
            assert(repo0.view.heads.union(Set::<CommitId>::empty()) =~= repo0.view.heads);
        }
        let mut i: usize = 0;
        while i < ids.len()
            invariant
                self.wf(),
                i <= ids@.len(),
                repo0.index.has_all(ids@),
                self@ == repo0.with_view(
                    repo0.view.with_heads(repo0.view.heads.union(ids@.take(i as int).to_set())),
                ),
            decreases ids@.len() - i,
        {
            let ghost before = self@;
            proof {
                self.lemma_parts();
                self.lemma_wf();
            }
            self.view.add_head(ids[i]);
            proof {
                self.view.lemma_canonical();
                self.lemma_parts();
                crate::idlist::lemma_take_contains(ids@, i as int);
                assert(repo0.view.heads.union(ids@.take(i + 1).to_set())
                    =~= repo0.view.heads.union(ids@.take(i as int).to_set()).insert(
                    ids@[i as int],
                ));
                assert forall|h: CommitId| self@.view.heads.contains(h) implies #[trigger] self@.index.has_id(
                    h,
                ) by {
                    if h != ids@[i as int] {
                        assert(before.view.heads.contains(h));
                    } else {
                        assert(repo0.index.has_id(ids@[i as int]));
                    }
                }
                assert(self@.wf());
            }
            i += 1;
        }
        proof {
            assert(ids@.take(ids@.len() as int) =~= ids@);
        }
    }

    /// Makes every commit visible that a local bookmark points at: the hidden ones are
    /// indexed with their ancestors and become heads; no head gives way.
    ///
    /// Fails, and changes nothing, if one of them is not stored.
    pub fn reveal_bookmarked(&mut self, store: &Store) -> (r: Result<(), StoreError>)
        requires
            old(self).wf(),
            store@.wf(),
        ensures
            final(self).wf(),
            match r {
                Ok(_) => {
                    &&& forall|h: CommitId|
                        old(self)@.hidden_targets().contains(h) ==> store@.has_commit(h)
                    &&& final(self)@.base == old(self)@.base
                    &&& final(self)@.table == old(self)@.table
                    &&& old(self)@.index.extended_by(final(self)@.index)
                    &&& entries_from_store(
                        final(self)@.index,
                        old(self)@.index.entries.len() as int,
                        store@,
                        store@.commits.len() as int,
                    )
                    &&& final(self)@.index.grown_towards(
                        old(self)@.index.entries.len() as int,
                        old(self)@.hidden_targets(),
                    )
                    &&& final(self)@.view == old(self)@.view.with_heads(
                        old(self)@.view.heads.union(old(self)@.hidden_targets()),
                    )
                },
                Err(e) => {
                    &&& final(self)@ == old(self)@
                    &&& exists|h: CommitId|
                        old(self)@.hidden_targets().contains(h) && !store@.has_commit(h) && e
                            == StoreError::CommitNotFound(h)
                },
            },
    {
        let hidden = self.hidden_targets();
        match store.first_missing(&hidden) {
            Some(h) => {
                proof {
                    assert(hidden@.to_set().contains(h));
                }
                return Err(StoreError::CommitNotFound(h));
            },
            None => {},
        }
        proof {
            assert forall|h: CommitId| old(self)@.hidden_targets().contains(
                h,
            ) implies store@.has_commit(h) by {
                assert(hidden@.to_set().contains(h));
                let k = choose|k: int| 0 <= k < hidden@.len() && hidden@[k] == h;
                assert(store@.has_commit(hidden@[k]));
            }
        }
        self.index_towards(store, &hidden);
        self.insert_heads(&hidden);
        Ok(())
    }
}

impl Transaction {
    /// The view that is written when the transaction is committed: the view of the
    /// overlay, with the hidden commits that a local bookmark points at among its heads.
    pub open spec fn committed_view(&self) -> ViewModel {
        self.repo_model().view.with_heads(
            self.repo_model().view.heads.union(self.repo_model().hidden_targets()),
        )
    }

    /// The operation that is written when the transaction is committed.
    pub open spec fn committed_operation(
        &self,
        op_store: OpStoreModel,
        description: Seq<char>,
        timestamp: Timestamp,
        actor: Seq<char>,
    ) -> OperationModel {
        OperationModel {
            view_id: op_store.view_id_of(self.committed_view()),
            parents: seq![self.base_operation_id()],
            description,
            timestamp,
            actor,
        }
    }

    /// Ends the transaction.
    ///
    /// If the view is the one that the transaction started from, nothing is written and
    /// the repository underneath is returned. Otherwise the view is written, with every
    /// commit that a local bookmark points at made visible, and then an operation that
    /// follows the one underneath and leads to that view; the repository as of the new
    /// operation is returned.
    ///
    /// Fails, and writes nothing, if a fate has not been propagated to the descendants, or
    /// if a hidden commit that a local bookmark points at is not stored.
    pub fn commit_with_metadata(
        self,
        store: &Store,
        op_store: &mut OpStore,
        metadata: OperationMetadata,
    ) -> (r: Result<Repo, TransactionError>)
        requires
            self.wf(),
            store@.wf(),
            old(op_store).wf(),
        ensures
            final(op_store).wf(),
            match r {
                Ok(repo) => {
                    &&& repo.wf()
                    &&& self.repo_model().table == TableModel::empty()
                    &&& if self.repo_model().has_changes() {
                        let view = self.committed_view();
                        let operation = self.committed_operation(
                            old(op_store)@,
                            metadata.description@,
                            metadata.timestamp,
                            metadata.actor@,
                        );
                        let with_view = old(op_store)@.with_view(view);
                        &&& repo.view_model() == view
                        &&& repo.view_id() == operation.view_id
                        &&& repo.operation_model() == operation
                        &&& repo.operation_id() == with_view.operation_id_of(operation)
                        &&& final(op_store)@ == with_view.with_operation(operation)
                        &&& self.repo_model().index.extended_by(repo.index_model())
                        &&& forall|h: CommitId|
                            self.repo_model().hidden_targets().contains(h) ==> store@.has_commit(h)
                    } else {
                        &&& final(op_store)@ == old(op_store)@
                        &&& repo.operation_id() == self.base_operation_id()
                        &&& repo.view_model() == self.repo_model().base
                    }
                },
                Err(e) => {
                    &&& final(op_store)@ == old(op_store)@
                    &&& if self.repo_model().table != TableModel::empty() {
                        e == TransactionError::UnpropagatedRewrites
                    } else {
                        self.repo_model().has_changes() && exists|h: CommitId|
                            self.repo_model().hidden_targets().contains(h) && !store@.has_commit(h)
                                && e == TransactionError::Store(StoreError::CommitNotFound(h))
                    }
                },
            },
    {
        let mut mut_repo = self.mut_repo;
        if mut_repo.has_rewrites() {
            return Err(TransactionError::UnpropagatedRewrites);
        }
        if !mut_repo.has_changes() {
            return Ok(self.base);
        }
        match mut_repo.reveal_bookmarked(store) {
            Ok(_) => {},
            Err(e) => {
                return Err(TransactionError::Store(e));
            },
        }
        proof {
            mut_repo.lemma_wf();
        }
        let (view_data, index) = mut_repo.consume();
        let view_id = op_store.write_view(&view_data);
        let mut parents: Vec<OperationId> = Vec::new();
        parents.push(*self.base.operation().id());
        proof {
            assert(parents@ =~= seq![self.base_operation_id()]);
        }
        let data = OperationData { view_id, parents, metadata };
        let operation_id = op_store.write_operation(&data);
        let repo = Repo {
            operation: Operation::new(operation_id, data),
            view: View::new(view_id, view_data),
            index,
        };
        Ok(repo)
    }

    /// Ends the transaction like [`Self::commit_with_metadata`], with the description and
    /// nothing else recorded about the operation.
    pub fn commit(self, store: &Store, op_store: &mut OpStore, description: &str) -> (r: Result<
        Repo,
        TransactionError,
    >)
        requires
            self.wf(),
            store@.wf(),
            old(op_store).wf(),
        ensures
            final(op_store).wf(),
            match r {
                Ok(repo) => {
                    &&& repo.wf()
                    &&& self.repo_model().table == TableModel::empty()
                    &&& if self.repo_model().has_changes() {
                        let view = self.committed_view();
                        let operation = self.committed_operation(
                            old(op_store)@,
                            description@,
                            Timestamp { millis_since_epoch: 0, tz_offset: 0 },
                            Seq::empty(),
                        );
                        let with_view = old(op_store)@.with_view(view);
                        &&& repo.view_model() == view
                        &&& repo.view_id() == operation.view_id
                        &&& repo.operation_model() == operation
                        &&& repo.operation_id() == with_view.operation_id_of(operation)
                        &&& final(op_store)@ == with_view.with_operation(operation)
                        &&& self.repo_model().index.extended_by(repo.index_model())
                        &&& forall|h: CommitId|
                            self.repo_model().hidden_targets().contains(h) ==> store@.has_commit(h)
                    } else {
                        &&& final(op_store)@ == old(op_store)@
                        &&& repo.operation_id() == self.base_operation_id()
                        &&& repo.view_model() == self.repo_model().base
                    }
                },
                Err(e) => {
                    &&& final(op_store)@ == old(op_store)@
                    &&& if self.repo_model().table != TableModel::empty() {
                        e == TransactionError::UnpropagatedRewrites
                    } else {
                        self.repo_model().has_changes() && exists|h: CommitId|
                            self.repo_model().hidden_targets().contains(h) && !store@.has_commit(h)
                                && e == TransactionError::Store(StoreError::CommitNotFound(h))
                    }
                },
            },
    {
        let metadata = OperationMetadata {
            description: description.to_owned(),
            timestamp: Timestamp { millis_since_epoch: 0, tz_offset: 0 },
            actor: String::new(),
        };
        self.commit_with_metadata(store, op_store, metadata)
    }
}

} // verus!
