//! The mutable overlay of one transaction: a working copy of the view, the index as it
//! grows, and the fates of the commits that were replaced.

use crate::backend::{Commit, Store, StoreError, StoreModel};
use crate::id::CommitId;
use crate::idlist::{contains_id, copy_ids, lemma_push_unique, push_unique_id};
use crate::index::{Index, IndexModel};
use crate::model::Model;
use crate::op_store::{ViewData, ViewModel};
use crate::refs::{RefTarget, RemoteRef, WorkspaceId};
use crate::rewrite::{Fate, FateModel, RewriteTable, TableModel};
use vstd::prelude::*;

verus! {

/// The model of a [`MutableRepo`].
pub struct RepoModel {
    /// The view that the transaction started from.
    pub base: ViewModel,
    /// The view as the transaction has it now.
    pub view: ViewModel,
    pub index: IndexModel,
    pub table: TableModel,
}

impl RepoModel {
    /// Whether every commit of the list is indexed.
    pub open spec fn indexed(self, ids: Seq<CommitId>) -> bool {
        self.index.has_all(ids)
    }

    /// The index and the table are well formed, the view is canonical, and every
    /// replacement that the table names is indexed.
    pub open spec fn wf(self) -> bool {
        &&& self.index.wf()
        &&& self.table.wf()
        &&& self.view.canonical()
        &&& self.base.canonical()
        &&& forall|k: CommitId| #[trigger]
            self.table.fates.contains_key(k) ==> self.indexed(self.table.fates[k].ids())
        &&& forall|h: CommitId| self.view.heads.contains(h) ==> #[trigger] self.index.has_id(h)
    }

    /// Whether the commit is a head or an ancestor of one.
    pub open spec fn visible(self, id: CommitId) -> bool {
        exists|h: CommitId| self.view.heads.contains(h) && #[trigger] self.index.is_ancestor(id, h)
    }

    /// Whether the view differs from the one that the transaction started from.
    pub open spec fn has_changes(self) -> bool {
        self.view != self.base
    }

    /// The state with another view.
    pub open spec fn with_view(self, view: ViewModel) -> RepoModel {
        RepoModel { view, ..self }
    }

    /// The state after the commit was given the fate, provided that every replacement is
    /// indexed; else the state itself.
    pub open spec fn with_fate(self, id: CommitId, fate: FateModel) -> RepoModel {
        if self.indexed(fate.ids()) {
            RepoModel { table: self.table.record(id, fate), ..self }
        } else {
            self
        }
    }

    /// Whether the table takes the fate for the commit.
    pub open spec fn takes_fate(self, id: CommitId, fate: FateModel) -> bool {
        self.indexed(fate.ids()) && !(self.table.settle(id, fate) is Unchanged)
    }

    /// Recording a fate keeps the state well formed.
    pub proof fn lemma_with_fate(self, id: CommitId, fate: FateModel)
        requires
            self.wf(),
        ensures
            self.with_fate(id, fate).wf(),
    {
        let next = self.with_fate(id, fate);
        if self.indexed(fate.ids()) {
            self.table.lemma_record_wf(id, fate);
            self.table.lemma_settle(id, fate);
            let settled = self.table.settle(id, fate);
            if !(settled is Unchanged) {
                crate::rewrite::lemma_expand(fate.ids(), self.table.moves());
                crate::idlist::lemma_remove_all(self.table.resolve(fate.ids()), id);
                assert forall|x: CommitId| settled.ids().contains(x) implies self.index.has_id(
                    x,
                ) by {
                    assert(self.table.resolve(fate.ids()).contains(x));
                    let i = choose|i: int|
                        0 <= i < fate.ids().len() && if self.table.moves().contains_key(
                            #[trigger] fate.ids()[i],
                        ) {
                            self.table.moves()[fate.ids()[i]].contains(x)
                        } else {
                            fate.ids()[i] == x
                        };
                    let p = fate.ids()[i];
                    if self.table.moves().contains_key(p) {
                        let list = self.table.fates[p].ids();
                        let j = choose|j: int| 0 <= j < list.len() && list[j] == x;
                        assert(self.indexed(self.table.fates[p].ids()));
                        assert(self.index.has_id(list[j]));
                    } else {
                        assert(self.index.has_id(fate.ids()[i]));
                    }
                }
                assert forall|k: CommitId| #[trigger]
                    next.table.fates.contains_key(k) implies next.indexed(
                    next.table.fates[k].ids(),
                ) by {
                    let list = next.table.fates[k].ids();
                    assert forall|j: int| 0 <= j < list.len() implies next.index.has_id(
                        #[trigger] list[j],
                    ) by {
                        let x = list[j];
                        assert(list.contains(x));
                        if k == id {
                        } else {
                            let before = self.table.fates[k];
                            assert(self.indexed(before.ids()));
                            if settled.moves() && before.ids().contains(id) {
                                if before is Rewritten {
                                } else {
                                    let moves = map![id => settled.ids()];
                                    crate::rewrite::lemma_expand(before.ids(), moves);
                                    crate::rewrite::lemma_expand_nonempty(before.ids(), moves);
                                    let ids = crate::rewrite::expand(before.ids(), moves);
                                    assert(list == ids);
                                    let i = choose|i: int|
                                        0 <= i < before.ids().len() && if moves.contains_key(
                                            #[trigger] before.ids()[i],
                                        ) {
                                            moves[before.ids()[i]].contains(x)
                                        } else {
                                            before.ids()[i] == x
                                        };
                                    if !moves.contains_key(before.ids()[i]) {
                                        assert(self.index.has_id(before.ids()[i]));
                                    }
                                }
                            } else {
                                assert(self.index.has_id(before.ids()[j]));
                            }
                        }
                    }
                }
            }
        }
    }
}

/// The mutable overlay of one transaction.
pub struct MutableRepo {
    pub(crate) base_view: ViewData,
    pub(crate) view: ViewData,
    pub(crate) index: Index,
    pub(crate) table: RewriteTable,
}

impl View for MutableRepo {
    type V = RepoModel;

    closed spec fn view(&self) -> RepoModel {
        RepoModel {
            base: self.base_view@,
            view: self.view@,
            index: self.index@,
            table: self.table@,
        }
    }
}

impl MutableRepo {
    /// The representation invariant; it implies that the model is well formed.
    pub closed spec fn wf(&self) -> bool {
        &&& self.base_view.wf()
        &&& self.view.wf()
        &&& self.table.wf()
        &&& self@.wf()
    }

    /// A well-formed overlay has a well-formed model.
    pub proof fn lemma_wf(&self)
        requires
            self.wf(),
        ensures
            self@.wf(),
    {
    }

    /// The model and the invariant in terms of the parts.
    pub(crate) proof fn lemma_parts(&self)
        ensures
            self@ == (RepoModel {
                base: self.base_view@,
                view: self.view@,
                index: self.index@,
                table: self.table@,
            }),
            self.wf() == (self.base_view.wf() && self.view.wf() && self.table.wf() && self@.wf()),
    {
    }

    /// An overlay over the given view and index, without fates.
    pub fn new(base_view: &ViewData, index: Index) -> (repo: MutableRepo)
        requires
            base_view.wf(),
            index@.wf(),
            forall|h: CommitId| base_view@.heads.contains(h) ==> #[trigger] index@.has_id(h),
        ensures
            repo.wf(),
            repo@ == (RepoModel {
                base: base_view@,
                view: base_view@,
                index: index@,
                table: TableModel::empty(),
            }),
    {
        proof {
            base_view.lemma_canonical();
        }
        MutableRepo {
            base_view: base_view.dup(),
            view: base_view.dup(),
            index,
            table: RewriteTable::new(),
        }
    }

    /// The view as the transaction has it now.
    pub fn view_data(&self) -> (view: &ViewData)
        requires
            self.wf(),
        ensures
            view.wf(),
            view@ == self@.view,
    {
        &self.view
    }

    /// The view that the transaction started from.
    pub fn base_view(&self) -> (view: &ViewData)
        requires
            self.wf(),
        ensures
            view.wf(),
            view@ == self@.base,
    {
        &self.base_view
    }

    /// The index as the transaction has it now.
    pub fn index(&self) -> (index: &Index)
        requires
            self.wf(),
        ensures
            index@.wf(),
            index@ == self@.index,
    {
        &self.index
    }

    /// Takes the overlay apart into its view and its index.
    pub fn consume(self) -> (parts: (ViewData, Index))
        requires
            self.wf(),
        ensures
            parts.0.wf(),
            parts.0@ == self@.view,
            parts.1@ == self@.index,
            parts.1@.wf(),
    {
        (self.view, self.index)
    }

    /// Whether the view differs from the one that the transaction started from.
    pub fn has_changes(&self) -> (b: bool)
        requires
            self.wf(),
        ensures
            b == self@.has_changes(),
    {
        !self.view.same(&self.base_view)
    }

    /// Whether a commit has a fate that has not been propagated to its descendants.
    pub fn has_rewrites(&self) -> (b: bool)
        requires
            self.wf(),
        ensures
            b == (self@.table != TableModel::empty()),
    {
        !self.table.is_empty()
    }

    /// The fate of the commit within this transaction.
    pub fn fate(&self, id: CommitId) -> (f: Fate)
        requires
            self.wf(),
        ensures
            f@ == self@.table.fate(id),
    {
        self.table.fate(id)
    }

    /// The commits that are current in place of the given ones, each once: a rewritten
    /// commit gives way to its replacement, an abandoned one to its parents.
    pub fn new_parents(&self, old_ids: &Vec<CommitId>) -> (r: Vec<CommitId>)
        requires
            self.wf(),
        ensures
            r@ == self@.table.resolve(old_ids@),
    {
        self.table.resolve(old_ids)
    }

    /// Removes the id from the heads; the commit and its ancestors stay in the index.
    pub fn remove_head(&mut self, id: CommitId)
        requires
            old(self).wf(),
        ensures
            final(self).wf(),
            final(self)@ == old(self)@.with_view(old(self)@.view.without_head(id)),
    {
        self.view.remove_head(id);
        proof {
            self.view.lemma_canonical();
        }
    }

    /// Points the local bookmark at the target; an absent target removes the bookmark.
    pub fn set_local_bookmark_target(&mut self, name: &str, target: RefTarget)
        requires
            old(self).wf(),
            target.valid(),
        ensures
            final(self).wf(),
            final(self)@ == old(self)@.with_view(
                old(self)@.view.with_local_bookmark(name@, target@),
            ),
    {
        self.view.set_local_bookmark_target(name, target);
        proof {
            self.view.lemma_canonical();
        }
    }

    /// The target of the local bookmark, absent if there is none.
    pub fn get_local_bookmark(&self, name: &str) -> (t: RefTarget)
        requires
            self.wf(),
        ensures
            t@ == self@.view.local_bookmark(name@),
            t.valid(),
    {
        self.view.get_local_bookmark(name)
    }

    /// Points the tag at the target; an absent target removes the tag.
    pub fn set_tag_target(&mut self, name: &str, target: RefTarget)
        requires
            old(self).wf(),
            target.valid(),
        ensures
            final(self).wf(),
            final(self)@ == old(self)@.with_view(old(self)@.view.with_tag(name@, target@)),
    {
        self.view.set_tag_target(name, target);
        proof {
            self.view.lemma_canonical();
        }
    }

    /// Records the bookmark as seen on the remote; an absent reference removes the record.
    pub fn set_remote_bookmark(&mut self, name: &str, remote: &str, new_ref: RemoteRef)
        requires
            old(self).wf(),
            new_ref.valid(),
        ensures
            final(self).wf(),
            final(self)@ == old(self)@.with_view(
                old(self)@.view.with_remote_bookmark(name@, remote@, new_ref@),
            ),
    {
        self.view.set_remote_bookmark(name, remote, new_ref);
        proof {
            self.view.lemma_canonical();
        }
    }

    /// The bookmark as last seen on the remote, absent if it was not.
    pub fn get_remote_bookmark(&self, name: &str, remote: &str) -> (r: RemoteRef)
        requires
            self.wf(),
        ensures
            r@ == self@.view.remote_bookmark(name@, remote@),
            r.valid(),
    {
        self.view.get_remote_bookmark(name, remote)
    }

    /// Moves everything seen on one remote under another name.
    pub fn rename_remote(&mut self, old_name: &str, new_name: &str)
        requires
            old(self).wf(),
        ensures
            final(self).wf(),
            final(self)@ == old(self)@.with_view(
                old(self)@.view.with_remote_renamed(old_name@, new_name@),
            ),
    {
        self.view.rename_remote(old_name, new_name);
        proof {
            self.view.lemma_canonical();
        }
    }

    /// Whether every commit of the list is indexed.
    pub fn all_indexed(&self, ids: &Vec<CommitId>) -> (b: bool)
        requires
            self.wf(),
        ensures
            b == self@.indexed(ids@),
    {
        let mut i: usize = 0;
        while i < ids.len()
            invariant
                self.wf(),
                i <= ids@.len(),
                forall|j: int| 0 <= j < i ==> self@.index.has_id(#[trigger] ids@[j]),
            decreases ids@.len() - i,
        {
            if !self.index.has_id(ids[i]) {
                return false;
            }
            i += 1;
        }
        true
    }

    /// Gives the commit a fate, and lets the fates that named it follow.
    ///
    /// Returns whether the fate was taken. It is not where a replacement is not indexed,
    /// or where nothing is left of the fate once it is resolved against the table and the
    /// commit itself is taken out; the state then stays as it was.
    pub fn record_fate(&mut self, id: CommitId, fate: &Fate) -> (taken: bool)
        requires
            old(self).wf(),
        ensures
            final(self).wf(),
            final(self)@ == old(self)@.with_fate(id, fate@),
            taken == old(self)@.takes_fate(id, fate@),
    {
        let ids = fate.ids();
        if !self.all_indexed(&ids) {
            return false;
        }
        proof {
            self@.lemma_with_fate(id, fate@);
        }
        self.table.record(id, fate)
    }

    /// Records that `old_id` was rewritten to `new_id`; a later record for the same commit
    /// replaces an earlier one.
    pub fn set_rewritten_commit(&mut self, old_id: CommitId, new_id: CommitId) -> (taken: bool)
        requires
            old(self).wf(),
        ensures
            final(self).wf(),
            final(self)@ == old(self)@.with_fate(old_id, FateModel::Rewritten(new_id)),
            taken == old(self)@.takes_fate(old_id, FateModel::Rewritten(new_id)),
    {
        self.record_fate(old_id, &Fate::Rewritten(new_id))
    }

    /// Records that `old_id` was rewritten to several candidates, among which nobody has
    /// chosen; its descendants will not be rebased.
    pub fn set_divergent_rewrite(&mut self, old_id: CommitId, new_ids: Vec<CommitId>) -> (taken:
        bool)
        requires
            old(self).wf(),
        ensures
            final(self).wf(),
            final(self)@ == old(self)@.with_fate(old_id, FateModel::Divergent(new_ids@)),
            taken == old(self)@.takes_fate(old_id, FateModel::Divergent(new_ids@)),
    {
        self.record_fate(old_id, &Fate::Divergent(new_ids))
    }

    /// Records that the commit was abandoned in favour of the given parents.
    pub fn record_abandoned_commit_with_parents(
        &mut self,
        old_id: CommitId,
        new_parent_ids: Vec<CommitId>,
    ) -> (taken: bool)
        requires
            old(self).wf(),
        ensures
            final(self).wf(),
            final(self)@ == old(self)@.with_fate(old_id, FateModel::Abandoned(new_parent_ids@)),
            taken == old(self)@.takes_fate(old_id, FateModel::Abandoned(new_parent_ids@)),
    {
        self.record_fate(old_id, &Fate::Abandoned(new_parent_ids))
    }

    /// Records that the commit was abandoned: its descendants move onto its parents.
    pub fn record_abandoned_commit(&mut self, commit: &Commit) -> (taken: bool)
        requires
            old(self).wf(),
        ensures
            final(self).wf(),
            final(self)@ == old(self)@.with_fate(
                commit.id,
                FateModel::Abandoned(commit.data@.parents),
            ),
            taken == old(self)@.takes_fate(commit.id, FateModel::Abandoned(commit.data@.parents)),
    {
        self.record_fate(commit.id, &Fate::Abandoned(copy_ids(&commit.data.parents)))
    }
}

/// Whether the entries of `index` from `from` on are stored commits with ids below
/// `bound`, each with the parents that the store has for it.
pub open spec fn entries_from_store(index: IndexModel, from: int, store: StoreModel, bound: int) -> bool {
    forall|p: int|
        from <= p < index.entries.len() ==> {
            &&& (#[trigger] index.entries[p]).id.0 < bound
            &&& store.has_commit(index.entries[p].id)
            &&& index.entries[p].parents == store.commit(index.entries[p].id).parents
        }
}

/// Indexes the commits of the list that are stored, each after its ancestors.
///
/// Every id of the list lies below `bound`, which bounds the depth of the walk.
pub fn index_ancestors(index: &mut Index, store: &Store, ids: &Vec<CommitId>, bound: u64)
    requires
        old(index)@.wf(),
        store@.wf(),
        forall|k: int| 0 <= k < ids@.len() ==> (#[trigger] ids@[k]).0 < bound,
    ensures
        final(index)@.wf(),
        old(index)@.extended_by(final(index)@),
        forall|k: int|
            0 <= k < ids@.len() && store@.has_commit(#[trigger] ids@[k]) ==> final(index)@.has_id(
                ids@[k],
            ),
        entries_from_store(final(index)@, old(index)@.entries.len() as int, store@, bound as int),
        final(index)@.grown_towards(old(index)@.entries.len() as int, ids@.to_set()),
    decreases bound,
{
    let mut i: usize = 0;
    while i < ids.len()
        invariant
            i <= ids@.len(),
            old(index)@.wf(),
            index@.wf(),
            store@.wf(),
            forall|k: int| 0 <= k < ids@.len() ==> (#[trigger] ids@[k]).0 < bound,
            old(index)@.extended_by(index@),
            forall|k: int|
                0 <= k < i && store@.has_commit(#[trigger] ids@[k]) ==> index@.has_id(ids@[k]),
            entries_from_store(index@, old(index)@.entries.len() as int, store@, bound as int),
            index@.grown_towards(old(index)@.entries.len() as int, ids@.to_set()),
        decreases ids@.len() - i,
    {
        let id = ids[i];
        let ghost before = index@;
        proof {
            assert(ids@.to_set().contains(ids@[i as int]));
        }
        if store.has_commit(id) && !index.has_id(id) {
            let parents = store.parents_of(id);
            proof {
                assert forall|k: int| 0 <= k < parents@.len() implies (#[trigger] parents@[k]).0
                    < id.0 by {
                    assert(store@.commits[id.0 as int].parents[k].0 < id.0);
                }
            }
            index_ancestors(index, store, parents, id.0);
            let ghost mid = index@;
            proof {
                assert forall|k: int| 0 <= k < parents@.len() implies mid.has_id(
                    #[trigger] parents@[k],
                ) by {
                    assert(store@.commits[id.0 as int].parents[k].0 < id.0);
                    assert(store@.has_commit(parents@[k]));
                }
                assert(!mid.has_id(id)) by {
                    if mid.has_id(id) {
                        let p = mid.position(id);
                        if p < before.entries.len() {
                            assert(mid.entries[p] == before.entries[p]);
                        } else {
                            assert(mid.entries[p].id.0 < id.0);
                        }
                    }
                }
                mid.lemma_with_commit(id, parents@);
                before.lemma_extended(mid);
            }
            let added = index.add_commit(id, parents);
            proof {
                let after = index@;
                assert(added);
                assert(mid.extended_by(after));
                before.lemma_extended_trans(mid, after);
                old(index)@.lemma_extended_trans(before, after);
                mid.lemma_extended(after);
                old(index)@.lemma_extended(before);
                assert(after.entries[mid.entries.len() as int] == mid.entry_for(id, parents@));
                assert forall|p: int| old(index)@.entries.len() <= p < after.entries.len() implies {
                    &&& (#[trigger] after.entries[p]).id.0 < bound
                    &&& store@.has_commit(after.entries[p].id)
                    &&& after.entries[p].parents == store@.commit(after.entries[p].id).parents
                } by {
                    if p < before.entries.len() {
                        assert(after.entries[p] == before.entries[p]);
                    } else if p < mid.entries.len() {
                        assert(after.entries[p] == mid.entries[p]);
                        assert(mid.entries[p].id.0 < id.0);
                    }
                }
                assert forall|k: int|
                    0 <= k < i + 1 && store@.has_commit(#[trigger] ids@[k]) implies after.has_id(
                    ids@[k],
                ) by {
                    if k < i {
                        assert(before.has_id(ids@[k]));
                    }
                }
                before.lemma_extended(after);
                after.lemma_position(mid.entries.len() as int);
                after.lemma_ancestor_refl(id);
                assert forall|p: int| old(index)@.entries.len() <= p < after.entries.len() implies after.reaches_one(
                    (#[trigger] after.entries[p]).id,
                    ids@.to_set(),
                ) by {
                    let x = after.entries[p].id;
                    if p < before.entries.len() {
                        assert(after.entries[p] == before.entries[p]);
                        assert(before.reaches_one(before.entries[p].id, ids@.to_set()));
                        let t = choose|t: CommitId|
                            ids@.to_set().contains(t) && #[trigger] before.is_ancestor(x, t);
                        assert(after.is_ancestor(x, t));
                    } else if p < mid.entries.len() {
                        assert(after.entries[p] == mid.entries[p]);
                        assert(mid.reaches_one(mid.entries[p].id, parents@.to_set()));
                        let t = choose|t: CommitId|
                            parents@.to_set().contains(t) && #[trigger] mid.is_ancestor(x, t);
                        assert(after.is_ancestor(x, t));
                        let k = choose|k: int| 0 <= k < parents@.len() && parents@[k] == t;
                        after.lemma_ancestor_of_parent(x, mid.entries.len() as int, k);
                        assert(after.is_ancestor(x, id));
                    } else {
                        assert(after.is_ancestor(x, id));
                    }
                }
            }
        }
        i += 1;
    }
}

impl RepoModel {
    /// The heads after a commit became one: the commit, and the heads that are not among
    /// its ancestors.
    pub open spec fn heads_with(self, index: IndexModel, id: CommitId) -> Set<CommitId> {
        Set::new(
            |h: CommitId| h == id || (self.view.heads.contains(h) && !index.is_ancestor(h, id)),
        )
    }

    /// What adding a head does to a state in which the commit was not visible: the index
    /// grows by the commit and those of its ancestors that were missing, as the store has
    /// them, and the commit replaces the heads among its ancestors.
    pub open spec fn head_added(self, store: StoreModel, id: CommitId, next: RepoModel) -> bool {
        &&& next.base == self.base
        &&& next.table == self.table
        &&& next.index.wf()
        &&& self.index.extended_by(next.index)
        &&& next.index.has_id(id)
        &&& entries_from_store(next.index, self.index.entries.len() as int, store, id.0 + 1)
        &&& next.index.grown_towards(self.index.entries.len() as int, set![id])
        &&& next.view == self.view.with_heads(self.heads_with(next.index, id))
    }
}

impl MutableRepo {
    /// Whether the commit is a head or an ancestor of one.
    pub fn is_visible(&self, id: CommitId) -> (b: bool)
        requires
            self.wf(),
        ensures
            b == self@.visible(id),
    {
        let heads = self.view.heads();
        let mut i: usize = 0;
        while i < heads.len()
            invariant
                self.wf(),
                heads@.to_set() == self@.view.heads,
                i <= heads@.len(),
                forall|j: int| 0 <= j < i ==> !self@.index.is_ancestor(id, #[trigger] heads@[j]),
            decreases heads@.len() - i,
        {
            if self.index.is_ancestor(id, heads[i]) {
                proof {
                    assert(heads@.contains(heads@[i as int]));
                    assert(self@.view.heads.contains(heads@[i as int]));
                }
                return true;
            }
            i += 1;
        }
        proof {
            if self@.visible(id) {
                let h = choose|h: CommitId|
                    self@.view.heads.contains(h) && #[trigger] self@.index.is_ancestor(id, h);
                assert(heads@.to_set().contains(h));
                let j = choose|j: int| 0 <= j < heads@.len() && heads@[j] == h;
                assert(!self@.index.is_ancestor(id, heads@[j]));
            }
        }
        false
    }

    /// Makes an indexed commit a head in place of the heads among its ancestors.
    pub(crate) fn replace_heads(&mut self, id: CommitId)
        requires
            old(self).wf(),
            old(self)@.index.has_id(id),
        ensures
            final(self).wf(),
            final(self)@ == old(self)@.with_view(
                old(self)@.view.with_heads(old(self)@.heads_with(old(self)@.index, id)),
            ),
    {
        let mut kept: Vec<CommitId> = Vec::new();
        let heads = self.view.heads();
        let mut i: usize = 0;
        while i < heads.len()
            invariant
                self.wf(),
                heads@.to_set() == self@.view.heads,
                heads@.no_duplicates(),
                i <= heads@.len(),
                kept@.no_duplicates(),
                forall|x: CommitId|
                    kept@.contains(x) <==> (exists|j: int|
                        0 <= j < i && #[trigger] heads@[j] == x) && !self@.index.is_ancestor(x, id),
            decreases heads@.len() - i,
        {
            let h = heads[i];
            let ghost before = kept@;
            if !self.index.is_ancestor(h, id) {
                proof {
                    if before.contains(h) {
                        let j = choose|j: int| 0 <= j < i && #[trigger] heads@[j] == h;
                        assert(heads@[j] == heads@[i as int]);
                    }
                    lemma_push_unique(before, h);
                }
                kept.push(h);
                proof {
                    assert(kept@ == crate::idlist::push_unique(before, h));
                }
            }
            proof {
                assert forall|x: CommitId|
                    kept@.contains(x) <==> (exists|j: int|
                        0 <= j < i + 1 && #[trigger] heads@[j] == x) && !self@.index.is_ancestor(
                        x,
                        id,
                    ) by {
                    if before.contains(x) {
                        let j = choose|j: int| 0 <= j < i && #[trigger] heads@[j] == x;
                        assert(heads@[j] == x);
                    }
                    if (exists|j: int| 0 <= j < i + 1 && #[trigger] heads@[j] == x)
                        && !self@.index.is_ancestor(x, id) {
                        let j = choose|j: int| 0 <= j < i + 1 && #[trigger] heads@[j] == x;
                        if j < i {
                            assert(heads@[j] == x);
                        } else {
                            assert(x == h);
                        }
                    }
                }
            }
            i += 1;
        }
        let ghost filtered = kept@;
        push_unique_id(&mut kept, id);
        proof {
            lemma_push_unique(filtered, id);
            let target = self@.heads_with(self@.index, id);
            assert forall|x: CommitId| kept@.to_set().contains(x) == target.contains(x) by {
                if filtered.contains(x) {
                    let j = choose|j: int| 0 <= j < heads@.len() && #[trigger] heads@[j] == x;
                    assert(heads@.contains(x));
                    assert(heads@.to_set().contains(x));
                }
                if self@.view.heads.contains(x) && !self@.index.is_ancestor(x, id) {
                    assert(heads@.to_set().contains(x));
                    let j = choose|j: int| 0 <= j < heads@.len() && heads@[j] == x;
                    assert(heads@[j] == x);
                    assert(filtered.contains(x));
                }
            }
            assert(kept@.to_set() =~= target);
        }
        self.view.set_heads(&kept);
        proof {
            self.view.lemma_canonical();
            assert forall|h: CommitId| self@.view.heads.contains(h) implies #[trigger] self@.index.has_id(
                h,
            ) by {
                if h != id {
                    assert(old(self)@.view.heads.contains(h));
                }
            }
        }
    }

    /// Makes the commit visible.
    ///
    /// Nothing changes if the commit is a head or an ancestor of one. Otherwise the commit
    /// and those of its ancestors that the index does not know are indexed, as the store
    /// has them, and the commit becomes a head in place of the heads among its ancestors.
    /// Fails, and changes nothing, if the commit is not visible and not stored.
    pub fn add_head(&mut self, store: &Store, commit: &Commit) -> (r: Result<(), StoreError>)
        requires
            old(self).wf(),
            store@.wf(),
        ensures
            final(self).wf(),
            old(self)@.visible(commit.id) ==> r is Ok && final(self)@ == old(self)@,
            !old(self)@.visible(commit.id) ==> match r {
                Ok(_) => store@.has_commit(commit.id) && old(self)@.head_added(
                    store@,
                    commit.id,
                    final(self)@,
                ),
                Err(e) => !store@.has_commit(commit.id) && e == StoreError::CommitNotFound(
                    commit.id,
                ) && final(self)@ == old(self)@,
            },
    {
        let id = commit.id;
        if self.is_visible(id) {
            return Ok(());
        }
        if !store.has_commit(id) {
            return Err(StoreError::CommitNotFound(id));
        }
        let mut ids: Vec<CommitId> = Vec::new();
        ids.push(id);
        let ghost before = self@;
        index_ancestors(&mut self.index, store, &ids, id.0 + 1);
        proof {
            assert(ids@ =~= seq![id]);
            assert(ids@.to_set() =~= set![id]) by {
                assert forall|x: CommitId| ids@.to_set().contains(x) == set![id].contains(x) by {
                    if ids@.contains(x) {
                        let j = choose|j: int| 0 <= j < ids@.len() && ids@[j] == x;
                    }
                    if x == id {
                        assert(ids@[0] == x);
                    }
                }
            }
            assert(store@.has_commit(ids@[0]));
            before.index.lemma_extended(self.index@);
            assert forall|k: CommitId| #[trigger]
                self@.table.fates.contains_key(k) implies self@.indexed(
                self@.table.fates[k].ids(),
            ) by {
                assert(before.indexed(before.table.fates[k].ids()));
                let list = before.table.fates[k].ids();
                assert forall|j: int| 0 <= j < list.len() implies self@.index.has_id(
                    #[trigger] list[j],
                ) by {
                    assert(before.index.has_id(list[j]));
                }
            }
            assert(self.wf());
        }
        let ghost mid = self@;
        self.replace_heads(id);
        proof {
            assert(self@.view == before.view.with_heads(before.heads_with(self@.index, id)));
        }
        Ok(())
    }
}

} // verus!
