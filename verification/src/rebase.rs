//! Propagating the fates of commits to their descendants.
//!
//! Every descendant of a commit that was rewritten or abandoned is written anew on top of
//! the commits that are current, ancestors first. Descendants of a commit that was
//! rewritten divergently stay where they are: nobody has chosen yet what they should move
//! onto.

use crate::backend::{Commit, CommitData, CommitModel, Store, StoreError, StoreModel};
use crate::id::{CommitId, TreeId};
use crate::assoc::AssocMap;
use crate::idlist::{contains_id, copy_ids, ids_equal, lemma_push_unique, push_unique_id};
use crate::model::Model;
use crate::refs::{RefTarget, WorkspaceId};
use crate::index::{Index, IndexModel};
use crate::op_store::ViewModel;
use crate::repo::{MutableRepo, RepoModel};
use crate::rewrite::{expand, lemma_expand, lemma_expand_nonempty, Fate, FateModel, TableModel};
use vstd::prelude::*;

verus! {

/// How a descendant gets its tree when it moves onto other parents.
#[derive(Clone, Copy, Debug, PartialEq, Eq, Structural)]
pub enum RebaseMode {
    /// The change that the commit made to its old parents is applied to the new ones.
    Merge,
    /// The commit keeps its tree as it is.
    Reparent,
}

/// One commit that was written anew.
#[derive(Debug)]
pub struct RebasedCommit {
    pub old_id: CommitId,
    pub new_id: CommitId,
    pub new_parent_ids: Vec<CommitId>,
}

/// The model of a [`RebasedCommit`].
pub struct RebasedModel {
    pub old_id: CommitId,
    pub new_id: CommitId,
    pub new_parent_ids: Seq<CommitId>,
}

impl View for RebasedCommit {
    type V = RebasedModel;

    open spec fn view(&self) -> RebasedModel {
        RebasedModel {
            old_id: self.old_id,
            new_id: self.new_id,
            new_parent_ids: self.new_parent_ids@,
        }
    }
}

/// The models of a list of rebased commits.
pub open spec fn rebased_models(list: Seq<RebasedCommit>) -> Seq<RebasedModel> {
    Seq::new(list.len(), |i: int| list[i]@)
}

/// The store, the overlay and the commits written so far, while descendants are rebased.
pub struct RebaseState {
    pub store: StoreModel,
    pub repo: RepoModel,
    pub done: Seq<RebasedModel>,
}

impl StoreModel {
    /// The tree of a commit that moves from `old_parents` onto `new_parents`, and the
    /// store after the tree has been made.
    pub open spec fn rebased_tree(
        self,
        mode: RebaseMode,
        tree: TreeId,
        old_parents: Seq<CommitId>,
        new_parents: Seq<CommitId>,
    ) -> (StoreModel, TreeId) {
        match mode {
            RebaseMode::Reparent => (self, tree),
            RebaseMode::Merge => {
                let (first, old_base) = self.merge_parents(old_parents);
                let (second, new_base) = first.merge_parents(new_parents);
                (
                    second.after_merge(old_base, tree, new_base),
                    second.merged_tree(old_base, tree, new_base),
                )
            },
        }
    }
}

impl CommitModel {
    /// The commit that takes the place of this one, stored under `old_id`, on other
    /// parents: the same change by the same people, without a signature.
    pub open spec fn rebased(self, old_id: CommitId, parents: Seq<CommitId>, tree: TreeId) -> CommitModel {
        CommitModel {
            parents,
            predecessors: seq![old_id],
            tree,
            change_id: self.change_id,
            description: self.description,
            author: self.author,
            committer: self.committer,
            secure_sig: None,
        }
    }
}

impl RebaseState {
    /// The state after the commit `id` has been looked at: if its parents are all current
    /// nothing changes, else it is written anew on the current ones, indexed, made a head
    /// and recorded as rewritten.
    pub open spec fn step(self, id: CommitId, mode: RebaseMode) -> RebaseState {
        let commit = self.store.commit(id);
        let parents = self.repo.table.resolve(commit.parents);
        if parents == commit.parents {
            self
        } else {
            let (store, tree) = self.store.rebased_tree(mode, commit.tree, commit.parents, parents);
            let new_id = store.next_commit_id();
            RebaseState {
                store: store.with_commit(commit.rebased(id, parents, tree)),
                repo: RepoModel {
                    index: self.repo.index.with_commit(new_id, parents),
                    table: self.repo.table.record(id, FateModel::Rewritten(new_id)),
                    view: self.repo.view.with_head(new_id),
                    base: self.repo.base,
                },
                done: self.done.push(RebasedModel { old_id: id, new_id, new_parent_ids: parents }),
            }
        }
    }

    /// The state after the commits of the schedule have been looked at in their order.
    pub open spec fn run(self, schedule: Seq<CommitId>, mode: RebaseMode) -> RebaseState
        decreases schedule.len(),
    {
        if schedule.len() == 0 {
            self
        } else {
            self.run(schedule.drop_last(), mode).step(schedule.last(), mode)
        }
    }
}

impl IndexModel {
    /// The commits of the list whose generation number is `generation`, in their order.
    pub open spec fn of_generation(self, ids: Seq<CommitId>, generation: nat) -> Seq<CommitId>
        decreases ids.len(),
    {
        if ids.len() == 0 {
            Seq::empty()
        } else {
            let rest = self.of_generation(ids.drop_last(), generation);
            if self.generation(ids.last()) == generation {
                rest.push(ids.last())
            } else {
                rest
            }
        }
    }

    /// The commits of the list with a generation number below `generations`, by
    /// generation number and, within one generation, in their order.
    pub open spec fn by_generation(self, ids: Seq<CommitId>, generations: nat) -> Seq<CommitId>
        decreases generations,
    {
        if generations == 0 {
            Seq::empty()
        } else {
            self.by_generation(ids, (generations - 1) as nat) + self.of_generation(
                ids,
                (generations - 1) as nat,
            )
        }
    }
}

impl RepoModel {
    /// The commits that have a fate.
    pub open spec fn touched(self) -> Set<CommitId> {
        self.table.fates.dom()
    }

    /// The commits onto whose replacements nothing can be rebased without a choice.
    pub open spec fn blockers(self) -> Set<CommitId> {
        Set::new(|id: CommitId| self.table.blocks(id))
    }

    /// Whether the commit is to be looked at: it descends from a commit with a fate, has
    /// none itself, and descends from no commit that blocks.
    pub open spec fn is_candidate(self, id: CommitId) -> bool {
        &&& self.index.descends_from(self.touched(), id)
        &&& !self.table.fates.contains_key(id)
        &&& !self.index.descends_from(self.blockers(), id)
    }

    /// The candidates among the first `n` entries of the index, in the order of the index.
    pub open spec fn candidates_upto(self, n: nat) -> Seq<CommitId>
        decreases n,
    {
        if n == 0 {
            Seq::empty()
        } else {
            let rest = self.candidates_upto((n - 1) as nat);
            let id = self.index.entries[n - 1].id;
            if self.is_candidate(id) {
                rest.push(id)
            } else {
                rest
            }
        }
    }

    /// The candidates, in the order of the index.
    pub open spec fn candidates(self) -> Seq<CommitId> {
        self.candidates_upto(self.index.entries.len())
    }

    /// The order in which descendants are looked at: the candidates, ancestors first, by
    /// generation number.
    pub open spec fn schedule(self) -> Seq<CommitId> {
        self.index.by_generation(self.candidates(), self.index.entries.len())
    }

    /// The commit that a working copy at `id` moves to: the first successor, if the commit
    /// has a fate.
    pub open spec fn wc_successor(self, id: CommitId) -> CommitId {
        if self.table.fates.contains_key(id) && self.table.fates[id].ids().len() > 0 {
            self.table.fates[id].ids()[0]
        } else {
            id
        }
    }

    /// The heads before the heads among the ancestors of others are left out: the heads
    /// without a fate, and the parents without a fate of the commits with one.
    pub open spec fn head_candidates(self) -> Set<CommitId> {
        Set::new(
            |h: CommitId|
                !self.table.fates.contains_key(h) && (self.view.heads.contains(h) || exists|
                    k: CommitId,
                |
                    self.table.fates.contains_key(k) && self.index.has_id(k) && (
                    #[trigger] self.index.parents(k).contains(h))),
        )
    }

    /// The heads once every fate has been propagated: the candidates that are no ancestor
    /// of another candidate.
    pub open spec fn settled_heads(self) -> Set<CommitId> {
        Set::new(
            |h: CommitId|
                self.head_candidates().contains(h) && !exists|other: CommitId|
                    self.head_candidates().contains(other) && other != h
                        && #[trigger] self.index.is_ancestor(h, other),
        )
    }

    /// The view once every fate has been propagated: local bookmarks and working copies
    /// follow the commits they named, heads with a fate give way.
    pub open spec fn settled_view(self) -> ViewModel {
        ViewModel {
            heads: self.settled_heads(),
            wc_commits: Map::new(
                |w: Seq<char>| self.view.wc_commits.contains_key(w),
                |w: Seq<char>| self.wc_successor(self.view.wc_commits[w]),
            ),
            local_bookmarks: Map::new(
                |n: Seq<char>| self.view.local_bookmarks.contains_key(n),
                |n: Seq<char>| expand(self.view.local_bookmarks[n], self.table.successors()),
            ),
            tags: self.view.tags,
            remotes: self.view.remotes,
        }
    }

    /// The state once every fate has been propagated and forgotten.
    pub open spec fn settled(self) -> RepoModel {
        RepoModel {
            view: self.settled_view(),
            table: TableModel::empty(),
            index: self.index,
            base: self.base,
        }
    }

    /// Whether the store has every indexed commit, with the parents that the index has.
    pub open spec fn index_in_store(self, store: StoreModel) -> bool {
        forall|p: int|
            0 <= p < self.index.entries.len() ==> {
                &&& store.has_commit((#[trigger] self.index.entries[p]).id)
                &&& store.commit(self.index.entries[p].id).parents == self.index.entries[p].parents
            }
    }

    /// Whether `e` is the error for the first indexed commit that the store has not, or
    /// has with other parents.
    pub open spec fn index_fault(self, store: StoreModel, e: StoreError) -> bool {
        exists|p: int|
            0 <= p < self.index.entries.len() && {
                let id = (#[trigger] self.index.entries[p]).id;
                &&& forall|q: int|
                    0 <= q < p ==> {
                        &&& store.has_commit((#[trigger] self.index.entries[q]).id)
                        &&& store.commit(self.index.entries[q].id).parents
                            == self.index.entries[q].parents
                    }
                &&& if store.has_commit(id) {
                    store.commit(id).parents != self.index.entries[p].parents && e
                        == StoreError::Mismatch(id)
                } else {
                    e == StoreError::CommitNotFound(id)
                }
            }
    }

    /// The store, the overlay and the rebased commits after the descendants of every
    /// commit with a fate have been rebased. Nothing changes where no commit has a fate.
    pub open spec fn rebased(self, store: StoreModel, mode: RebaseMode) -> RebaseState {
        let start = RebaseState { store, repo: self, done: Seq::empty() };
        if self.table == TableModel::empty() {
            start
        } else {
            let end = start.run(self.schedule(), mode);
            RebaseState { store: end.store, repo: end.repo.settled(), done: end.done }
        }
    }
}

impl RepoModel {
    /// Every indexed commit that is to be looked at is among the candidates.
    pub proof fn lemma_candidates_complete(self, n: nat, p: int)
        requires
            self.index.wf(),
            0 <= p < n <= self.index.entries.len(),
            self.is_candidate(self.index.entries[p].id),
        ensures
            self.candidates_upto(n).contains(self.index.entries[p].id),
        decreases n,
    {
        let all = self.candidates_upto(n);
        if p == n - 1 {
            assert(all[all.len() - 1] == self.index.entries[p].id);
        } else {
            self.lemma_candidates_complete((n - 1) as nat, p);
            let rest = self.candidates_upto((n - 1) as nat);
            let w = choose|w: int| 0 <= w < rest.len() && rest[w] == self.index.entries[p].id;
            assert(all[w] == rest[w]);
        }
    }

    /// Every candidate is indexed, and the candidates are exactly the indexed commits that
    /// are to be looked at.
    pub proof fn lemma_candidates(self, n: nat)
        requires
            self.index.wf(),
            n <= self.index.entries.len(),
        ensures
            forall|j: int|
                0 <= j < self.candidates_upto(n).len() ==> self.index.has_id(
                    #[trigger] self.candidates_upto(n)[j],
                ) && self.is_candidate(self.candidates_upto(n)[j]),
        decreases n,
    {
        if n > 0 {
            self.lemma_candidates((n - 1) as nat);
            self.index.lemma_position(n - 1);
            let rest = self.candidates_upto((n - 1) as nat);
            let all = self.candidates_upto(n);
            assert forall|j: int| 0 <= j < all.len() implies self.index.has_id(#[trigger] all[j])
                && self.is_candidate(all[j]) by {
                if j < rest.len() {
                    assert(all[j] == rest[j]);
                }
            }
        }
    }
}

impl MutableRepo {
    /// Whether the store has every indexed commit, with the parents that the index has;
    /// if not, the error for the first indexed commit that it has not.
    pub fn check_index(&self, store: &Store) -> (r: Result<(), StoreError>)
        requires
            self.wf(),
        ensures
            match r {
                Ok(_) => self@.index_in_store(store@),
                Err(e) => !self@.index_in_store(store@) && self@.index_fault(store@, e),
            },
    {
        proof {
            self.lemma_parts();
        }
        let mut p: usize = 0;
        while p < self.index.len()
            invariant
                self.wf(),
                self@.index == self.index@,
                p <= self.index@.entries.len(),
                forall|q: int|
                    0 <= q < p ==> {
                        &&& store@.has_commit((#[trigger] self.index@.entries[q]).id)
                        &&& store@.commit(self.index@.entries[q].id).parents
                            == self.index@.entries[q].parents
                    },
            decreases self.index@.entries.len() - p,
        {
            let id = self.index.id_at(p);
            if !store.has_commit(id) {
                proof {
                    assert(!store@.has_commit(self@.index.entries[p as int].id));
                }
                return Err(StoreError::CommitNotFound(id));
            }
            if !ids_equal(store.parents_of(id), self.index.parents_at(p)) {
                proof {
                    assert(store@.commit(self@.index.entries[p as int].id).parents
                        != self@.index.entries[p as int].parents);
                }
                return Err(StoreError::Mismatch(id));
            }
            p += 1;
        }
        Ok(())
    }

    /// The commits onto whose replacements nothing can be rebased without a choice.
    pub fn blockers(&self) -> (r: Vec<CommitId>)
        requires
            self.wf(),
        ensures
            r@.to_set() == self@.blockers(),
    {
        proof {
            self.lemma_parts();
        }
        let keys = self.table.keys();
        let mut out: Vec<CommitId> = Vec::new();
        let mut i: usize = 0;
        while i < keys.len()
            invariant
                self.wf(),
                self.table.wf(),
                self@.table == self.table@,
                keys@.to_set() == self.table@.fates.dom(),
                i <= keys@.len(),
                forall|x: CommitId|
                    out@.contains(x) <==> self@.table.blocks(x) && exists|j: int|
                        0 <= j < i && #[trigger] keys@[j] == x,
            decreases keys@.len() - i,
        {
            let k = keys[i];
            let ghost before = out@;
            if self.table.blocks(k) {
                out.push(k);
            }
            proof {
                assert forall|x: CommitId|
                    out@.contains(x) <==> self@.table.blocks(x) && exists|j: int|
                        0 <= j < i + 1 && #[trigger] keys@[j] == x by {
                    if out@.contains(x) {
                        let j = choose|j: int| 0 <= j < out@.len() && out@[j] == x;
                        if j < before.len() {
                            assert(before[j] == x);
                            assert(before.contains(x));
                            let q = choose|q: int| 0 <= q < i && #[trigger] keys@[q] == x;
                            assert(keys@[q] == x);
                        } else {
                            assert(keys@[i as int] == x);
                        }
                    }
                    if self@.table.blocks(x) && exists|j: int|
                        0 <= j < i + 1 && #[trigger] keys@[j] == x {
                        let j = choose|j: int| 0 <= j < i + 1 && #[trigger] keys@[j] == x;
                        if j < i {
                            assert(keys@[j] == x);
                            assert(before.contains(x));
                            let q = choose|q: int| 0 <= q < before.len() && before[q] == x;
                            assert(out@[q] == x);
                        } else {
                            assert(out@[out@.len() - 1] == x);
                        }
                    }
                }
            }
            i += 1;
        }
        proof {
            assert forall|x: CommitId| out@.to_set().contains(x) == self@.blockers().contains(
                x,
            ) by {
                if self@.table.blocks(x) {
                    assert(self.table@.fates.contains_key(x));
                    assert(keys@.to_set().contains(x));
                    let j = choose|j: int| 0 <= j < keys@.len() && keys@[j] == x;
                    assert(keys@[j] == x);
                }
            }
            assert(out@.to_set() =~= self@.blockers());
        }
        out
    }

    /// The commits that are to be looked at, in the order of the index.
    pub fn candidates(&self) -> (r: Vec<CommitId>)
        requires
            self.wf(),
        ensures
            r@ == self@.candidates(),
            forall|j: int| 0 <= j < r@.len() ==> self@.index.has_id(#[trigger] r@[j]),
    {
        proof {
            self.lemma_parts();
            self.lemma_wf();
        }
        let keys = self.table.keys();
        let blockers = self.blockers();
        let touched_marks = self.index.mark_descendants(&keys);
        let blocked_marks = self.index.mark_descendants(&blockers);
        let mut out: Vec<CommitId> = Vec::new();
        let mut p: usize = 0;
        while p < self.index.len()
            invariant
                self.wf(),
                self.table.wf(),
                self@.index == self.index@,
                self@.table == self.table@,
                self@.index.wf(),
                keys@.to_set() == self@.touched(),
                blockers@.to_set() == self@.blockers(),
                touched_marks@.len() == self.index@.entries.len(),
                blocked_marks@.len() == self.index@.entries.len(),
                forall|i: int|
                    0 <= i < touched_marks@.len() ==> (#[trigger] touched_marks@[i])
                        == self.index@.reaches(keys@.to_set(), i),
                forall|i: int|
                    0 <= i < blocked_marks@.len() ==> (#[trigger] blocked_marks@[i])
                        == self.index@.reaches(blockers@.to_set(), i),
                p <= self.index@.entries.len(),
                out@ == self@.candidates_upto(p as nat),
            decreases self.index@.entries.len() - p,
        {
            let id = self.index.id_at(p);
            proof {
                self@.index.lemma_position(p as int);
            }
            if touched_marks[p] && !self.table.has_fate(id) && !blocked_marks[p] {
                out.push(id);
            }
            p += 1;
        }
        proof {
            self@.lemma_candidates(self@.index.entries.len());
        }
        out
    }

    /// The order in which descendants are looked at.
    pub fn schedule(&self) -> (r: Vec<CommitId>)
        requires
            self.wf(),
        ensures
            r@ == self@.schedule(),
    {
        proof {
            self.lemma_parts();
            self.lemma_wf();
        }
        let candidates = self.candidates();
        order_by_generation(&self.index, &candidates)
    }
}

/// Adds to `out` the commits of the list whose generation number is `generation`.
fn push_level(index: &Index, out: &mut Vec<CommitId>, ids: &Vec<CommitId>, generation: u64)
    requires
        index@.wf(),
        index@.has_all(ids@),
    ensures
        final(out)@ == old(out)@ + index@.of_generation(ids@, generation as nat),
{
    let mut j: usize = 0;
    proof {
        assert(ids@.take(0) =~= Seq::<CommitId>::empty());
        assert(out@ + Seq::<CommitId>::empty() =~= out@);
    }
    while j < ids.len()
        invariant
            index@.wf(),
            index@.has_all(ids@),
            j <= ids@.len(),
            out@ == old(out)@ + index@.of_generation(ids@.take(j as int), generation as nat),
        decreases ids@.len() - j,
    {
        let id = ids[j];
        proof {
            assert(index@.has_id(ids@[j as int]));
            assert(ids@.take(j + 1).drop_last() =~= ids@.take(j as int));
            assert(ids@.take(j + 1).last() == id);
        }
        match index.generation_number(id) {
            Some(g) => {
                if g == generation {
                    out.push(id);
                    proof {
                        let lv = index@.of_generation(ids@.take(j as int), generation as nat);
                        assert(out@ =~= old(out)@ + lv.push(id));
                    }
                }
            },
            None => {},
        }
        j += 1;
    }
    proof {
        assert(ids@.take(ids@.len() as int) =~= ids@);
    }
}

/// The commits of the list, all indexed, by generation number and, within one generation,
/// in their order.
pub fn order_by_generation(index: &Index, ids: &Vec<CommitId>) -> (r: Vec<CommitId>)
    requires
        index@.wf(),
        index@.has_all(ids@),
    ensures
        r@ == index@.by_generation(ids@, index@.entries.len()),
{
    let count = index.len();
    let mut out: Vec<CommitId> = Vec::new();
    let mut g: usize = 0;
    while g < count
        invariant
            index@.wf(),
            index@.has_all(ids@),
            count == index@.entries.len(),
            g <= count,
            out@ == index@.by_generation(ids@, g as nat),
        decreases count - g,
    {
        push_level(index, &mut out, ids, g as u64);
        g += 1;
    }
    out
}

/// Whether the store has every indexed commit.
pub open spec fn indexed_in_store(repo: RepoModel, store: StoreModel) -> bool {
    forall|x: CommitId| #[trigger] repo.index.has_id(x) ==> store.has_commit(x)
}

/// Whether `later` has every commit of `earlier`, unchanged.
pub open spec fn commits_kept(earlier: StoreModel, later: StoreModel) -> bool {
    &&& earlier.commits.len() <= later.commits.len()
    &&& forall|i: int|
        0 <= i < earlier.commits.len() ==> (#[trigger] later.commits[i]) == earlier.commits[i]
}

impl RepoModel {
    /// The commits that are current in place of stored and indexed ones are stored and
    /// indexed, and there is at least one of them.
    pub proof fn lemma_resolved_parents(self, store: StoreModel, parents: Seq<CommitId>)
        requires
            self.wf(),
            indexed_in_store(self, store),
            parents.len() > 0,
            self.index.has_all(parents),
        ensures
            self.table.resolve(parents).len() > 0,
            self.index.has_all(self.table.resolve(parents)),
            store.has_all(self.table.resolve(parents)),
    {
        let moves = self.table.moves();
        let resolved = self.table.resolve(parents);
        lemma_expand(parents, moves);
        lemma_expand_nonempty(parents, moves);
        assert forall|k: int| 0 <= k < resolved.len() implies self.index.has_id(
            #[trigger] resolved[k],
        ) && store.has_commit(resolved[k]) by {
            let x = resolved[k];
            assert(resolved.contains(x));
            let i = choose|i: int|
                0 <= i < parents.len() && if moves.contains_key(#[trigger] parents[i]) {
                    moves[parents[i]].contains(x)
                } else {
                    parents[i] == x
                };
            let p = parents[i];
            if moves.contains_key(p) {
                let list = self.table.fates[p].ids();
                let j = choose|j: int| 0 <= j < list.len() && list[j] == x;
                assert(self.indexed(self.table.fates[p].ids()));
                assert(self.index.has_id(list[j]));
            } else {
                assert(self.index.has_id(parents[i]));
            }
        }
    }
}

/// Makes the tree of a commit that moves from `old_parents` onto `new_parents`.
fn make_rebased_tree(
    store: &mut Store,
    mode: RebaseMode,
    tree: TreeId,
    old_parents: &Vec<CommitId>,
    new_parents: &Vec<CommitId>,
) -> (r: TreeId)
    requires
        old(store)@.wf(),
        old(store)@.has_all(old_parents@),
        old(store)@.has_all(new_parents@),
    ensures
        final(store)@.wf(),
        final(store)@.commits == old(store)@.commits,
        (final(store)@, r) == old(store)@.rebased_tree(mode, tree, old_parents@, new_parents@),
{
    match mode {
        RebaseMode::Reparent => tree,
        RebaseMode::Merge => {
            let old_base = store.merged_parents_tree(old_parents);
            proof {
                old(store)@.lemma_merge_parents(old_parents@);
                assert forall|k: int| 0 <= k < new_parents@.len() implies store@.has_commit(
                    #[trigger] new_parents@[k],
                ) by {
                    assert(old(store)@.has_commit(new_parents@[k]));
                }
            }
            let ghost first = store@;
            let new_base = store.merged_parents_tree(new_parents);
            proof {
                first.lemma_merge_parents(new_parents@);
            }
            store.merge_trees(old_base, tree, new_base)
        },
    }
}

/// Writes the commit that takes the place of `commit` on other parents.
fn write_rebased(store: &mut Store, commit: &Commit, parents: &Vec<CommitId>, tree: TreeId) -> (r:
    CommitId)
    requires
        old(store)@.wf(),
        parents@.len() > 0,
        old(store)@.has_all(parents@),
    ensures
        final(store)@.wf(),
        r == old(store)@.next_commit_id(),
        final(store)@ == old(store)@.with_commit(commit.data@.rebased(commit.id, parents@, tree)),
        commits_kept(old(store)@, final(store)@),
        !old(store)@.has_commit(r),
        final(store)@.has_commit(r),
        forall|x: CommitId| old(store)@.has_commit(x) ==> final(store)@.has_commit(x),
{
    let mut predecessors: Vec<CommitId> = Vec::new();
    predecessors.push(commit.id);
    let new_data = CommitData {
        parents: copy_ids(parents),
        predecessors,
        tree,
        change_id: commit.data.change_id,
        description: commit.data.description.clone(),
        author: commit.data.author.dup(),
        committer: commit.data.committer.dup(),
        secure_sig: None,
    };
    proof {
        assert(new_data@.predecessors =~= seq![commit.id]);
        assert(new_data@ == commit.data@.rebased(commit.id, parents@, tree));
        old(store)@.lemma_first_missing(parents@);
    }
    match store.write_commit(new_data) {
        Ok(new_id) => new_id,
        Err(_) => CommitId(0),
    }
}

impl MutableRepo {
    /// Takes in the commit `new_id`, written in place of `id` on the given parents: it is
    /// indexed, becomes a head, and `id` is recorded as rewritten to it.
    fn adopt(&mut self, id: CommitId, new_id: CommitId, parents: &Vec<CommitId>)
        requires
            old(self).wf(),
            !old(self)@.index.has_id(new_id),
            old(self)@.index.has_all(parents@),
        ensures
            final(self).wf(),
            final(self)@ == (RepoModel {
                index: old(self)@.index.with_commit(new_id, parents@),
                table: old(self)@.table.record(id, FateModel::Rewritten(new_id)),
                view: old(self)@.view.with_head(new_id),
                base: old(self)@.base,
            }),
            old(self)@.index.extended_by(final(self)@.index),
            forall|x: CommitId| #[trigger]
                final(self)@.index.has_id(x) ==> old(self)@.index.has_id(x) || x == new_id,
    {
        proof {
            self.lemma_parts();
            self.lemma_wf();
        }
        let ghost repo0 = self@;
        proof {
            repo0.index.lemma_with_commit(new_id, parents@);
        }
        let added = self.index.add_commit(new_id, parents);
        self.view.add_head(new_id);
        proof {
            self.view.lemma_canonical();
            self.lemma_parts();
            let mid = self@;
            repo0.index.lemma_extended(mid.index);
            assert forall|k: CommitId| #[trigger] mid.table.fates.contains_key(k) implies mid.indexed(
                mid.table.fates[k].ids(),
            ) by {
                assert(repo0.indexed(repo0.table.fates[k].ids()));
                let list = repo0.table.fates[k].ids();
                assert forall|j: int| 0 <= j < list.len() implies mid.index.has_id(
                    #[trigger] list[j],
                ) by {
                    assert(repo0.index.has_id(list[j]));
                }
            }
            assert forall|h: CommitId| mid.view.heads.contains(h) implies #[trigger] mid.index.has_id(
                h,
            ) by {
                if h != new_id {
                    assert(repo0.view.heads.contains(h));
                    assert(repo0.index.has_id(h));
                }
            }
            assert(mid.wf());
            assert(self.wf());
            assert(mid.indexed(seq![new_id]));
        }
        let taken = self.record_fate(id, &Fate::Rewritten(new_id));
    }

    /// Looks at one descendant: if one of its parents is no longer current, writes it
    /// anew on the current ones, indexes the new commit, makes it a head and records the
    /// rewrite.
    pub(crate) fn rebase_one(
        &mut self,
        store: &mut Store,
        id: CommitId,
        mode: RebaseMode,
        done: &mut Vec<RebasedCommit>,
    )
        requires
            old(self).wf(),
            old(store)@.wf(),
            indexed_in_store(old(self)@, old(store)@),
            old(store)@.has_commit(id),
            old(store)@.commit(id).parents.len() > 0,
            old(self)@.index.has_all(old(store)@.commit(id).parents),
        ensures
            final(self).wf(),
            final(store)@.wf(),
            indexed_in_store(final(self)@, final(store)@),
            commits_kept(old(store)@, final(store)@),
            old(self)@.index.extended_by(final(self)@.index),
            (RebaseState {
                store: final(store)@,
                repo: final(self)@,
                done: rebased_models(final(done)@),
            }) == (RebaseState {
                store: old(store)@,
                repo: old(self)@,
                done: rebased_models(old(done)@),
            }).step(id, mode),
    {
        proof {
            self.lemma_wf();
        }
        let ghost repo0 = self@;
        let ghost store0 = store@;
        let ghost done0 = rebased_models(done@);
        let commit = match store.get_commit(id) {
            Ok(commit) => commit,
            Err(_) => {
                return ;
            },
        };
        let parents = self.new_parents(&commit.data.parents);
        if ids_equal(&parents, &commit.data.parents) {
            return ;
        }
        proof {
            repo0.lemma_resolved_parents(store0, commit.data@.parents);
            assert forall|k: int| 0 <= k < commit.data@.parents.len() implies store0.has_commit(
                #[trigger] commit.data@.parents[k],
            ) by {
                assert(store0.commits[id.0 as int].parents[k].0 < id.0);
            }
        }
        let tree = make_rebased_tree(
            store,
            mode,
            commit.data.tree,
            &commit.data.parents,
            &parents,
        );
        proof {
            assert forall|k: int| 0 <= k < parents@.len() implies store@.has_commit(
                #[trigger] parents@[k],
            ) by {
                assert(store0.has_commit(parents@[k]));
            }
        }
        let ghost store1 = store@;
        let new_id = write_rebased(store, &commit, &parents, tree);
        proof {
            assert(!repo0.index.has_id(new_id)) by {
                if repo0.index.has_id(new_id) {
                    assert(store0.has_commit(new_id));
                }
            }
        }
        self.adopt(id, new_id, &parents);
        done.push(RebasedCommit { old_id: id, new_id, new_parent_ids: parents });
        proof {
            let last = RebasedModel { old_id: id, new_id, new_parent_ids: parents@ };
            assert(rebased_models(done@) =~= done0.push(last));
            assert forall|x: CommitId| #[trigger] self@.index.has_id(x) implies store@.has_commit(
                x,
            ) by {
                if x != new_id {
                    assert(repo0.index.has_id(x));
                    assert(store0.has_commit(x));
                    assert(store1.has_commit(x));
                }
            }
        }
    }
}

/// Whether `x` is an ancestor of another commit of the list.
pub open spec fn dominated(index: IndexModel, ids: Seq<CommitId>, x: CommitId) -> bool {
    exists|j: int| 0 <= j < ids.len() && ids[j] != x && index.is_ancestor(x, #[trigger] ids[j])
}

/// The commits of the list that are no ancestor of another commit of the list.
pub fn maximal(index: &Index, ids: &Vec<CommitId>) -> (r: Vec<CommitId>)
    requires
        index@.wf(),
        ids@.no_duplicates(),
    ensures
        r@.no_duplicates(),
        forall|x: CommitId| r@.contains(x) <==> ids@.contains(x) && !dominated(index@, ids@, x),
{
    let mut out: Vec<CommitId> = Vec::new();
    let mut i: usize = 0;
    while i < ids.len()
        invariant
            index@.wf(),
            ids@.no_duplicates(),
            i <= ids@.len(),
            out@.no_duplicates(),
            forall|x: CommitId|
                out@.contains(x) <==> (exists|q: int| 0 <= q < i && #[trigger] ids@[q] == x)
                    && !dominated(index@, ids@, x),
        decreases ids@.len() - i,
    {
        let x = ids[i];
        let mut beaten = false;
        let mut j: usize = 0;
        while j < ids.len()
            invariant
                index@.wf(),
                j <= ids@.len(),
                beaten == exists|q: int|
                    0 <= q < j && ids@[q] != x && index@.is_ancestor(x, #[trigger] ids@[q]),
            decreases ids@.len() - j,
        {
            let other = ids[j];
            let ghost before = beaten;
            if other != x && index.is_ancestor(x, other) {
                beaten = true;
            }
            proof {
                if before {
                    let q = choose|q: int|
                        0 <= q < j && ids@[q] != x && index@.is_ancestor(x, #[trigger] ids@[q]);
                    assert(0 <= q < j + 1);
                }
                if beaten && !before {
                    assert(ids@[j as int] != x && index@.is_ancestor(x, ids@[j as int]));
                }
                if !beaten {
                    assert forall|q: int| 0 <= q < j + 1 implies !(ids@[q] != x
                        && index@.is_ancestor(x, #[trigger] ids@[q])) by {
                        if q < j {
                        }
                    }
                }
            }
            j += 1;
        }
        let ghost before_out = out@;
        if !beaten {
            proof {
                if before_out.contains(x) {
                    let q = choose|q: int| 0 <= q < i && #[trigger] ids@[q] == x;
                    assert(ids@[q] == ids@[i as int]);
                }
                lemma_push_unique(before_out, x);
            }
            out.push(x);
            proof {
                assert(out@ == crate::idlist::push_unique(before_out, x));
            }
        }
        proof {
            assert(beaten == dominated(index@, ids@, x));
            assert forall|y: CommitId|
                out@.contains(y) <==> (exists|q: int| 0 <= q < i + 1 && #[trigger] ids@[q] == y)
                    && !dominated(index@, ids@, y) by {
                if before_out.contains(y) {
                    let q = choose|q: int| 0 <= q < i && #[trigger] ids@[q] == y;
                    assert(ids@[q] == y);
                }
                if (exists|q: int| 0 <= q < i + 1 && #[trigger] ids@[q] == y) && !dominated(
                    index@,
                    ids@,
                    y,
                ) {
                    let q = choose|q: int| 0 <= q < i + 1 && #[trigger] ids@[q] == y;
                    if q < i {
                        assert(ids@[q] == y);
                    } else {
                        assert(y == x);
                    }
                }
            }
        }
        i += 1;
    }
    proof {
        assert forall|x: CommitId| out@.contains(x) <==> ids@.contains(x) && !dominated(
            index@,
            ids@,
            x,
        ) by {
            if out@.contains(x) {
                let q = choose|q: int| 0 <= q < ids@.len() && #[trigger] ids@[q] == x;
                assert(ids@[q] == x);
            }
            if ids@.contains(x) {
                let q = choose|q: int| 0 <= q < ids@.len() && ids@[q] == x;
                assert(ids@[q] == x);
            }
        }
    }
    out
}

impl MutableRepo {
    /// Adds to `out` the commits of the list that have no fate, each once.
    fn push_without_fate(&self, out: &mut Vec<CommitId>, ids: &Vec<CommitId>)
        requires
            self.wf(),
            old(out)@.no_duplicates(),
        ensures
            final(out)@.no_duplicates(),
            forall|x: CommitId| #[trigger]
                final(out)@.contains(x) <==> old(out)@.contains(x) || (ids@.contains(x)
                    && !self@.table.fates.contains_key(x)),
    {
        proof {
            self.lemma_parts();
            assert(ids@.take(0) =~= Seq::<CommitId>::empty());
        }
        let mut j: usize = 0;
        while j < ids.len()
            invariant
                self.table.wf(),
                self@.table == self.table@,
                j <= ids@.len(),
                out@.no_duplicates(),
                forall|x: CommitId| #[trigger]
                    out@.contains(x) <==> old(out)@.contains(x) || (ids@.take(j as int).contains(x)
                        && !self@.table.fates.contains_key(x)),
            decreases ids@.len() - j,
        {
            let id = ids[j];
            let ghost before = out@;
            proof {
                crate::idlist::lemma_take_contains(ids@, j as int);
                lemma_push_unique(before, id);
            }
            if !self.table.has_fate(id) {
                push_unique_id(out, id);
            }
            j += 1;
        }
        proof {
            assert(ids@.take(ids@.len() as int) =~= ids@);
        }
    }

    /// The heads without a fate, and the parents without a fate of the commits with one.
    pub(crate) fn head_candidates(&self) -> (r: Vec<CommitId>)
        requires
            self.wf(),
        ensures
            r@.no_duplicates(),
            r@.to_set() == self@.head_candidates(),
            self@.index.has_all(r@),
    {
        proof {
            self.lemma_parts();
            self.lemma_wf();
        }
        let mut out: Vec<CommitId> = Vec::new();
        let heads = self.view.heads();
        self.push_without_fate(&mut out, heads);
        let keys = self.table.keys();
        let mut k: usize = 0;
        proof {
            assert forall|x: CommitId| #[trigger]
                out@.contains(x) <==> !self@.table.fates.contains_key(x) && (heads@.contains(x)
                    || parent_of_key(self@.index, keys@, 0, x)) by {
                assert(!Seq::<CommitId>::empty().contains(x));
            }
        }
        while k < keys.len()
            invariant
                self.wf(),
                self@.index == self.index@,
                self@.index.wf(),
                k <= keys@.len(),
                out@.no_duplicates(),
                forall|x: CommitId| #[trigger]
                    out@.contains(x) <==> !self@.table.fates.contains_key(x) && (heads@.contains(x)
                        || parent_of_key(self@.index, keys@, k as int, x)),
            decreases keys@.len() - k,
        {
            let key = keys[k];
            let ghost before = out@;
            proof {
                assert forall|x: CommitId|
                    parent_of_key(self@.index, keys@, k + 1, x) == (parent_of_key(
                        self@.index,
                        keys@,
                        k as int,
                        x,
                    ) || (self@.index.has_id(key) && self@.index.parents(key).contains(x))) by {
                    lemma_parent_of_key_step(self@.index, keys@, k as int, x);
                }
            }
            match self.index.position(key) {
                Some(pos) => {
                    let parents = self.index.parents_at(pos);
                    self.push_without_fate(&mut out, parents);
                    proof {
                        assert(parents@ == self@.index.parents(key));
                    }
                },
                None => {},
            }
            proof {
                assert forall|x: CommitId| #[trigger]
                    out@.contains(x) <==> !self@.table.fates.contains_key(x) && (heads@.contains(x)
                        || parent_of_key(self@.index, keys@, k + 1, x)) by {
                    assert(before.contains(x) <==> !self@.table.fates.contains_key(x) && (
                    heads@.contains(x) || parent_of_key(self@.index, keys@, k as int, x)));
                    assert(parent_of_key(self@.index, keys@, k + 1, x) == (parent_of_key(
                        self@.index,
                        keys@,
                        k as int,
                        x,
                    ) || (self@.index.has_id(key) && self@.index.parents(key).contains(x))));
                }
            }
            k += 1;
        }
        proof {
            let target = self@.head_candidates();
            assert forall|x: CommitId| out@.to_set().contains(x) == target.contains(x) by {
                if out@.contains(x) {
                    if heads@.contains(x) {
                        assert(heads@.to_set().contains(x));
                    } else {
                        let q = choose|q: int|
                            0 <= q < keys@.len() && self@.index.has_id(keys@[q]) && (
                            #[trigger] self@.index.parents(keys@[q])).contains(x);
                        assert(keys@.contains(keys@[q]));
                        assert(keys@.to_set().contains(keys@[q]));
                        assert(self@.index.parents(keys@[q]).contains(x));
                    }
                }
                if target.contains(x) {
                    if self@.view.heads.contains(x) {
                        assert(heads@.to_set().contains(x));
                    } else {
                        let key = choose|key: CommitId|
                            self@.table.fates.contains_key(key) && self@.index.has_id(key) && (
                            #[trigger] self@.index.parents(key).contains(x));
                        assert(keys@.to_set().contains(key));
                        let q = choose|q: int| 0 <= q < keys@.len() && keys@[q] == key;
                        assert(self@.index.parents(keys@[q]).contains(x));
                        assert(parent_of_key(self@.index, keys@, keys@.len() as int, x));
                    }
                }
            }
            assert(out@.to_set() =~= target);
            assert forall|j: int| 0 <= j < out@.len() implies self@.index.has_id(
                #[trigger] out@[j],
            ) by {
                let x = out@[j];
                assert(out@.contains(x));
                assert(out@.to_set().contains(x));
                assert(target.contains(x));
                if self@.view.heads.contains(x) {
                } else {
                    let key = choose|key: CommitId|
                        self@.table.fates.contains_key(key) && self@.index.has_id(key) && (
                        #[trigger] self@.index.parents(key).contains(x));
                    let pos = self@.index.position(key);
                    let list = self@.index.entries[pos].parents;
                    let w = choose|w: int| 0 <= w < list.len() && list[w] == x;
                    let pp = self@.index.entries[pos].positions[w];
                    assert(0 <= pp < pos);
                    assert(self@.index.entries[pp].id == x);
                }
            }
        }
        out
    }
}

/// Whether `x` is a parent of one of the first `k` commits of the list that is indexed.
pub open spec fn parent_of_key(index: IndexModel, keys: Seq<CommitId>, k: int, x: CommitId) -> bool {
    exists|q: int|
        0 <= q < k && index.has_id(keys[q]) && (#[trigger] index.parents(keys[q])).contains(x)
}

/// The parents of the first `k + 1` commits are those of the first `k` and those of the
/// next.
pub proof fn lemma_parent_of_key_step(index: IndexModel, keys: Seq<CommitId>, k: int, x: CommitId)
    requires
        0 <= k < keys.len(),
    ensures
        parent_of_key(index, keys, k + 1, x) == (parent_of_key(index, keys, k, x) || (index.has_id(
            keys[k],
        ) && index.parents(keys[k]).contains(x))),
{
    if parent_of_key(index, keys, k, x) {
        let q = choose|q: int|
            0 <= q < k && index.has_id(keys[q]) && (#[trigger] index.parents(keys[q])).contains(x);
        assert(0 <= q < k + 1 && index.parents(keys[q]).contains(x));
    }
    if index.has_id(keys[k]) && index.parents(keys[k]).contains(x) {
        assert(0 <= k < k + 1 && index.parents(keys[k]).contains(x));
    }
    if parent_of_key(index, keys, k + 1, x) {
        let q = choose|q: int|
            0 <= q < k + 1 && index.has_id(keys[q]) && (#[trigger] index.parents(keys[q])).contains(
                x,
            );
        if q < k {
            assert(index.parents(keys[q]).contains(x));
        }
    }
}

impl MutableRepo {
    /// The local bookmarks once every fate has been propagated.
    fn settled_bookmarks(&self) -> (r: AssocMap<String, RefTarget>)
        requires
            self.wf(),
        ensures
            r.wf(),
            r@ == self@.settled_view().local_bookmarks,
            forall|n: Seq<char>| #[trigger] r@.contains_key(n) ==> r@[n].len() > 0,
    {
        proof {
            self.lemma_parts();
            self.lemma_wf();
        }
        let source = self.view.local_bookmarks();
        let ghost moves = self@.table.successors();
        let mut out: AssocMap<String, RefTarget> = AssocMap::new();
        let mut i: usize = 0;
        while i < source.len()
            invariant
                self.table.wf(),
                self@.table == self.table@,
                self@.wf(),
                moves == self@.table.successors(),
                source.wf(),
                source@ == self@.view.local_bookmarks,
                out.wf(),
                i <= source.spec_len(),
                forall|n: Seq<char>|
                    out@.contains_key(n) <==> exists|q: int|
                        0 <= q < i && #[trigger] source.spec_key(q) == n,
                forall|n: Seq<char>| #[trigger]
                    out@.contains_key(n) ==> out@[n] == expand(source@[n], moves) && out@[n].len()
                        > 0,
            decreases source.spec_len() - i,
        {
            let name = source.key_at(i);
            let target = source.val_at(i);
            let ids = self.table.successors_of(target.added_ids());
            proof {
                source.lemma_entry(i as int);
                lemma_expand(target@, moves);
                assert(target@.len() > 0);
                assert forall|k: CommitId| #[trigger] moves.contains_key(k) implies moves[k].len()
                    > 0 by {
                    assert(self@.table.fates.contains_key(k));
                }
                lemma_expand_nonempty(target@, moves);
            }
            let ghost before = out@;
            out.insert(name.dup(), RefTarget::from_unique(ids));
            proof {
                assert forall|n: Seq<char>|
                    out@.contains_key(n) <==> exists|q: int|
                        0 <= q < i + 1 && #[trigger] source.spec_key(q) == n by {
                    if before.contains_key(n) {
                        let q = choose|q: int| 0 <= q < i && #[trigger] source.spec_key(q) == n;
                        assert(source.spec_key(q) == n);
                    }
                    if n == name@ {
                        assert(source.spec_key(i as int) == n);
                    }
                    if exists|q: int| 0 <= q < i + 1 && #[trigger] source.spec_key(q) == n {
                        let q = choose|q: int| 0 <= q < i + 1 && #[trigger] source.spec_key(q) == n;
                        if q < i {
                            assert(source.spec_key(q) == n);
                        }
                    }
                }
            }
            i += 1;
        }
        proof {
            let target = self@.settled_view().local_bookmarks;
            assert forall|n: Seq<char>| out@.contains_key(n) == target.contains_key(n) by {
                if out@.contains_key(n) {
                    let q = choose|q: int|
                        0 <= q < source.spec_len() && #[trigger] source.spec_key(q) == n;
                    source.lemma_entry(q);
                }
                if source@.contains_key(n) {
                    let q = source.lemma_position(n);
                    assert(source.spec_key(q) == n);
                }
            }
            assert(out@ =~= target);
        }
        out
    }

    /// The commit that a working copy at `id` moves to.
    fn wc_successor(&self, id: CommitId) -> (r: CommitId)
        requires
            self.wf(),
        ensures
            r == self@.wc_successor(id),
    {
        proof {
            self.lemma_parts();
        }
        if self.table.has_fate(id) {
            let ids = self.table.fate(id).ids();
            if ids.len() > 0 {
                ids[0]
            } else {
                id
            }
        } else {
            id
        }
    }

    /// The working-copy commits once every fate has been propagated.
    fn settled_wc_commits(&self) -> (r: AssocMap<WorkspaceId, CommitId>)
        requires
            self.wf(),
        ensures
            r.wf(),
            r@ == self@.settled_view().wc_commits,
    {
        proof {
            self.lemma_parts();
        }
        let source = self.view.wc_commit_ids();
        let mut out: AssocMap<WorkspaceId, CommitId> = AssocMap::new();
        let mut i: usize = 0;
        while i < source.len()
            invariant
                self.wf(),
                source.wf(),
                source@ == self@.view.wc_commits,
                out.wf(),
                i <= source.spec_len(),
                forall|n: Seq<char>|
                    out@.contains_key(n) <==> exists|q: int|
                        0 <= q < i && #[trigger] source.spec_key(q) == n,
                forall|n: Seq<char>| #[trigger]
                    out@.contains_key(n) ==> out@[n] == self@.wc_successor(source@[n]),
            decreases source.spec_len() - i,
        {
            let name = source.key_at(i);
            let id = *source.val_at(i);
            let moved = self.wc_successor(id);
            proof {
                source.lemma_entry(i as int);
            }
            let ghost before = out@;
            out.insert(name.dup(), moved);
            proof {
                assert forall|n: Seq<char>|
                    out@.contains_key(n) <==> exists|q: int|
                        0 <= q < i + 1 && #[trigger] source.spec_key(q) == n by {
                    if before.contains_key(n) {
                        let q = choose|q: int| 0 <= q < i && #[trigger] source.spec_key(q) == n;
                        assert(source.spec_key(q) == n);
                    }
                    if n == name@ {
                        assert(source.spec_key(i as int) == n);
                    }
                    if exists|q: int| 0 <= q < i + 1 && #[trigger] source.spec_key(q) == n {
                        let q = choose|q: int| 0 <= q < i + 1 && #[trigger] source.spec_key(q) == n;
                        if q < i {
                            assert(source.spec_key(q) == n);
                        }
                    }
                }
            }
            i += 1;
        }
        proof {
            let target = self@.settled_view().wc_commits;
            assert forall|n: Seq<char>| out@.contains_key(n) == target.contains_key(n) by {
                if out@.contains_key(n) {
                    let q = choose|q: int|
                        0 <= q < source.spec_len() && #[trigger] source.spec_key(q) == n;
                    source.lemma_entry(q);
                }
                if source@.contains_key(n) {
                    let q = source.lemma_position(n);
                    assert(source.spec_key(q) == n);
                }
            }
            assert(out@ =~= target);
        }
        out
    }

    /// The heads once every fate has been propagated.
    fn settled_heads(&self) -> (r: Vec<CommitId>)
        requires
            self.wf(),
        ensures
            r@.no_duplicates(),
            r@.to_set() == self@.settled_heads(),
            self@.index.has_all(r@),
    {
        proof {
            self.lemma_parts();
            self.lemma_wf();
        }
        let candidates = self.head_candidates();
        let heads = maximal(&self.index, &candidates);
        proof {
            let set = self@.head_candidates();
            let index = self@.index;
            assert forall|x: CommitId| dominated(index, candidates@, x) == (exists|
                other: CommitId,
            |
                set.contains(other) && other != x && #[trigger] index.is_ancestor(x, other)) by {
                if dominated(index, candidates@, x) {
                    let j = choose|j: int|
                        0 <= j < candidates@.len() && candidates@[j] != x && index.is_ancestor(
                            x,
                            #[trigger] candidates@[j],
                        );
                    assert(candidates@.contains(candidates@[j]));
                    assert(candidates@.to_set().contains(candidates@[j]));
                    assert(set.contains(candidates@[j]) && index.is_ancestor(x, candidates@[j]));
                }
                if exists|other: CommitId|
                    set.contains(other) && other != x && #[trigger] index.is_ancestor(x, other) {
                    let other = choose|other: CommitId|
                        set.contains(other) && other != x && #[trigger] index.is_ancestor(x, other);
                    assert(candidates@.to_set().contains(other));
                    let j = choose|j: int| 0 <= j < candidates@.len() && candidates@[j] == other;
                    assert(index.is_ancestor(x, candidates@[j]));
                }
            }
            assert forall|x: CommitId| heads@.to_set().contains(x) == self@.settled_heads().contains(
                x,
            ) by {
                assert(candidates@.to_set().contains(x) == set.contains(x));
            }
            assert(heads@.to_set() =~= self@.settled_heads());
            assert forall|j: int| 0 <= j < heads@.len() implies index.has_id(#[trigger] heads@[j]) by {
                assert(heads@.contains(heads@[j]));
                assert(candidates@.contains(heads@[j]));
                let q = choose|q: int| 0 <= q < candidates@.len() && candidates@[q] == heads@[j];
                assert(index.has_id(candidates@[q]));
            }
        }
        heads
    }

    /// Lets the references follow the fates, lets heads with a fate give way, and forgets
    /// every fate.
    pub(crate) fn settle(&mut self)
        requires
            old(self).wf(),
        ensures
            final(self).wf(),
            final(self)@ == old(self)@.settled(),
    {
        let heads = self.settled_heads();
        let bookmarks = self.settled_bookmarks();
        let wc_commits = self.settled_wc_commits();
        proof {
            self.lemma_parts();
            self.lemma_wf();
        }
        self.view.set_heads(&heads);
        self.view.set_local_bookmarks(bookmarks);
        self.view.set_wc_commit_ids(wc_commits);
        self.table.clear();
        proof {
            self.lemma_parts();
            self.view.lemma_canonical();
            let target = old(self)@.settled();
            assert(self@.view == target.view);
            assert forall|h: CommitId| self@.view.heads.contains(h) implies #[trigger] self@.index.has_id(
                h,
            ) by {
                assert(heads@.to_set().contains(h));
                let j = choose|j: int| 0 <= j < heads@.len() && heads@[j] == h;
                assert(self@.index.has_id(heads@[j]));
            }
        }
    }
}

impl IndexModel {
    /// The commits of one generation have that generation, and every commit of the list
    /// with that generation is among them.
    pub proof fn lemma_of_generation_exact(self, ids: Seq<CommitId>, generation: nat)
        ensures
            forall|j: int|
                0 <= j < self.of_generation(ids, generation).len() ==> self.generation(
                    #[trigger] self.of_generation(ids, generation)[j],
                ) == generation,
            forall|q: int|
                0 <= q < ids.len() && self.generation(#[trigger] ids[q]) == generation
                    ==> self.of_generation(ids, generation).contains(ids[q]),
        decreases ids.len(),
    {
        if ids.len() > 0 {
            let front = ids.drop_last();
            self.lemma_of_generation_exact(front, generation);
            let rest = self.of_generation(front, generation);
            let all = self.of_generation(ids, generation);
            assert forall|j: int| 0 <= j < all.len() implies self.generation(#[trigger] all[j])
                == generation by {
                if j < rest.len() {
                    assert(all[j] == rest[j]);
                }
            }
            assert forall|q: int|
                0 <= q < ids.len() && self.generation(#[trigger] ids[q])
                    == generation implies all.contains(ids[q]) by {
                if q < front.len() {
                    assert(front[q] == ids[q]);
                    assert(rest.contains(front[q]));
                    let w = choose|w: int| 0 <= w < rest.len() && rest[w] == front[q];
                    assert(all[w] == ids[q]);
                } else {
                    assert(all[all.len() - 1] == ids[q]);
                }
            }
        }
    }

    /// Ordering by generation puts lower generations first, leaves out no commit of a
    /// generation below the bound, and takes in none of a generation at or above it.
    pub proof fn lemma_by_generation_sorted(self, ids: Seq<CommitId>, generations: nat)
        ensures
            forall|j: int|
                0 <= j < self.by_generation(ids, generations).len() ==> self.generation(
                    #[trigger] self.by_generation(ids, generations)[j],
                ) < generations,
            forall|i: int, j: int|
                0 <= i < j < self.by_generation(ids, generations).len() ==> self.generation(
                    #[trigger] self.by_generation(ids, generations)[i],
                ) <= self.generation(#[trigger] self.by_generation(ids, generations)[j]),
            forall|q: int|
                0 <= q < ids.len() && self.generation(#[trigger] ids[q]) < generations
                    ==> self.by_generation(ids, generations).contains(ids[q]),
        decreases generations,
    {
        if generations > 0 {
            let g = (generations - 1) as nat;
            self.lemma_by_generation_sorted(ids, g);
            self.lemma_of_generation_exact(ids, g);
            let front = self.by_generation(ids, g);
            let level = self.of_generation(ids, g);
            let all = self.by_generation(ids, generations);
            assert forall|j: int| 0 <= j < all.len() implies self.generation(#[trigger] all[j])
                < generations by {
                if j < front.len() {
                    assert(all[j] == front[j]);
                } else {
                    assert(all[j] == level[j - front.len()]);
                }
            }
            assert forall|i: int, j: int| 0 <= i < j < all.len() implies self.generation(
                #[trigger] all[i],
            ) <= self.generation(#[trigger] all[j]) by {
                if j < front.len() {
                    assert(all[i] == front[i] && all[j] == front[j]);
                } else if i < front.len() {
                    assert(all[i] == front[i]);
                    assert(all[j] == level[j - front.len()]);
                } else {
                    assert(all[i] == level[i - front.len()]);
                    assert(all[j] == level[j - front.len()]);
                }
            }
            assert forall|q: int|
                0 <= q < ids.len() && self.generation(#[trigger] ids[q])
                    < generations implies all.contains(ids[q]) by {
                if self.generation(ids[q]) < g {
                    assert(front.contains(ids[q]));
                    let w = choose|w: int| 0 <= w < front.len() && front[w] == ids[q];
                    assert(all[w] == ids[q]);
                } else {
                    assert(level.contains(ids[q]));
                    let w = choose|w: int| 0 <= w < level.len() && level[w] == ids[q];
                    assert(all[front.len() + w] == ids[q]);
                }
            }
        }
    }

    /// Ordering by generation takes its commits from the list.
    pub proof fn lemma_by_generation(self, ids: Seq<CommitId>, generations: nat)
        ensures
            forall|j: int|
                0 <= j < self.by_generation(ids, generations).len() ==> ids.contains(
                    #[trigger] self.by_generation(ids, generations)[j],
                ),
        decreases generations,
    {
        if generations > 0 {
            let g = (generations - 1) as nat;
            self.lemma_by_generation(ids, g);
            self.lemma_of_generation(ids, g);
            let front = self.by_generation(ids, g);
            let level = self.of_generation(ids, g);
            let all = self.by_generation(ids, generations);
            assert forall|j: int| 0 <= j < all.len() implies ids.contains(#[trigger] all[j]) by {
                if j < front.len() {
                    assert(all[j] == front[j]);
                } else {
                    assert(all[j] == level[j - front.len()]);
                }
            }
        }
    }

    /// The commits of one generation are taken from the list.
    pub proof fn lemma_of_generation(self, ids: Seq<CommitId>, generation: nat)
        ensures
            forall|j: int|
                0 <= j < self.of_generation(ids, generation).len() ==> ids.contains(
                    #[trigger] self.of_generation(ids, generation)[j],
                ),
        decreases ids.len(),
    {
        if ids.len() > 0 {
            self.lemma_of_generation(ids.drop_last(), generation);
            let rest = self.of_generation(ids.drop_last(), generation);
            let all = self.of_generation(ids, generation);
            assert forall|j: int| 0 <= j < all.len() implies ids.contains(#[trigger] all[j]) by {
                if j < rest.len() {
                    assert(all[j] == rest[j]);
                    assert(ids.drop_last().contains(rest[j]));
                    let q = choose|q: int| 0 <= q < ids.drop_last().len() && ids.drop_last()[q] == rest[j];
                    assert(ids[q] == rest[j]);
                } else {
                    assert(all[j] == ids[ids.len() - 1]);
                }
            }
        }
    }
}

impl IndexModel {
    /// The commits of one generation stand once each if those of the list do.
    pub proof fn lemma_of_generation_distinct(self, ids: Seq<CommitId>, generation: nat)
        requires
            ids.no_duplicates(),
        ensures
            self.of_generation(ids, generation).no_duplicates(),
        decreases ids.len(),
    {
        if ids.len() > 0 {
            let front = ids.drop_last();
            self.lemma_of_generation_distinct(front, generation);
            self.lemma_of_generation(front, generation);
            let rest = self.of_generation(front, generation);
            let all = self.of_generation(ids, generation);
            assert forall|i: int, j: int| 0 <= i < j < all.len() implies all[i] != all[j] by {
                if j == rest.len() {
                    assert(front.contains(rest[i]));
                    let q = choose|q: int| 0 <= q < front.len() && front[q] == rest[i];
                    assert(ids[q] == rest[i]);
                }
            }
        }
    }

    /// Ordering by generation names no commit twice if the list names none twice.
    pub proof fn lemma_by_generation_distinct(self, ids: Seq<CommitId>, generations: nat)
        requires
            ids.no_duplicates(),
        ensures
            self.by_generation(ids, generations).no_duplicates(),
        decreases generations,
    {
        if generations > 0 {
            let g = (generations - 1) as nat;
            self.lemma_by_generation_distinct(ids, g);
            self.lemma_of_generation_distinct(ids, g);
            self.lemma_by_generation_sorted(ids, g);
            self.lemma_of_generation_exact(ids, g);
            let front = self.by_generation(ids, g);
            let level = self.of_generation(ids, g);
            let all = self.by_generation(ids, generations);
            assert forall|i: int, j: int| 0 <= i < j < all.len() implies all[i] != all[j] by {
                if j < front.len() {
                    assert(all[i] == front[i] && all[j] == front[j]);
                } else if i < front.len() {
                    assert(all[i] == front[i]);
                    assert(all[j] == level[j - front.len()]);
                    assert(self.generation(front[i]) < g);
                    assert(self.generation(level[j - front.len()]) == g);
                } else {
                    assert(all[i] == level[i - front.len()]);
                    assert(all[j] == level[j - front.len()]);
                }
            }
        }
    }
}

impl RepoModel {
    /// No candidate is named twice, and each stands in the index before the bound.
    pub proof fn lemma_candidates_distinct(self, n: nat)
        requires
            self.index.wf(),
            n <= self.index.entries.len(),
        ensures
            self.candidates_upto(n).no_duplicates(),
            forall|j: int|
                0 <= j < self.candidates_upto(n).len() ==> self.index.position(
                    #[trigger] self.candidates_upto(n)[j],
                ) < n,
        decreases n,
    {
        if n > 0 {
            self.lemma_candidates_distinct((n - 1) as nat);
            self.lemma_candidates((n - 1) as nat);
            self.index.lemma_position(n - 1);
            let rest = self.candidates_upto((n - 1) as nat);
            let all = self.candidates_upto(n);
            assert forall|j: int| 0 <= j < all.len() implies self.index.position(#[trigger] all[j])
                < n by {
                if j < rest.len() {
                    assert(all[j] == rest[j]);
                }
            }
            assert forall|i: int, j: int| 0 <= i < j < all.len() implies all[i] != all[j] by {
                assert(all[i] == rest[i]);
                if j < rest.len() {
                    assert(all[j] == rest[j]);
                } else {
                    assert(self.index.position(rest[i]) < n - 1);
                }
            }
        }
    }

    /// The schedule names no commit twice.
    pub proof fn lemma_schedule_distinct(self)
        requires
            self.wf(),
        ensures
            self.schedule().no_duplicates(),
    {
        self.lemma_candidates_distinct(self.index.entries.len());
        self.index.lemma_by_generation_distinct(self.candidates(), self.index.entries.len());
    }
}

impl RepoModel {
    /// Every commit of the schedule is an indexed candidate with at least one parent, and
    /// its parents are indexed.
    pub proof fn lemma_schedule(self)
        requires
            self.wf(),
        ensures
            forall|j: int|
                0 <= j < self.schedule().len() ==> {
                    let id = #[trigger] self.schedule()[j];
                    &&& self.index.has_id(id)
                    &&& self.is_candidate(id)
                    &&& self.index.parents(id).len() > 0
                    &&& self.index.has_all(self.index.parents(id))
                },
    {
        let schedule = self.schedule();
        let candidates = self.candidates();
        self.index.lemma_by_generation(candidates, self.index.entries.len());
        self.lemma_candidates(self.index.entries.len());
        assert forall|j: int| 0 <= j < schedule.len() implies {
            let id = #[trigger] schedule[j];
            &&& self.index.has_id(id)
            &&& self.is_candidate(id)
            &&& self.index.parents(id).len() > 0
            &&& self.index.has_all(self.index.parents(id))
        } by {
            let id = schedule[j];
            assert(candidates.contains(id));
            let q = choose|q: int| 0 <= q < candidates.len() && candidates[q] == id;
            assert(self.index.has_id(candidates[q]));
            let pos = self.index.position(id);
            let entry = self.index.entries[pos];
            assert(self.index.reaches(self.touched(), pos));
            assert(!self.touched().contains(entry.id));
            let k = choose|k: int|
                0 <= k < self.index.entries[pos].positions.len() && 0 <= (
                #[trigger] self.index.entries[pos].positions[k]) < pos && self.index.reaches(
                    self.touched(),
                    self.index.entries[pos].positions[k],
                );
            assert(entry.parents.len() > 0);
            assert forall|w: int| 0 <= w < entry.parents.len() implies self.index.has_id(
                #[trigger] entry.parents[w],
            ) by {
                let pp = self.index.entries[pos].positions[w];
                assert(0 <= pp < pos);
                assert(self.index.entries[pp].id == entry.parents[w]);
            }
        }
    }
}

impl MutableRepo {
    /// Looks at the commits of the schedule in their order.
    fn run_schedule(
        &mut self,
        store: &mut Store,
        schedule: &Vec<CommitId>,
        mode: RebaseMode,
        done: &mut Vec<RebasedCommit>,
    )
        requires
            old(self).wf(),
            old(store)@.wf(),
            old(self)@.index_in_store(old(store)@),
            schedule@ == old(self)@.schedule(),
            old(done)@.len() == 0,
        ensures
            final(self).wf(),
            final(store)@.wf(),
            (RebaseState {
                store: final(store)@,
                repo: final(self)@,
                done: rebased_models(final(done)@),
            }) == (RebaseState { store: old(store)@, repo: old(self)@, done: Seq::empty() }).run(
                schedule@,
                mode,
            ),
    {
        let ghost repo0 = self@;
        let ghost store0 = store@;
        let ghost start = RebaseState { store: store0, repo: repo0, done: Seq::empty() };
        proof {
            self.lemma_wf();
            assert(schedule@.take(0) =~= Seq::<CommitId>::empty());
            assert(rebased_models(done@) =~= Seq::<RebasedModel>::empty());
            assert forall|x: CommitId| #[trigger] repo0.index.has_id(x) implies store0.has_commit(
                x,
            ) by {
                let p = repo0.index.position(x);
                assert(store0.has_commit(repo0.index.entries[p].id));
            }
        }
        let mut i: usize = 0;
        while i < schedule.len()
            invariant
                self.wf(),
                store@.wf(),
                repo0.wf(),
                repo0.index_in_store(store0),
                schedule@ == repo0.schedule(),
                start == (RebaseState { store: store0, repo: repo0, done: Seq::empty() }),
                indexed_in_store(self@, store@),
                commits_kept(store0, store@),
                repo0.index.extended_by(self@.index),
                i <= schedule@.len(),
                (RebaseState { store: store@, repo: self@, done: rebased_models(done@) })
                    == start.run(schedule@.take(i as int), mode),
            decreases schedule@.len() - i,
        {
            let id = schedule[i];
            proof {
                self.lemma_wf();
                repo0.lemma_schedule();
                assert(repo0.index.has_id(schedule@[i as int]));
                let pos = repo0.index.position(id);
                assert(store0.has_commit(repo0.index.entries[pos].id));
                assert(store@.commits[id.0 as int] == store0.commits[id.0 as int]);
                repo0.index.lemma_extended(self@.index);
                let parents = store@.commit(id).parents;
                assert(parents == repo0.index.parents(id));
                assert forall|w: int| 0 <= w < parents.len() implies self@.index.has_id(
                    #[trigger] parents[w],
                ) by {
                    assert(repo0.index.has_id(parents[w]));
                }
                assert(schedule@.take(i + 1).drop_last() =~= schedule@.take(i as int));
                assert(schedule@.take(i + 1).last() == id);
            }
            let ghost store_before = store@;
            let ghost repo_before = self@;
            self.rebase_one(store, id, mode, done);
            proof {
                repo0.index.lemma_extended_trans(repo_before.index, self@.index);
                assert forall|q: int| 0 <= q < store0.commits.len() implies (
                #[trigger] store@.commits[q]) == store0.commits[q] by {
                    assert(store_before.commits[q] == store0.commits[q]);
                }
            }
            i += 1;
        }
        proof {
            assert(schedule@.take(schedule@.len() as int) =~= schedule@);
        }
    }

    /// Rebases the descendants of every commit with a fate, in the given mode.
    pub fn rebase_with(&mut self, store: &mut Store, mode: RebaseMode) -> (r: Result<
        Vec<RebasedCommit>,
        StoreError,
    >)
        requires
            old(self).wf(),
            old(store)@.wf(),
        ensures
            final(self).wf(),
            final(store)@.wf(),
            match r {
                Ok(list) => {
                    &&& old(self)@.table == TableModel::empty() || old(self)@.index_in_store(
                        old(store)@,
                    )
                    &&& (RebaseState {
                        store: final(store)@,
                        repo: final(self)@,
                        done: rebased_models(list@),
                    }) == old(self)@.rebased(old(store)@, mode)
                },
                Err(e) => {
                    &&& old(self)@.table != TableModel::empty()
                    &&& !old(self)@.index_in_store(old(store)@)
                    &&& final(self)@ == old(self)@
                    &&& final(store)@ == old(store)@
                    &&& old(self)@.index_fault(old(store)@, e)
                },
            },
    {
        let mut done: Vec<RebasedCommit> = Vec::new();
        if !self.has_rewrites() {
            proof {
                assert(rebased_models(done@) =~= Seq::<RebasedModel>::empty());
            }
            return Ok(done);
        }
        match self.check_index(store) {
            Ok(_) => {},
            Err(e) => {
                return Err(e);
            },
        }
        let schedule = self.schedule();
        self.run_schedule(store, &schedule, mode, &mut done);
        self.settle();
        Ok(done)
    }

    /// Writes every descendant of a rewritten or abandoned commit anew on the commits that
    /// are current, ancestors first, with the change it made applied to its new parents;
    /// lets local bookmarks and working copies follow, lets heads with a fate give way,
    /// and forgets every fate.
    ///
    /// Descendants of a commit that was rewritten divergently are left alone. A second
    /// call without a new fate in between changes nothing.
    pub fn rebase_descendants(&mut self, store: &mut Store) -> (r: Result<
        Vec<RebasedCommit>,
        StoreError,
    >)
        requires
            old(self).wf(),
            old(store)@.wf(),
        ensures
            final(self).wf(),
            final(store)@.wf(),
            match r {
                Ok(list) => {
                    &&& old(self)@.table == TableModel::empty() || old(self)@.index_in_store(
                        old(store)@,
                    )
                    &&& (RebaseState {
                        store: final(store)@,
                        repo: final(self)@,
                        done: rebased_models(list@),
                    }) == old(self)@.rebased(old(store)@, RebaseMode::Merge)
                },
                Err(e) => {
                    &&& old(self)@.table != TableModel::empty()
                    &&& !old(self)@.index_in_store(old(store)@)
                    &&& final(self)@ == old(self)@
                    &&& final(store)@ == old(store)@
                    &&& old(self)@.index_fault(old(store)@, e)
                },
            },
    {
        self.rebase_with(store, RebaseMode::Merge)
    }

    /// Like [`Self::rebase_descendants`], but every descendant keeps its tree as it is:
    /// only its parents change. Returns the number of commits written.
    pub fn reparent_descendants(&mut self, store: &mut Store) -> (r: Result<usize, StoreError>)
        requires
            old(self).wf(),
            old(store)@.wf(),
        ensures
            final(self).wf(),
            final(store)@.wf(),
            match r {
                Ok(count) => {
                    let end = old(self)@.rebased(old(store)@, RebaseMode::Reparent);
                    &&& old(self)@.table == TableModel::empty() || old(self)@.index_in_store(
                        old(store)@,
                    )
                    &&& final(store)@ == end.store
                    &&& final(self)@ == end.repo
                    &&& count == end.done.len()
                },
                Err(e) => {
                    &&& old(self)@.table != TableModel::empty()
                    &&& !old(self)@.index_in_store(old(store)@)
                    &&& final(self)@ == old(self)@
                    &&& final(store)@ == old(store)@
                    &&& old(self)@.index_fault(old(store)@, e)
                },
            },
    {
        match self.rebase_with(store, RebaseMode::Reparent) {
            Ok(list) => Ok(list.len()),
            Err(e) => Err(e),
        }
    }
}

} // verus!
