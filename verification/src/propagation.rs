//! What rebasing descendants writes and what it leaves behind, where every fate is a plain
//! move: each scheduled commit is written anew on what is current in place of its parents,
//! and afterwards no commit that had a fate or was rebased is a head or an ancestor of one.
//!
//! The proof follows the rebase step by step; [`in_step`] is what holds between two steps.

use crate::backend::StoreModel;
use crate::id::{CommitId, TreeId};
use crate::index::IndexModel;
use crate::laws::{lemma_generation_grows, lemma_schedule_order};
use crate::rebase::{commits_kept, RebaseMode, RebaseState, RebasedModel};
use crate::repo::RepoModel;
use crate::rewrite::{FateModel, TableModel};
use vstd::prelude::*;

verus! {

/// Whether every fate moves an indexed commit onto commits that neither have a fate nor
/// descend from a commit with one.
pub open spec fn plain_moves(repo: RepoModel) -> bool {
    &&& forall|k: CommitId| #[trigger]
        repo.table.fates.contains_key(k) ==> repo.index.has_id(k) && repo.table.fates[k].moves()
    &&& forall|k: CommitId, w: int|
        repo.table.fates.contains_key(k) && 0 <= w < repo.table.fates[k].ids().len()
            ==> !repo.index.descends_from(repo.touched(), #[trigger] repo.table.fates[k].ids()[w])
}

/// Whether a rebase leaves the commit alone: it is indexed, has no fate and is no
/// candidate.
pub open spec fn stays(repo: RepoModel, z: CommitId) -> bool {
    repo.index.has_id(z) && !repo.table.fates.contains_key(z) && !repo.is_candidate(z)
}

/// The id of the commit that the rebase writes at its step `q`.
pub open spec fn written_id(store: StoreModel, q: int) -> CommitId {
    CommitId((store.commits.len() + q) as u64)
}

/// Whether the commit is current at step `q` of a rebase: one that the rebase leaves
/// alone, or one that it wrote before.
pub open spec fn current(repo: RepoModel, store: StoreModel, q: int, z: CommitId) -> bool {
    stays(repo, z) || store.commits.len() <= z.0 < store.commits.len() + q
}

/// Whether the state `s` of a rebase holds what step `q` wrote: the scheduled commit anew
/// on what was current in place of its parents, stored and indexed behind what was there
/// before, and recorded as the rewrite of the scheduled commit.
pub open spec fn written(
    repo: RepoModel,
    store: StoreModel,
    mode: RebaseMode,
    s: RebaseState,
    q: int,
) -> bool {
    let entry = s.repo.index.entries[repo.index.entries.len() + q];
    let done = s.done[q];
    let old = store.commit(done.old_id);
    let new = s.store.commit(done.new_id);
    &&& done.old_id == repo.schedule()[q]
    &&& done.new_id == written_id(store, q)
    &&& done.new_parent_ids == after_steps(repo, store, mode, q).repo.table.resolve(
        repo.index.parents(done.old_id),
    )
    &&& done.new_parent_ids != repo.index.parents(done.old_id)
    &&& entry.id == done.new_id
    &&& entry.parents == done.new_parent_ids
    &&& new.parents == done.new_parent_ids
    &&& new.predecessors == seq![done.old_id]
    &&& new.change_id == old.change_id
    &&& new.description == old.description
    &&& s.repo.table.fates.contains_key(done.old_id)
    &&& s.repo.table.fates[done.old_id] == FateModel::Rewritten(done.new_id)
    &&& forall|w: int|
        0 <= w < done.new_parent_ids.len() ==> current(repo, store, q, #[trigger] done.new_parent_ids[w])
}

/// Whether the commit has been rewritten to one that the first `i` steps wrote.
pub open spec fn rewritten_anew(store: StoreModel, s: RebaseState, i: int, k: CommitId) -> bool {
    &&& s.repo.table.fates.contains_key(k)
    &&& s.repo.table.fates[k] is Rewritten
    &&& store.commits.len() <= s.repo.table.fates[k]->Rewritten_0.0 < store.commits.len() + i
}

/// The state after the first `i` commits of the schedule have been looked at.
#[verifier::opaque]
pub open spec fn after_steps(repo: RepoModel, store: StoreModel, mode: RebaseMode, i: int) -> RebaseState {
    RebaseState { store, repo, done: Seq::empty() }.run(repo.schedule().take(i), mode)
}

/// What holds after `i` steps of a rebase of plain moves: each step wrote one commit, the
/// fates at the start stand as they were, and each scheduled commit was rewritten to the
/// commit written for it.
pub open spec fn in_step(repo: RepoModel, store: StoreModel, mode: RebaseMode, i: int) -> bool {
    let s = after_steps(repo, store, mode, i);
    &&& s.done.len() == i
    &&& s.store.commits.len() == store.commits.len() + i
    &&& commits_kept(store, s.store)
    &&& s.repo.index.wf()
    &&& s.repo.table.wf()
    &&& repo.index.extended_by(s.repo.index)
    &&& s.repo.index.entries.len() == repo.index.entries.len() + i
    &&& forall|q: int| 0 <= q < i ==> #[trigger] written(repo, store, mode, s, q)
    &&& forall|k: CommitId| #[trigger]
        s.repo.table.fates.contains_key(k) <==> repo.table.fates.contains_key(k)
            || repo.schedule().take(i).contains(k)
    &&& forall|k: CommitId| #[trigger]
        repo.table.fates.contains_key(k) ==> s.repo.table.fates[k] == repo.table.fates[k]
    &&& forall|k: CommitId| #[trigger]
        repo.schedule().take(i).contains(k) ==> rewritten_anew(store, s, i, k)
    &&& forall|h: CommitId| #[trigger]
        s.repo.view.heads.contains(h) ==> repo.view.heads.contains(h) || store.commits.len()
            <= h.0 < store.commits.len() + i
}

/// Nothing descends from no commit.
pub proof fn lemma_reaches_none(index: IndexModel, pos: int)
    ensures
        !index.reaches(Set::empty(), pos),
    decreases pos,
{
    if 0 <= pos < index.entries.len() {
        assert forall|k: int|
            0 <= k < index.entries[pos].positions.len() && 0 <= (
            #[trigger] index.entries[pos].positions[k]) < pos implies !index.reaches(
            Set::empty(),
            index.entries[pos].positions[k],
        ) by {
            lemma_reaches_none(index, index.entries[pos].positions[k]);
        }
    }
}

/// Where every fate is a plain move, no commit blocks.
pub proof fn lemma_no_blockers(repo: RepoModel, x: CommitId)
    requires
        repo.wf(),
        plain_moves(repo),
    ensures
        !repo.index.descends_from(repo.blockers(), x),
{
    assert forall|id: CommitId| !repo.table.blocks(id) by {
        if repo.table.blocks(id) {
            if repo.table.divergent(id) {
                assert(repo.table.fates.contains_key(id));
            } else {
                let w = choose|w: int|
                    0 <= w < repo.table.fate(id).ids().len() && repo.table.divergent(
                        #[trigger] repo.table.fate(id).ids()[w],
                    );
                let z = repo.table.fate(id).ids()[w];
                assert(repo.table.fates.contains_key(z));
            }
        }
    }
    assert(repo.blockers() =~= Set::empty());
    lemma_reaches_none(repo.index, repo.index.position(x));
}

/// A candidate has a parent that has a fate or is a candidate of a lesser generation.
pub proof fn lemma_candidate_parent(repo: RepoModel, y: CommitId) -> (k: int)
    requires
        repo.wf(),
        plain_moves(repo),
        repo.index.has_id(y),
        repo.is_candidate(y),
    ensures
        0 <= k < repo.index.parents(y).len(),
        repo.index.has_id(repo.index.parents(y)[k]),
        repo.index.generation(repo.index.parents(y)[k]) < repo.index.generation(y),
        repo.table.fates.contains_key(repo.index.parents(y)[k]) || repo.is_candidate(
            repo.index.parents(y)[k],
        ),
{
    let index = repo.index;
    let pos = index.position(y);
    assert(index.reaches(repo.touched(), pos));
    let k = choose|k: int|
        0 <= k < index.entries[pos].positions.len() && 0 <= (#[trigger] index.entries[pos].positions[k])
            < pos && index.reaches(repo.touched(), index.entries[pos].positions[k]);
    let parent_pos = index.entries[pos].positions[k];
    let p = index.entries[pos].parents[k];
    lemma_generation_grows(index, pos, k);
    index.lemma_position(parent_pos);
    lemma_no_blockers(repo, p);
    k
}

/// A commit with a parent that has a fate or is a candidate has a fate or is a candidate.
pub proof fn lemma_child_of_changed(repo: RepoModel, pos: int, k: int)
    requires
        repo.wf(),
        plain_moves(repo),
        0 <= pos < repo.index.entries.len(),
        0 <= k < repo.index.entries[pos].parents.len(),
        repo.table.fates.contains_key(repo.index.entries[pos].parents[k]) || repo.is_candidate(
            repo.index.entries[pos].parents[k],
        ),
    ensures
        repo.table.fates.contains_key(repo.index.entries[pos].id) || repo.is_candidate(
            repo.index.entries[pos].id,
        ),
{
    let index = repo.index;
    let parent_pos = index.entries[pos].positions[k];
    let p = index.entries[pos].parents[k];
    let x = index.entries[pos].id;
    assert(0 <= parent_pos < pos);
    index.lemma_position(parent_pos);
    index.lemma_position(pos);
    assert(index.reaches(repo.touched(), parent_pos)) by {
        if repo.table.fates.contains_key(p) {
            assert(repo.touched().contains(index.entries[parent_pos].id));
        }
    }
    assert(index.reaches(repo.touched(), pos));
    lemma_no_blockers(repo, x);
}

/// A candidate of a lesser generation than a scheduled commit stands before it.
pub proof fn lemma_earlier(repo: RepoModel, i: int, p: CommitId)
    requires
        repo.wf(),
        0 <= i < repo.schedule().len(),
        repo.index.has_id(p),
        repo.is_candidate(p),
        repo.index.generation(p) < repo.index.generation(repo.schedule()[i]),
    ensures
        repo.schedule().take(i).contains(p),
{
    let schedule = repo.schedule();
    lemma_schedule_order(repo);
    assert(schedule.contains(p));
    let j = choose|j: int| 0 <= j < schedule.len() && schedule[j] == p;
    if j > i {
        assert(repo.index.generation(schedule[i]) <= repo.index.generation(schedule[j]));
    }
    assert(j < i);
    assert(schedule.take(i)[j] == p);
}

/// An indexed commit of a repository whose index is in the store was stored before any
/// step of a rebase wrote.
pub proof fn lemma_indexed_is_old(repo: RepoModel, store: StoreModel, x: CommitId)
    requires
        repo.index_in_store(store),
        repo.index.has_id(x),
    ensures
        x.0 < store.commits.len(),
        store.commit(x).parents == repo.index.parents(x),
{
    let p = repo.index.position(x);
    assert(store.has_commit(repo.index.entries[p].id));
}

/// What the next step of a rebase of plain moves finds: the parents of the scheduled
/// commit are not all current, what is current in their place is indexed, and the commit
/// stands in no fate.
pub proof fn lemma_next_parents(repo: RepoModel, store: StoreModel, mode: RebaseMode, i: int)
    requires
        repo.wf(),
        plain_moves(repo),
        repo.index_in_store(store),
        0 <= i < repo.schedule().len(),
        store.commits.len() + repo.schedule().len() <= u64::MAX,
        in_step(repo, store, mode, i),
    ensures
        ({
            let s = after_steps(repo, store, mode, i);
            let y = repo.schedule()[i];
            let parents = s.store.commit(y).parents;
            let resolved = s.repo.table.resolve(parents);
            &&& repo.index.has_id(y)
            &&& repo.is_candidate(y)
            &&& s.store.commit(y) == store.commit(y)
            &&& resolved != parents
            &&& forall|w: int| 0 <= w < resolved.len() ==> current(repo, store, i, #[trigger] resolved[w])
            &&& s.repo.index.has_all(resolved)
            &&& forall|k: CommitId| #[trigger]
                s.repo.table.fates.contains_key(k) ==> !s.repo.table.fates[k].ids().contains(y)
        }),
{
    let s = after_steps(repo, store, mode, i);
    let schedule = repo.schedule();
    let y = schedule[i];
    let len = store.commits.len();
    let n = repo.index.entries.len();
    repo.lemma_schedule();
    assert(repo.index.has_id(y) && repo.is_candidate(y));
    lemma_indexed_is_old(repo, store, y);
    assert(s.store.commits[y.0 as int] == store.commits[y.0 as int]);
    let parents = s.store.commit(y).parents;
    assert(parents == repo.index.parents(y));
    let resolved = s.repo.table.resolve(parents);
    s.repo.table.lemma_resolve(parents);
    repo.index.lemma_extended(s.repo.index);

    // One parent has moved.
    let k = lemma_candidate_parent(repo, y);
    let p = parents[k];
    if repo.table.fates.contains_key(p) {
        assert(s.repo.table.fates.contains_key(p));
        assert(s.repo.table.moved(p));
    } else {
        lemma_earlier(repo, i, p);
        assert(rewritten_anew(store, s, i, p));
        assert(s.repo.table.moved(p));
    }
    assert(resolved != parents);

    // What stands in place of the parents is current and indexed.
    let pos = repo.index.position(y);
    assert forall|w: int| 0 <= w < resolved.len() implies current(
        repo,
        store,
        i,
        #[trigger] resolved[w],
    ) && s.repo.index.has_id(resolved[w]) by {
        let z = resolved[w];
        assert(resolved.contains(z));
        assert(!s.repo.table.moved(z));
        if parents.contains(z) {
            let j = choose|j: int| 0 <= j < parents.len() && parents[j] == z;
            lemma_generation_grows(repo.index, pos, j);
            let parent_pos = repo.index.entries[pos].positions[j];
            repo.index.lemma_position(parent_pos);
            assert(repo.index.has_id(z));
            if repo.table.fates.contains_key(z) {
                assert(s.repo.table.fates.contains_key(z));
                assert(s.repo.table.moved(z));
            }
            if repo.is_candidate(z) {
                lemma_earlier(repo, i, z);
                assert(rewritten_anew(store, s, i, z));
                assert(s.repo.table.moved(z));
            }
            assert(stays(repo, z));
        } else {
            let j = choose|j: int|
                0 <= j < parents.len() && s.repo.table.moved(#[trigger] parents[j])
                    && s.repo.table.fates[parents[j]].ids().contains(z);
            let from = parents[j];
            assert(s.repo.table.fates.contains_key(from));
            lemma_replacement_is_current(repo, store, mode, i, from, z);
        }
    }

    // No fate names the scheduled commit.
    assert forall|k: CommitId| #[trigger] s.repo.table.fates.contains_key(k) implies
        !s.repo.table.fates[k].ids().contains(y) by {
        if s.repo.table.fates[k].ids().contains(y) {
            lemma_replacement_is_current(repo, store, mode, i, k, y);
        }
    }
}

/// After `i` steps of a rebase of plain moves, what a fate names is a commit that the
/// rebase leaves alone or one that it wrote, and is indexed.
pub proof fn lemma_replacement_is_current(
    repo: RepoModel,
    store: StoreModel,
    mode: RebaseMode,
    i: int,
    from: CommitId,
    z: CommitId,
)
    requires
        repo.wf(),
        plain_moves(repo),
        repo.index_in_store(store),
        0 <= i <= repo.schedule().len(),
        store.commits.len() + repo.schedule().len() <= u64::MAX,
        in_step(repo, store, mode, i),
        after_steps(repo, store, mode, i).repo.table.fates.contains_key(from),
        after_steps(repo, store, mode, i).repo.table.fates[from].ids().contains(z),
    ensures
        current(repo, store, i, z),
        after_steps(repo, store, mode, i).repo.index.has_id(z),
        !repo.index.has_id(z) || stays(repo, z),
{
    let s = after_steps(repo, store, mode, i);
    let len = store.commits.len();
    let n = repo.index.entries.len();
    let list = s.repo.table.fates[from].ids();
    let w = choose|w: int| 0 <= w < list.len() && list[w] == z;
    repo.index.lemma_extended(s.repo.index);
    if repo.table.fates.contains_key(from) {
        assert(s.repo.table.fates[from] == repo.table.fates[from]);
        assert(!repo.index.descends_from(repo.touched(), repo.table.fates[from].ids()[w]));
        assert(repo.indexed(repo.table.fates[from].ids()));
        assert(repo.index.has_id(list[w]));
        if repo.table.fates.contains_key(z) {
            let pz = repo.index.position(z);
            assert(repo.touched().contains(repo.index.entries[pz].id));
            assert(repo.index.reaches(repo.touched(), pz));
        }
        assert(stays(repo, z));
    } else {
        assert(repo.schedule().take(i).contains(from));
        assert(rewritten_anew(store, s, i, from));
        assert(list =~= seq![s.repo.table.fates[from]->Rewritten_0]);
        assert(z == list[0]);
        let q = z.0 - len;
        assert(written(repo, store, mode, s, q));
        assert(z == written_id(store, q));
        assert(s.repo.index.entries[n + q].id == z);
        if repo.index.has_id(z) {
            lemma_indexed_is_old(repo, store, z);
        }
    }
}

/// Making the tree of a rebased commit changes no stored commit.
pub proof fn lemma_rebased_tree_keeps_commits(
    store: StoreModel,
    mode: RebaseMode,
    tree: TreeId,
    old_parents: Seq<CommitId>,
    new_parents: Seq<CommitId>,
)
    ensures
        store.rebased_tree(mode, tree, old_parents, new_parents).0.commits == store.commits,
{
    store.lemma_merge_parents(old_parents);
    store.merge_parents(old_parents).0.lemma_merge_parents(new_parents);
}

/// What one step of a rebase of plain moves does: it writes the scheduled commit anew on
/// what is current in place of its parents, indexes the new commit, makes it a head and
/// records the rewrite, which changes no other fate.
pub proof fn lemma_step_shape(repo: RepoModel, store: StoreModel, mode: RebaseMode, i: int)
    requires
        repo.wf(),
        plain_moves(repo),
        repo.index_in_store(store),
        0 <= i < repo.schedule().len(),
        store.commits.len() + repo.schedule().len() <= u64::MAX,
        in_step(repo, store, mode, i),
    ensures
        ({
            let s = after_steps(repo, store, mode, i);
            let t = after_steps(repo, store, mode, i + 1);
            let y = repo.schedule()[i];
            let new_id = written_id(store, i);
            let resolved = s.repo.table.resolve(s.store.commit(y).parents);
            &&& t.done == s.done.push(
                RebasedModel { old_id: y, new_id, new_parent_ids: resolved },
            )
            &&& t.store.commits.len() == s.store.commits.len() + 1
            &&& commits_kept(s.store, t.store)
            &&& t.store.commit(new_id).parents == resolved
            &&& t.store.commit(new_id).predecessors == seq![y]
            &&& t.store.commit(new_id).change_id == store.commit(y).change_id
            &&& t.store.commit(new_id).description == store.commit(y).description
            &&& resolved == s.repo.table.resolve(repo.index.parents(y))
            &&& resolved != repo.index.parents(y)
            &&& t.repo.index.entries == s.repo.index.entries.push(
                s.repo.index.entry_for(new_id, resolved),
            )
            &&& t.repo.index.wf()
            &&& t.repo.table.wf()
            &&& t.repo.table.fates == s.repo.table.fates.insert(y, FateModel::Rewritten(new_id))
            &&& t.repo.view.heads == s.repo.view.heads.insert(new_id)
            &&& !repo.table.fates.contains_key(y)
            &&& forall|w: int| 0 <= w < resolved.len() ==> current(repo, store, i, #[trigger] resolved[w])
        }),
{
    let s = after_steps(repo, store, mode, i);
    let t = after_steps(repo, store, mode, i + 1);
    let schedule = repo.schedule();
    let y = schedule[i];
    let len = store.commits.len();
    let n = repo.index.entries.len();
    let front = schedule.take(i);
    let next = schedule.take(i + 1);
    assert(t == s.step(y, mode)) by {
        reveal(after_steps);
        assert(next.drop_last() =~= front);
        assert(next.last() == y);
    }
    lemma_next_parents(repo, store, mode, i);
    let commit = s.store.commit(y);
    let parents = commit.parents;
    let resolved = s.repo.table.resolve(parents);
    let (made, tree) = s.store.rebased_tree(mode, commit.tree, parents, resolved);
    lemma_rebased_tree_keeps_commits(s.store, mode, commit.tree, parents, resolved);
    let new_id = made.next_commit_id();
    assert(new_id == written_id(store, i));
    lemma_new_id_is_fresh(repo, store, mode, i);
    assert(s.repo.index.admits(new_id, resolved));
    s.repo.index.lemma_with_commit_wf(new_id, resolved);
    lemma_indexed_is_old(repo, store, y);
    s.repo.table.lemma_record_fresh(y, new_id);
    s.repo.table.lemma_record_wf(y, FateModel::Rewritten(new_id));
}

/// The id that the next step of a rebase writes under is neither indexed nor in the table.
pub proof fn lemma_new_id_is_fresh(repo: RepoModel, store: StoreModel, mode: RebaseMode, i: int)
    requires
        repo.wf(),
        repo.index_in_store(store),
        0 <= i < repo.schedule().len(),
        store.commits.len() + repo.schedule().len() <= u64::MAX,
        plain_moves(repo),
        in_step(repo, store, mode, i),
    ensures
        !after_steps(repo, store, mode, i).repo.index.has_id(written_id(store, i)),
        !after_steps(repo, store, mode, i).repo.table.fates.contains_key(written_id(store, i)),
{
    let s = after_steps(repo, store, mode, i);
    let schedule = repo.schedule();
    let front = schedule.take(i);
    let n = repo.index.entries.len();
    let new_id = written_id(store, i);
    repo.lemma_schedule();
    if s.repo.index.has_id(new_id) {
        let pz = s.repo.index.position(new_id);
        if pz < n {
            assert(s.repo.index.entries[pz] == repo.index.entries[pz]);
            assert(store.has_commit(repo.index.entries[pz].id));
        } else {
            assert(written(repo, store, mode, s, pz - n));
        }
    }
    if s.repo.table.fates.contains_key(new_id) {
        if repo.table.fates.contains_key(new_id) {
            lemma_indexed_is_old(repo, store, new_id);
        } else {
            let q = choose|q: int| 0 <= q < front.len() && front[q] == new_id;
            assert(repo.index.has_id(schedule[q]));
            lemma_indexed_is_old(repo, store, new_id);
        }
    }
}

/// One step of a rebase of plain moves keeps what holds after each step.
pub proof fn lemma_step(repo: RepoModel, store: StoreModel, mode: RebaseMode, i: int)
    requires
        repo.wf(),
        plain_moves(repo),
        repo.index_in_store(store),
        0 <= i < repo.schedule().len(),
        store.commits.len() + repo.schedule().len() <= u64::MAX,
        in_step(repo, store, mode, i),
    ensures
        in_step(repo, store, mode, i + 1),
{
    let s = after_steps(repo, store, mode, i);
    let t = after_steps(repo, store, mode, i + 1);
    let schedule = repo.schedule();
    let y = schedule[i];
    let len = store.commits.len();
    let n = repo.index.entries.len();
    let front = schedule.take(i);
    let next = schedule.take(i + 1);
    let new_id = written_id(store, i);
    let resolved = s.repo.table.resolve(s.store.commit(y).parents);
    lemma_step_shape(repo, store, mode, i);
    repo.lemma_schedule_distinct();
    assert(repo.index.extended_by(t.repo.index)) by {
        assert forall|j: int| 0 <= j < n implies (#[trigger] t.repo.index.entries[j])
            == repo.index.entries[j] by {
            assert(s.repo.index.entries[j] == repo.index.entries[j]);
        }
    }
    assert forall|q: int| 0 <= q < i + 1 implies #[trigger] written(repo, store, mode, t, q) by {
        if q < i {
            assert(written(repo, store, mode, s, q));
            assert(t.done[q] == s.done[q]);
            assert(t.repo.index.entries[n + q] == s.repo.index.entries[n + q]);
            assert(schedule[q] != schedule[i]);
            assert(t.store.commits[len + q] == s.store.commits[len + q]);
        } else {
            assert(t.repo.index.entries[n + q] == s.repo.index.entry_for(new_id, resolved));
        }
    }
    assert forall|k: CommitId| #[trigger]
        t.repo.table.fates.contains_key(k) <==> repo.table.fates.contains_key(k) || next.contains(
            k,
        ) by {
        if next.contains(k) {
            let q = choose|q: int| 0 <= q < next.len() && next[q] == k;
            if q < i {
                assert(front[q] == k);
            }
        }
        if front.contains(k) {
            let q = choose|q: int| 0 <= q < front.len() && front[q] == k;
            assert(next[q] == k);
        }
        if k == y {
            assert(next[i] == y);
        }
    }
    assert forall|k: CommitId| #[trigger] next.contains(k) implies rewritten_anew(
        store,
        t,
        i + 1,
        k,
    ) by {
        let q = choose|q: int| 0 <= q < next.len() && next[q] == k;
        assert(next[i] == y);
        if k != y {
            assert(q < i);
            assert(front[q] == k);
            assert(front.contains(k));
            assert(rewritten_anew(store, s, i, k));
        }
    }
    assert(commits_kept(store, t.store)) by {
        assert forall|j: int| 0 <= j < len implies (#[trigger] t.store.commits[j])
            == store.commits[j] by {
            assert(s.store.commits[j] == store.commits[j]);
        }
    }
    assert forall|k: CommitId| #[trigger] repo.table.fates.contains_key(k) implies
        t.repo.table.fates[k] == repo.table.fates[k] by {
        assert(s.repo.table.fates[k] == repo.table.fates[k]);
    }
}

/// What holds after each step holds after any number of steps of a rebase of plain moves.
pub proof fn lemma_steps(repo: RepoModel, store: StoreModel, mode: RebaseMode, i: int)
    requires
        repo.wf(),
        plain_moves(repo),
        repo.index_in_store(store),
        0 <= i <= repo.schedule().len(),
        store.commits.len() + repo.schedule().len() <= u64::MAX,
    ensures
        in_step(repo, store, mode, i),
    decreases i,
{
    if i == 0 {
        reveal(after_steps);
        let start = RebaseState { store, repo, done: Seq::empty() };
        assert(repo.schedule().take(0) =~= Seq::<CommitId>::empty());
        assert(after_steps(repo, store, mode, 0) == start);
    } else {
        lemma_steps(repo, store, mode, i - 1);
        lemma_step(repo, store, mode, i - 1);
    }
}

/// Whether a rebase changes the commit: it has a fate or is rebased.
pub open spec fn changed(repo: RepoModel, x: CommitId) -> bool {
    repo.table.fates.contains_key(x) || repo.schedule().contains(x)
}

/// After a rebase of plain moves, the parents of a commit that the rebase did not change
/// are commits that it did not change.
pub proof fn lemma_parents_unchanged(
    repo: RepoModel,
    store: StoreModel,
    mode: RebaseMode,
    pos: int,
    k: int,
)
    requires
        repo.wf(),
        plain_moves(repo),
        repo.index_in_store(store),
        store.commits.len() + repo.schedule().len() <= u64::MAX,
        in_step(repo, store, mode, repo.schedule().len() as int),
        0 <= pos < after_steps(repo, store, mode, repo.schedule().len() as int).repo.index.entries.len(),
        0 <= k < after_steps(
            repo,
            store,
            mode,
            repo.schedule().len() as int,
        ).repo.index.entries[pos].parents.len(),
        !changed(
            repo,
            after_steps(repo, store, mode, repo.schedule().len() as int).repo.index.entries[pos].id,
        ),
    ensures
        !changed(
            repo,
            after_steps(
                repo,
                store,
                mode,
                repo.schedule().len() as int,
            ).repo.index.entries[pos].parents[k],
        ),
{
    let m = repo.schedule().len() as int;
    let end = after_steps(repo, store, mode, m);
    let n = repo.index.entries.len();
    let entry = end.repo.index.entries[pos];
    let z = entry.parents[k];
    lemma_schedule_order(repo);
    if pos < n {
        assert(entry == repo.index.entries[pos]);
        if changed(repo, z) {
            lemma_child_of_changed(repo, pos, k);
            repo.index.lemma_position(pos);
        }
    } else {
        let q = pos - n;
        assert(written(repo, store, mode, end, q));
        assert(current(repo, store, q, end.done[q].new_parent_ids[k]));
        assert(end.done[q].new_parent_ids[k] == z);
        if changed(repo, z) {
            if repo.schedule().contains(z) {
                repo.lemma_schedule();
                let j = choose|j: int| 0 <= j < repo.schedule().len() && repo.schedule()[j] == z;
                assert(repo.index.has_id(repo.schedule()[j]));
                assert(repo.index.has_id(z) && repo.is_candidate(z));
            } else {
                assert(repo.table.fates.contains_key(z));
                assert(repo.index.has_id(z));
            }
            assert(!stays(repo, z));
            lemma_indexed_is_old(repo, store, z);
        }
    }
}

/// After a rebase of plain moves, the ancestors of a commit that the rebase did not change
/// are commits that it did not change.
pub proof fn lemma_ancestors_unchanged(
    repo: RepoModel,
    store: StoreModel,
    mode: RebaseMode,
    x: CommitId,
    pos: int,
)
    requires
        repo.wf(),
        plain_moves(repo),
        repo.index_in_store(store),
        store.commits.len() + repo.schedule().len() <= u64::MAX,
        in_step(repo, store, mode, repo.schedule().len() as int),
        0 <= pos < after_steps(repo, store, mode, repo.schedule().len() as int).repo.index.entries.len(),
        !changed(
            repo,
            after_steps(repo, store, mode, repo.schedule().len() as int).repo.index.entries[pos].id,
        ),
        after_steps(repo, store, mode, repo.schedule().len() as int).repo.index.reaches(
            set![x],
            pos,
        ),
    ensures
        !changed(repo, x),
    decreases pos,
{
    let m = repo.schedule().len() as int;
    let index = after_steps(repo, store, mode, m).repo.index;
    if index.entries[pos].id != x {
        let k = choose|k: int|
            0 <= k < index.entries[pos].positions.len() && 0 <= (#[trigger] index.entries[pos].positions[k])
                < pos && index.reaches(set![x], index.entries[pos].positions[k]);
        lemma_parents_unchanged(repo, store, mode, pos, k);
        lemma_ancestors_unchanged(repo, store, mode, x, index.entries[pos].positions[k]);
    }
}

/// Where every fate moves an indexed commit onto commits that neither have a fate nor
/// descend from a commit with one, rebasing descendants leaves no commit that had a fate,
/// and none that it rebased, among the heads and their ancestors.
pub proof fn lemma_rebase_leaves_current(
    repo: RepoModel,
    store: StoreModel,
    mode: RebaseMode,
    x: CommitId,
    h: CommitId,
)
    requires
        repo.wf(),
        plain_moves(repo),
        repo.index_in_store(store),
        store.commits.len() + repo.schedule().len() <= u64::MAX,
        repo.rebased(store, mode).repo.view.heads.contains(h),
        repo.rebased(store, mode).repo.index.is_ancestor(x, h),
    ensures
        !repo.table.fates.contains_key(x),
        forall|j: int|
            0 <= j < repo.rebased(store, mode).done.len() ==> (#[trigger] repo.rebased(
                store,
                mode,
            ).done[j]).old_id != x,
{
    if repo.table != TableModel::empty() {
        let schedule = repo.schedule();
        let m = schedule.len() as int;
        let end = after_steps(repo, store, mode, m);
        lemma_steps(repo, store, mode, m);
        assert(end == RebaseState { store, repo, done: Seq::empty() }.run(schedule, mode)) by {
            reveal(after_steps);
            assert(schedule.take(m) =~= schedule);
        }
        let after = repo.rebased(store, mode);
        assert(after.repo.index == end.repo.index);
        assert(end.repo.head_candidates().contains(h));
        assert(!end.repo.table.fates.contains_key(h));
        assert(schedule.take(m) =~= schedule);
        assert(!changed(repo, h));
        let pos = end.repo.index.position(h);
        lemma_ancestors_unchanged(repo, store, mode, x, pos);
        assert forall|j: int| 0 <= j < after.done.len() implies (#[trigger] after.done[j]).old_id
            != x by {
            assert(written(repo, store, mode, end, j));
        }
    }
}

/// The fates after `j` steps of a rebase of plain moves: those at the start, and for each
/// commit scheduled before, the rewrite to the commit written for it.
pub open spec fn fates_at(repo: RepoModel, store: StoreModel, j: int) -> TableModel {
    TableModel {
        fates: Map::new(
            |k: CommitId| repo.table.fates.contains_key(k) || repo.schedule().take(j).contains(k),
            |k: CommitId|
                if repo.table.fates.contains_key(k) {
                    repo.table.fates[k]
                } else {
                    FateModel::Rewritten(written_id(store, repo.schedule().index_of(k)))
                },
        ),
    }
}

/// After `j` steps of a rebase of plain moves the table holds the fates of that step.
pub proof fn lemma_fates_at(repo: RepoModel, store: StoreModel, mode: RebaseMode, j: int)
    requires
        repo.wf(),
        plain_moves(repo),
        repo.index_in_store(store),
        0 <= j <= repo.schedule().len(),
        store.commits.len() + repo.schedule().len() <= u64::MAX,
    ensures
        after_steps(repo, store, mode, j).repo.table == fates_at(repo, store, j),
{
    let s = after_steps(repo, store, mode, j);
    let schedule = repo.schedule();
    let front = schedule.take(j);
    let expected = fates_at(repo, store, j);
    lemma_steps(repo, store, mode, j);
    repo.lemma_schedule_distinct();
    assert forall|k: CommitId| #[trigger] expected.fates.contains_key(k) implies s.repo.table.fates[k]
        == expected.fates[k] by {
        if !repo.table.fates.contains_key(k) {
            let q = choose|q: int| 0 <= q < front.len() && front[q] == k;
            assert(schedule[q] == k);
            assert(schedule.contains(k));
            let at = schedule.index_of(k);
            assert(0 <= at < schedule.len() && schedule[at] == k);
            assert(at == q);
            assert(written(repo, store, mode, s, q));
        }
    }
    assert(s.repo.table.fates =~= expected.fates);
}

/// Where every fate is a plain move, rebasing descendants writes every scheduled commit
/// anew, in the order of the schedule: the same change with the same description, with
/// the scheduled commit as its predecessor, on the commits that are current in place of
/// its parents by the fates of that step. Those are not the parents it had.
pub proof fn lemma_rebase_takes_every_candidate(
    repo: RepoModel,
    store: StoreModel,
    mode: RebaseMode,
)
    requires
        repo.wf(),
        plain_moves(repo),
        repo.index_in_store(store),
        store.commits.len() + repo.schedule().len() <= u64::MAX,
    ensures
        ({
            let end = repo.rebased(store, mode);
            &&& end.done.len() == repo.schedule().len()
            &&& forall|j: int|
                0 <= j < end.done.len() ==> {
                    let done = #[trigger] end.done[j];
                    let old = store.commit(done.old_id);
                    let new = end.store.commit(done.new_id);
                    &&& done.old_id == repo.schedule()[j]
                    &&& done.new_id == written_id(store, j)
                    &&& done.new_parent_ids == fates_at(repo, store, j).resolve(
                        repo.index.parents(done.old_id),
                    )
                    &&& done.new_parent_ids != repo.index.parents(done.old_id)
                    &&& store.has_commit(done.old_id)
                    &&& !store.has_commit(done.new_id)
                    &&& end.store.has_commit(done.new_id)
                    &&& new.parents == done.new_parent_ids
                    &&& new.predecessors == seq![done.old_id]
                    &&& new.change_id == old.change_id
                    &&& new.description == old.description
                }
        }),
{
    let schedule = repo.schedule();
    let m = schedule.len() as int;
    let end = repo.rebased(store, mode);
    repo.lemma_schedule();
    if repo.table == TableModel::empty() {
        if m > 0 {
            let y = schedule[0];
            assert(repo.touched() =~= Set::empty());
            lemma_reaches_none(repo.index, repo.index.position(y));
        }
    } else {
        let last = after_steps(repo, store, mode, m);
        lemma_steps(repo, store, mode, m);
        assert(last == RebaseState { store, repo, done: Seq::empty() }.run(schedule, mode)) by {
            reveal(after_steps);
            assert(schedule.take(m) =~= schedule);
        }
        assert(end.done == last.done);
        assert(end.store == last.store);
        assert forall|j: int| 0 <= j < end.done.len() implies {
            let done = #[trigger] end.done[j];
            let old = store.commit(done.old_id);
            let new = end.store.commit(done.new_id);
            &&& done.old_id == schedule[j]
            &&& done.new_id == written_id(store, j)
            &&& done.new_parent_ids == fates_at(repo, store, j).resolve(
                repo.index.parents(done.old_id),
            )
            &&& done.new_parent_ids != repo.index.parents(done.old_id)
            &&& store.has_commit(done.old_id)
            &&& !store.has_commit(done.new_id)
            &&& end.store.has_commit(done.new_id)
            &&& new.parents == done.new_parent_ids
            &&& new.predecessors == seq![done.old_id]
            &&& new.change_id == old.change_id
            &&& new.description == old.description
        } by {
            assert(written(repo, store, mode, last, j));
            lemma_fates_at(repo, store, mode, j);
            assert(repo.index.has_id(schedule[j]));
            lemma_indexed_is_old(repo, store, schedule[j]);
        }
    }
}

/// Where every fate is a plain move, the rebased child of a rewritten commit, if that
/// commit was its one parent, stands on the replacement.
pub proof fn lemma_child_of_rewritten(
    repo: RepoModel,
    store: StoreModel,
    mode: RebaseMode,
    j: int,
    parent: CommitId,
    replacement: CommitId,
)
    requires
        repo.wf(),
        plain_moves(repo),
        repo.index_in_store(store),
        store.commits.len() + repo.schedule().len() <= u64::MAX,
        0 <= j < repo.schedule().len(),
        repo.index.parents(repo.schedule()[j]) == seq![parent],
        repo.table.fates.contains_key(parent),
        repo.table.fates[parent] == FateModel::Rewritten(replacement),
    ensures
        j < repo.rebased(store, mode).done.len(),
        repo.rebased(store, mode).done[j].old_id == repo.schedule()[j],
        repo.rebased(store, mode).done[j].new_parent_ids == seq![replacement],
{
    lemma_rebase_takes_every_candidate(repo, store, mode);
    let done = repo.rebased(store, mode).done[j];
    fates_at(repo, store, j).lemma_resolve_rewritten(parent, replacement);
}

/// Where every fate is a plain move, the rebased child of a rebased commit, if that
/// commit was its one parent, stands on the commit written for it.
pub proof fn lemma_child_of_rebased(
    repo: RepoModel,
    store: StoreModel,
    mode: RebaseMode,
    j: int,
    q: int,
)
    requires
        repo.wf(),
        plain_moves(repo),
        repo.index_in_store(store),
        store.commits.len() + repo.schedule().len() <= u64::MAX,
        0 <= q < j < repo.schedule().len(),
        repo.index.parents(repo.schedule()[j]) == seq![repo.schedule()[q]],
    ensures
        j < repo.rebased(store, mode).done.len(),
        repo.rebased(store, mode).done[j].old_id == repo.schedule()[j],
        repo.rebased(store, mode).done[q].old_id == repo.schedule()[q],
        repo.rebased(store, mode).done[j].new_parent_ids == seq![
            repo.rebased(store, mode).done[q].new_id,
        ],
{
    let schedule = repo.schedule();
    lemma_rebase_takes_every_candidate(repo, store, mode);
    repo.lemma_schedule();
    repo.lemma_schedule_distinct();
    let parent = schedule[q];
    let table = fates_at(repo, store, j);
    assert(schedule.take(j)[q] == parent);
    assert(schedule.take(j).contains(parent));
    assert(repo.is_candidate(parent));
    assert(schedule.contains(parent));
    let at = schedule.index_of(parent);
    assert(0 <= at < schedule.len() && schedule[at] == parent);
    assert(at == q);
    assert(table.fates[parent] == FateModel::Rewritten(written_id(store, q)));
    table.lemma_resolve_rewritten(parent, written_id(store, q));
}

} // verus!
