//! What holds of the operations of this crate taken together.

use crate::backend::StoreModel;
use crate::edit::discardable;
use crate::id::CommitId;
use crate::idlist::{lemma_remove_all, remove_all};
use crate::index::IndexModel;
use crate::op_store::ViewModel;
use crate::rebase::{commits_kept, RebaseMode, RebaseState, RebasedModel};
use crate::refs::RemoteRefModel;
use crate::repo::RepoModel;
use crate::rewrite::{lemma_expand, FateModel, TableModel};
use vstd::prelude::*;

verus! {

/// In the index, a child has a greater generation number than each of its parents, so
/// that the order by generation number puts ancestors first.
pub proof fn lemma_generation_grows(index: IndexModel, child: int, k: int)
    requires
        index.wf(),
        0 <= child < index.entries.len(),
        0 <= k < index.entries[child].positions.len(),
    ensures
        index.entries[index.entries[child].positions[k]].generation
            < index.entries[child].generation,
        index.entries[index.entries[child].positions[k]].id == index.entries[child].parents[k],
{
    index.lemma_level(index.entries[child].positions, k);
}

/// Where no commit has a fate, rebasing descendants rebases nothing and changes nothing.
pub proof fn lemma_rebase_without_fates(repo: RepoModel, store: StoreModel, mode: RebaseMode)
    requires
        repo.table == TableModel::empty(),
    ensures
        repo.rebased(store, mode).done.len() == 0,
        repo.rebased(store, mode).repo == repo,
        repo.rebased(store, mode).store == store,
{
}

/// Rebasing descendants a second time, with no new fate in between, rebases nothing and
/// changes nothing.
pub proof fn lemma_rebase_twice(repo: RepoModel, store: StoreModel, mode: RebaseMode)
    ensures
        ({
            let first = repo.rebased(store, mode);
            let second = first.repo.rebased(first.store, mode);
            &&& second.done.len() == 0
            &&& second.repo == first.repo
            &&& second.store == first.store
        }),
{
    let first = repo.rebased(store, mode);
    assert(first.repo.table == TableModel::empty());
}

/// Pointing a local bookmark at what it points at changes nothing.
pub proof fn lemma_same_bookmark(view: ViewModel, name: Seq<char>)
    requires
        view.canonical(),
    ensures
        view.with_local_bookmark(name, view.local_bookmark(name)) == view,
{
    let next = view.with_local_bookmark(name, view.local_bookmark(name));
    assert(next.local_bookmarks =~= view.local_bookmarks);
}

/// Pointing a tag at what it points at changes nothing.
pub proof fn lemma_same_tag(view: ViewModel, name: Seq<char>)
    requires
        view.canonical(),
    ensures
        view.with_tag(name, view.tag(name)) == view,
{
    let next = view.with_tag(name, view.tag(name));
    assert(next.tags =~= view.tags);
}

/// Recording a remote bookmark as it is recorded changes nothing.
pub proof fn lemma_same_remote_bookmark(view: ViewModel, name: Seq<char>, remote: Seq<char>)
    requires
        view.canonical(),
    ensures
        view.with_remote_bookmark(name, remote, view.remote_bookmark(name, remote)) == view,
{
    let current = view.remote_bookmark(name, remote);
    let next = view.with_remote_bookmark(name, remote, current);
    let before = view.remote_view(remote);
    let after = if current.target.len() == 0 {
        before.remove(name)
    } else {
        before.insert(name, current)
    };
    if before.contains_key(name) {
        assert(view.remotes.contains_key(remote));
        assert(view.remotes[remote].contains_key(name));
        assert(current.target.len() > 0);
    }
    assert(after =~= before);
    if view.remotes.contains_key(remote) {
        assert(before != Map::<Seq<char>, RemoteRefModel>::empty());
    }
    assert(next.remotes =~= view.remotes);
}

/// Pointing the working copy of a workspace at the commit it is at changes nothing.
pub proof fn lemma_same_wc_commit(view: ViewModel, workspace: Seq<char>)
    requires
        view.wc_commits.contains_key(workspace),
    ensures
        view.with_wc_commit(workspace, view.wc_commits[workspace]) == view,
{
    let next = view.with_wc_commit(workspace, view.wc_commits[workspace]);
    assert(next.wc_commits =~= view.wc_commits);
}

/// Making a commit a head and removing it again gives back the heads there were, provided
/// that the commit was not among them.
pub proof fn lemma_head_added_and_removed(view: ViewModel, id: CommitId)
    requires
        !view.heads.contains(id),
    ensures
        view.with_head(id).without_head(id) == view,
{
    assert(view.heads.insert(id).remove(id) =~= view.heads);
}

/// Adding a head that was not visible and removing it again gives back the view there
/// was, provided that no head was among its ancestors.
pub proof fn lemma_add_head_then_remove(
    repo: RepoModel,
    store: StoreModel,
    id: CommitId,
    next: RepoModel,
)
    requires
        repo.wf(),
        !repo.visible(id),
        repo.head_added(store, id, next),
        forall|h: CommitId| repo.view.heads.contains(h) ==> !next.index.is_ancestor(h, id),
    ensures
        next.view.without_head(id) == repo.view,
        !repo.has_changes() ==> !next.with_view(next.view.without_head(id)).has_changes(),
{
    assert(!repo.view.heads.contains(id)) by {
        if repo.view.heads.contains(id) {
            assert(repo.index.has_id(id));
            repo.index.lemma_ancestor_refl(id);
        }
    }
    assert(repo.heads_with(next.index, id).remove(id) =~= repo.view.heads);
}

/// Looking at descendants forgets no fate, changes no base, and writes anew only commits
/// of the schedule.
pub proof fn lemma_run(start: RebaseState, schedule: Seq<CommitId>, mode: RebaseMode)
    ensures
        forall|k: CommitId|
            start.repo.table.fates.contains_key(k) ==> #[trigger] start.run(
                schedule,
                mode,
            ).repo.table.fates.contains_key(k),
        start.run(schedule, mode).repo.base == start.repo.base,
        start.done.len() <= start.run(schedule, mode).done.len(),
        forall|j: int|
            0 <= j < start.done.len() ==> #[trigger] start.run(schedule, mode).done[j]
                == start.done[j],
        forall|j: int|
            start.done.len() <= j < start.run(schedule, mode).done.len() ==> schedule.contains(
                (#[trigger] start.run(schedule, mode).done[j]).old_id,
            ),
    decreases schedule.len(),
{
    if schedule.len() > 0 {
        let front = schedule.drop_last();
        let id = schedule.last();
        lemma_run(start, front, mode);
        let mid = start.run(front, mode);
        let end = start.run(schedule, mode);
        assert(end == mid.step(id, mode));
        assert forall|j: int| start.done.len() <= j < end.done.len() implies schedule.contains(
            (#[trigger] end.done[j]).old_id,
        ) by {
            if j < mid.done.len() {
                assert(end.done[j] == mid.done[j]);
                assert(front.contains(mid.done[j].old_id));
                let q = choose|q: int| 0 <= q < front.len() && front[q] == mid.done[j].old_id;
                assert(schedule[q] == end.done[j].old_id);
            } else {
                assert(schedule[schedule.len() - 1] == id);
            }
        }
        assert forall|j: int| 0 <= j < start.done.len() implies #[trigger] end.done[j]
            == start.done[j] by {
            assert(mid.done[j] == start.done[j]);
        }
        assert forall|k: CommitId| start.repo.table.fates.contains_key(k) implies #[trigger] end.repo.table.fates.contains_key(
            k,
        ) by {
            assert(mid.repo.table.fates.contains_key(k));
        }
    }
}

/// A commit that has a fate is no head once the fates have been propagated.
pub proof fn lemma_fated_commit_leaves_heads(
    repo: RepoModel,
    store: StoreModel,
    mode: RebaseMode,
    id: CommitId,
)
    requires
        repo.table.fates.contains_key(id),
    ensures
        !repo.rebased(store, mode).repo.view.heads.contains(id),
{
    let start = RebaseState { store, repo, done: Seq::empty() };
    lemma_run(start, repo.schedule(), mode);
    let end = start.run(repo.schedule(), mode);
    assert(end.repo.table.fates.contains_key(id));
    assert(repo.table != TableModel::empty());
    assert(!end.repo.head_candidates().contains(id));
}

/// Descendants of a commit that was rewritten divergently are not rebased.
pub proof fn lemma_divergent_descendants_stay(
    repo: RepoModel,
    store: StoreModel,
    mode: RebaseMode,
    divergent: CommitId,
    descendant: CommitId,
)
    requires
        repo.wf(),
        repo.table.divergent(divergent),
        repo.index.descends_from(set![divergent], descendant),
    ensures
        forall|j: int|
            0 <= j < repo.rebased(store, mode).done.len() ==> (#[trigger] repo.rebased(
                store,
                mode,
            ).done[j]).old_id != descendant,
{
    let start = RebaseState { store, repo, done: Seq::empty() };
    let schedule = repo.schedule();
    lemma_run(start, schedule, mode);
    repo.lemma_schedule();
    let end = repo.rebased(store, mode);
    assert(repo.table.fates.contains_key(divergent));
    assert forall|j: int| 0 <= j < end.done.len() implies (#[trigger] end.done[j]).old_id
        != descendant by {
        let old_id = start.run(schedule, mode).done[j].old_id;
        assert(schedule.contains(old_id));
        let q = choose|q: int| 0 <= q < schedule.len() && schedule[q] == old_id;
        assert(repo.is_candidate(schedule[q]));
        if old_id == descendant {
            assert(repo.blockers().contains(divergent));
            assert(set![divergent].subset_of(repo.blockers()));
            repo.index.lemma_reaches_more(
                set![divergent],
                repo.blockers(),
                repo.index.position(descendant),
            );
        }
    }
}

/// The table takes the abandonment of an indexed commit in favour of its parents if one
/// of them has neither been rewritten nor abandoned.
pub proof fn lemma_abandonment_is_taken(repo: RepoModel, store: StoreModel, id: CommitId, k: int)
    requires
        repo.wf(),
        repo.index_in_store(store),
        repo.index.has_id(id),
        0 <= k < store.commit(id).parents.len(),
        !repo.table.moved(store.commit(id).parents[k]),
    ensures
        repo.takes_fate(id, FateModel::Abandoned(store.commit(id).parents)),
{
    let pos = repo.index.position(id);
    let parents = store.commit(id).parents;
    assert(store.has_commit(repo.index.entries[pos].id));
    assert(parents == repo.index.entries[pos].parents);
    assert forall|w: int| 0 <= w < parents.len() implies repo.index.has_id(
        #[trigger] parents[w],
    ) && parents[w] != id by {
        lemma_generation_grows(repo.index, pos, w);
        repo.index.lemma_position(repo.index.entries[pos].positions[w]);
    }
    let resolved = repo.table.resolve(parents);
    lemma_expand(parents, repo.table.moves());
    assert(resolved.contains(parents[k]));
    lemma_remove_all(resolved, id);
    let left = remove_all(resolved, id);
    assert(left.contains(parents[k]));
    assert(left.len() > 0);
}

/// Moving the working copy of a workspace away from a discardable commit, and then
/// propagating the fates, takes the commit out of the heads, provided that one of its
/// parents has neither been rewritten nor abandoned.
pub proof fn lemma_edit_away_from_discardable(
    repo: RepoModel,
    store: StoreModel,
    workspace: Seq<char>,
    id: CommitId,
    next: RepoModel,
    later: StoreModel,
    mode: RebaseMode,
    k: int,
)
    requires
        repo.wf(),
        repo.index_in_store(store),
        repo.view.wc_commits.contains_key(workspace),
        discardable(store, repo.view, workspace, repo.view.wc_commits[workspace]),
        0 <= k < store.commit(repo.view.wc_commits[workspace]).parents.len(),
        !repo.table.moved(store.commit(repo.view.wc_commits[workspace]).parents[k]),
        repo.edited(store, workspace, id, next),
    ensures
        !next.rebased(later, mode).repo.view.heads.contains(repo.view.wc_commits[workspace]),
{
    let old_id = repo.view.wc_commits[workspace];
    assert(repo.index.has_id(old_id));
    lemma_abandonment_is_taken(repo, store, old_id, k);
    let left = repo.after_leaving(store, workspace);
    assert(left.table.fates.contains_key(old_id));
    let mid = choose|mid: RepoModel| #[trigger]
        left.landed(store, id, mid) && next == mid.with_wc_commit(workspace, id);
    assert(mid.table == left.table);
    lemma_fated_commit_leaves_heads(next, later, mode, old_id);
}

/// Moving the working copy of a workspace away from a head that is not discardable keeps
/// the head, provided that no fate is pending and that the commit moved to is no
/// descendant of the head.
pub proof fn lemma_edit_away_from_kept(
    repo: RepoModel,
    store: StoreModel,
    workspace: Seq<char>,
    id: CommitId,
    next: RepoModel,
    later: StoreModel,
    mode: RebaseMode,
)
    requires
        repo.table == TableModel::empty(),
        repo.view.wc_commits.contains_key(workspace),
        repo.view.heads.contains(repo.view.wc_commits[workspace]),
        !discardable(store, repo.view, workspace, repo.view.wc_commits[workspace]),
        repo.edited(store, workspace, id, next),
        !next.index.is_ancestor(repo.view.wc_commits[workspace], id),
    ensures
        next.rebased(later, mode).repo.view.heads.contains(repo.view.wc_commits[workspace]),
{
    let left = repo.after_leaving(store, workspace);
    let mid = choose|mid: RepoModel| #[trigger]
        left.landed(store, id, mid) && next == mid.with_wc_commit(workspace, id);
    assert(next.table == TableModel::empty());
}

/// Whether a commit was written anew with its tree as it was, on parents other than the
/// ones it had, under an id other than the one it had.
pub open spec fn reparented(before: StoreModel, after: StoreModel, entry: RebasedModel) -> bool {
    &&& before.has_commit(entry.old_id)
    &&& after.has_commit(entry.new_id)
    &&& !before.has_commit(entry.new_id)
    &&& after.commit(entry.new_id).tree == before.commit(entry.old_id).tree
    &&& after.commit(entry.new_id).parents == entry.new_parent_ids
    &&& entry.new_parent_ids != before.commit(entry.old_id).parents
    &&& entry.new_id != entry.old_id
}

/// Looking at stored commits in the mode that keeps trees writes each of them anew with
/// its tree as it was.
pub proof fn lemma_run_reparent(start: RebaseState, schedule: Seq<CommitId>)
    requires
        start.done.len() == 0,
        forall|q: int| 0 <= q < schedule.len() ==> start.store.has_commit(#[trigger] schedule[q]),
        start.store.commits.len() + schedule.len() <= u64::MAX,
    ensures
        ({
            let end = start.run(schedule, RebaseMode::Reparent);
            &&& commits_kept(start.store, end.store)
            &&& end.store.commits.len() <= start.store.commits.len() + schedule.len()
            &&& end.store.trees == start.store.trees
            &&& forall|j: int|
                0 <= j < end.done.len() ==> reparented(start.store, end.store, #[trigger] end.done[j])
        }),
    decreases schedule.len(),
{
    if schedule.len() > 0 {
        let front = schedule.drop_last();
        let id = schedule.last();
        assert forall|q: int| 0 <= q < front.len() implies start.store.has_commit(
            #[trigger] front[q],
        ) by {
            assert(front[q] == schedule[q]);
        }
        lemma_run_reparent(start, front);
        let mid = start.run(front, RebaseMode::Reparent);
        let end = start.run(schedule, RebaseMode::Reparent);
        assert(end == mid.step(id, RebaseMode::Reparent));
        assert(start.store.has_commit(schedule[schedule.len() - 1]));
        assert(mid.store.commits[id.0 as int] == start.store.commits[id.0 as int]);
        let commit = mid.store.commit(id);
        let parents = mid.repo.table.resolve(commit.parents);
        if parents != commit.parents {
            let count = mid.store.commits.len();
            let new_id = mid.store.next_commit_id();
            assert(new_id.0 == count);
            assert(end.store.commits[count as int] == commit.rebased(id, parents, commit.tree));
            assert forall|i: int| 0 <= i < start.store.commits.len() implies (
            #[trigger] end.store.commits[i]) == start.store.commits[i] by {
                assert(mid.store.commits[i] == start.store.commits[i]);
            }
            assert forall|j: int| 0 <= j < end.done.len() implies reparented(
                start.store,
                end.store,
                #[trigger] end.done[j],
            ) by {
                if j < mid.done.len() {
                    assert(end.done[j] == mid.done[j]);
                    let e = mid.done[j];
                    assert(reparented(start.store, mid.store, e));
                    assert(end.store.commits[e.new_id.0 as int] == mid.store.commits[e.new_id.0 as int]);
                }
            }
        }
    }
}

/// Reparenting descendants writes each of them anew with the tree it had, on other
/// parents and under another id.
pub proof fn lemma_reparent_keeps_trees(repo: RepoModel, store: StoreModel)
    requires
        repo.wf(),
        repo.index_in_store(store),
        store.commits.len() + repo.schedule().len() <= u64::MAX,
    ensures
        ({
            let end = repo.rebased(store, RebaseMode::Reparent);
            forall|j: int|
                0 <= j < end.done.len() ==> reparented(store, end.store, #[trigger] end.done[j])
        }),
{
    let start = RebaseState { store, repo, done: Seq::empty() };
    let schedule = repo.schedule();
    repo.lemma_schedule();
    assert forall|q: int| 0 <= q < schedule.len() implies store.has_commit(
        #[trigger] schedule[q],
    ) by {
        let p = repo.index.position(schedule[q]);
        assert(store.has_commit(repo.index.entries[p].id));
    }
    lemma_run_reparent(start, schedule);
}

/// The schedule of a rebase holds exactly the candidates, and holds them by generation
/// number, so that a candidate comes after every candidate among its ancestors.
pub proof fn lemma_schedule_order(repo: RepoModel)
    requires
        repo.wf(),
    ensures
        forall|x: CommitId|
            repo.schedule().contains(x) <==> repo.index.has_id(x) && repo.is_candidate(x),
        forall|i: int, j: int|
            0 <= i < j < repo.schedule().len() ==> repo.index.generation(
                #[trigger] repo.schedule()[i],
            ) <= repo.index.generation(#[trigger] repo.schedule()[j]),
{
    let schedule = repo.schedule();
    let candidates = repo.candidates();
    let n = repo.index.entries.len();
    repo.lemma_schedule();
    repo.index.lemma_by_generation_sorted(candidates, n);
    assert forall|x: CommitId| repo.index.has_id(x) && repo.is_candidate(
        x,
    ) implies schedule.contains(x) by {
        let p = repo.index.position(x);
        repo.lemma_candidates_complete(n, p);
        let q = choose|q: int| 0 <= q < candidates.len() && candidates[q] == x;
        assert(repo.index.generation(candidates[q]) < n);
    }
    assert forall|x: CommitId| schedule.contains(x) implies repo.index.has_id(x)
        && repo.is_candidate(x) by {
        let j = choose|j: int| 0 <= j < schedule.len() && schedule[j] == x;
        assert(repo.index.has_id(schedule[j]));
    }
}

} // verus!
