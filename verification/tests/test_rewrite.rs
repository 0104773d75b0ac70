use vcs_core::backend::{Commit, Store, StoreError};
use vcs_core::id::CommitId;
use vcs_core::op_store::OpStore;
use vcs_core::rebase::{RebaseMode, RebasedCommit};
use vcs_core::refs::{RefTarget, WorkspaceId};
use vcs_core::repo::MutableRepo;
use vcs_core::rewrite::{Fate, RewriteTable};
use vcs_core::transaction::{Repo, Transaction};

fn ids(numbers: &[u64]) -> Vec<CommitId> {
    numbers.iter().map(|n| CommitId(*n)).collect()
}

fn start() -> (Store, OpStore, Transaction) {
    let store = Store::new();
    let op_store = OpStore::new();
    let repo = Repo::init(&store, &op_store).unwrap();
    let tx = repo.start_transaction();
    (store, op_store, tx)
}

fn child(repo: &mut MutableRepo, store: &mut Store, parents: &[&Commit], seed: u64) -> Commit {
    let tree = store.write_tree(seed);
    let parent_ids = if parents.is_empty() {
        vec![store.root_commit_id()]
    } else {
        parents.iter().map(|commit| commit.id()).collect()
    };
    repo.new_commit(parent_ids, tree)
        .set_description(&format!("commit {seed}"))
        .write(repo, store)
        .unwrap()
}

fn rebased_of<'a>(list: &'a [RebasedCommit], old: &Commit) -> &'a RebasedCommit {
    list.iter().find(|entry| entry.old_id == old.id()).unwrap()
}

fn sorted(mut list: Vec<CommitId>) -> Vec<CommitId> {
    list.sort();
    list
}

#[test]
fn table_keeps_one_fate_per_commit_and_the_last_wins() {
    let mut table = RewriteTable::new();
    assert!(table.is_empty());
    assert_eq!(table.fate(CommitId(1)), Fate::Unchanged);
    assert!(table.record(CommitId(1), &Fate::Rewritten(CommitId(2))));
    assert_eq!(table.fate(CommitId(1)), Fate::Rewritten(CommitId(2)));
    assert!(table.moved(CommitId(1)));
    assert!(!table.divergent(CommitId(1)));
    assert!(table.record(CommitId(1), &Fate::Divergent(ids(&[3, 4]))));
    assert_eq!(table.fate(CommitId(1)), Fate::Divergent(ids(&[3, 4])));
    assert!(!table.moved(CommitId(1)));
    assert!(table.divergent(CommitId(1)));
    assert!(table.record(CommitId(1), &Fate::Abandoned(ids(&[5]))));
    assert_eq!(table.fate(CommitId(1)), Fate::Abandoned(ids(&[5])));
    assert_eq!(table.keys(), ids(&[1]));
    assert!(!table.is_empty());
    table.clear();
    assert!(table.is_empty());
    assert!(!table.has_fate(CommitId(1)));
}

#[test]
fn table_follows_chains_of_rewrites() {
    let mut table = RewriteTable::new();
    // 1 -> 2, then 2 -> 3: both end at 3.
    assert!(table.record(CommitId(1), &Fate::Rewritten(CommitId(2))));
    assert!(table.record(CommitId(2), &Fate::Rewritten(CommitId(3))));
    assert_eq!(table.fate(CommitId(1)), Fate::Rewritten(CommitId(3)));
    assert_eq!(table.fate(CommitId(2)), Fate::Rewritten(CommitId(3)));
    // 5 -> 1 is recorded as 5 -> 3.
    assert!(table.record(CommitId(5), &Fate::Rewritten(CommitId(1))));
    assert_eq!(table.fate(CommitId(5)), Fate::Rewritten(CommitId(3)));
    assert_eq!(table.resolve(&ids(&[1, 9, 2, 5])), ids(&[3, 9]));
}

#[test]
fn table_flattens_abandoned_commits_into_their_parents() {
    let mut table = RewriteTable::new();
    assert!(table.record(CommitId(4), &Fate::Abandoned(ids(&[2, 3]))));
    assert!(table.record(CommitId(5), &Fate::Abandoned(ids(&[4, 2]))));
    assert_eq!(table.fate(CommitId(5)), Fate::Abandoned(ids(&[2, 3])));
    // A parent that is rewritten later is followed.
    assert!(table.record(CommitId(2), &Fate::Rewritten(CommitId(7))));
    assert_eq!(table.fate(CommitId(4)), Fate::Abandoned(ids(&[7, 3])));
    assert_eq!(table.fate(CommitId(5)), Fate::Abandoned(ids(&[7, 3])));
    // A rewrite to an abandoned commit is an abandonment in favour of its parents.
    assert!(table.record(CommitId(8), &Fate::Rewritten(CommitId(4))));
    assert_eq!(table.fate(CommitId(8)), Fate::Abandoned(ids(&[7, 3])));
    assert_eq!(table.resolve(&ids(&[5, 8, 3])), ids(&[7, 3]));
    assert_eq!(table.successors_of(&ids(&[4, 1])), ids(&[7, 3, 1]));
}

#[test]
fn table_refuses_fates_that_leave_nothing() {
    let mut table = RewriteTable::new();
    // A commit cannot be rewritten to itself.
    assert!(!table.record(CommitId(1), &Fate::Rewritten(CommitId(1))));
    assert!(table.is_empty());
    // Nor to a commit that was rewritten to it.
    assert!(table.record(CommitId(1), &Fate::Rewritten(CommitId(2))));
    assert!(!table.record(CommitId(2), &Fate::Rewritten(CommitId(1))));
    assert_eq!(table.fate(CommitId(2)), Fate::Unchanged);
    assert_eq!(table.fate(CommitId(1)), Fate::Rewritten(CommitId(2)));
    // Nor abandoned in favour of nothing.
    assert!(!table.record(CommitId(3), &Fate::Abandoned(vec![])));
    assert!(!table.record(CommitId(3), &Fate::Unchanged));
    assert_eq!(table.settle(CommitId(3), &Fate::Abandoned(ids(&[3, 4]))), Fate::Abandoned(ids(&[4])));
}

#[test]
fn table_keeps_divergent_commits_in_replacement_lists() {
    let mut table = RewriteTable::new();
    assert!(table.record(CommitId(2), &Fate::Divergent(ids(&[5, 6]))));
    assert!(table.record(CommitId(3), &Fate::Abandoned(ids(&[2]))));
    assert_eq!(table.fate(CommitId(3)), Fate::Abandoned(ids(&[2])));
    assert!(table.blocks(CommitId(2)));
    assert!(table.blocks(CommitId(3)));
    assert!(!table.blocks(CommitId(5)));
    // A candidate that is rewritten later is followed.
    assert!(table.record(CommitId(5), &Fate::Rewritten(CommitId(9))));
    assert_eq!(table.fate(CommitId(2)), Fate::Divergent(ids(&[9, 6])));
    assert_eq!(table.resolve(&ids(&[2, 5])), ids(&[2, 9]));
    assert_eq!(table.successors_of(&ids(&[2])), ids(&[9, 6]));
}

#[test]
fn fates_that_name_unindexed_commits_are_refused() {
    let (mut store, _op_store, mut tx) = start();
    let repo = tx.repo_mut();
    let a = child(repo, &mut store, &[], 1);
    assert!(!repo.set_rewritten_commit(a.id(), CommitId(77)));
    assert!(!repo.set_divergent_rewrite(a.id(), vec![CommitId(0), CommitId(77)]));
    assert!(!repo.record_abandoned_commit_with_parents(a.id(), vec![CommitId(77)]));
    assert!(!repo.has_rewrites());
    assert_eq!(repo.fate(a.id()), Fate::Unchanged);
    assert!(repo.record_abandoned_commit(&a));
    assert!(repo.has_rewrites());
    assert_eq!(repo.fate(a.id()), Fate::Abandoned(vec![CommitId(0)]));
    assert_eq!(repo.new_parents(&vec![a.id()]), vec![CommitId(0)]);
}

#[test]
fn rebase_propagates_a_rewrite_down_a_chain() {
    // A <- B <- C <- D, with B rewritten to B' and a sibling S of B abandoned.
    let (mut store, _op_store, mut tx) = start();
    let repo = tx.repo_mut();
    let a = child(repo, &mut store, &[], 1);
    let b = child(repo, &mut store, &[&a], 2);
    let c = child(repo, &mut store, &[&b], 3);
    let d = child(repo, &mut store, &[&c], 4);
    let s = child(repo, &mut store, &[&a], 5);
    let b2 = repo
        .rewrite_commit(&b)
        .set_description("rewritten")
        .write(repo, &mut store)
        .unwrap();
    assert_eq!(repo.fate(b.id()), Fate::Rewritten(b2.id()));
    assert!(repo.record_abandoned_commit(&s));

    let schedule = repo.schedule();
    assert_eq!(schedule, vec![c.id(), d.id()]);
    let rebased = repo.rebase_descendants(&mut store).unwrap();
    assert_eq!(rebased.len(), 2);
    let c2 = rebased_of(&rebased, &c);
    let d2 = rebased_of(&rebased, &d);
    assert_eq!(c2.new_parent_ids, vec![b2.id()]);
    assert_eq!(d2.new_parent_ids, vec![c2.new_id]);
    let c2_commit = store.get_commit(c2.new_id).unwrap();
    let d2_commit = store.get_commit(d2.new_id).unwrap();
    assert_eq!(c2_commit.parent_ids(), &vec![b2.id()]);
    assert_eq!(d2_commit.parent_ids(), &vec![c2.new_id]);
    assert_eq!(c2_commit.change_id(), c.change_id());
    assert_eq!(c2_commit.predecessor_ids(), &vec![c.id()]);
    assert_eq!(c2_commit.description(), c.description());
    // The tree is the change of C applied to the tree of B'.
    let expected_tree = store.peek_merged_tree(b.tree_id(), c.tree_id(), b2.tree_id());
    assert_eq!(Some(c2_commit.tree_id()), expected_tree);
    // Only the rebased tip is a head.
    assert_eq!(sorted(repo.view_data().heads().clone()), vec![d2.new_id]);
    assert!(!repo.has_rewrites());
    // A second call finds nothing to do.
    let again = repo.rebase_descendants(&mut store).unwrap();
    assert!(again.is_empty());
    assert_eq!(sorted(repo.view_data().heads().clone()), vec![d2.new_id]);
}

#[test]
fn rebase_without_fates_changes_nothing() {
    let (mut store, _op_store, mut tx) = start();
    let repo = tx.repo_mut();
    let a = child(repo, &mut store, &[], 1);
    let heads_before = repo.view_data().heads().clone();
    let next_before = store.next_commit_id();
    assert!(repo.rebase_descendants(&mut store).unwrap().is_empty());
    assert_eq!(repo.reparent_descendants(&mut store).unwrap(), 0);
    assert_eq!(repo.view_data().heads(), &heads_before);
    assert_eq!(store.next_commit_id(), next_before);
    assert!(repo.view_data().heads().contains(&a.id()));
}

#[test]
fn rebase_leaves_descendants_of_divergent_commits_alone() {
    let (mut store, _op_store, mut tx) = start();
    let repo = tx.repo_mut();
    let a = child(repo, &mut store, &[], 1);
    let b = child(repo, &mut store, &[&a], 2);
    let c = child(repo, &mut store, &[&b], 3);
    let d = child(repo, &mut store, &[&c], 4);
    let x = child(repo, &mut store, &[&a], 5);
    let y = child(repo, &mut store, &[&a], 6);
    // An unrelated rewrite, whose descendant does get rebased.
    let e = child(repo, &mut store, &[&a], 7);
    let f = child(repo, &mut store, &[&e], 8);
    let e2 = repo.rewrite_commit(&e).set_description("e2").write(repo, &mut store).unwrap();
    // A merge of a descendant of the divergent commit and of the rewritten commit stays.
    let m = child(repo, &mut store, &[&c, &e], 9);
    assert!(repo.set_divergent_rewrite(b.id(), vec![x.id(), y.id()]));
    repo.set_local_bookmark_target("on_b", RefTarget::normal(b.id()));
    repo.set_local_bookmark_target("on_c", RefTarget::normal(c.id()));

    assert_eq!(repo.blockers(), vec![b.id()]);
    assert_eq!(repo.candidates(), vec![f.id()]);
    let rebased = repo.rebase_descendants(&mut store).unwrap();
    assert_eq!(rebased.len(), 1);
    assert_eq!(rebased[0].old_id, f.id());
    assert_eq!(rebased[0].new_parent_ids, vec![e2.id()]);
    for untouched in [&c, &d, &m] {
        assert!(rebased.iter().all(|entry| entry.old_id != untouched.id()));
    }
    let heads = sorted(repo.view_data().heads().clone());
    assert!(heads.contains(&d.id()));
    assert!(heads.contains(&m.id()));
    assert!(heads.contains(&x.id()));
    assert!(heads.contains(&y.id()));
    assert!(heads.contains(&rebased[0].new_id));
    assert!(!heads.contains(&b.id()));
    // The bookmark on the divergent commit points at both candidates.
    assert_eq!(repo.get_local_bookmark("on_b").added_ids(), &vec![x.id(), y.id()]);
    assert!(repo.get_local_bookmark("on_b").has_conflict());
    assert_eq!(repo.get_local_bookmark("on_c").as_normal(), Some(c.id()));
}

#[test]
fn rebase_moves_children_of_abandoned_commits_onto_its_parents() {
    let (mut store, _op_store, mut tx) = start();
    let repo = tx.repo_mut();
    let a = child(repo, &mut store, &[], 1);
    let b = child(repo, &mut store, &[], 2);
    let merge = child(repo, &mut store, &[&a, &b], 3);
    let top = child(repo, &mut store, &[&merge], 4);
    let side = child(repo, &mut store, &[&merge, &a], 5);
    repo.set_local_bookmark_target("merge", RefTarget::normal(merge.id()));
    repo.set_wc_commit(WorkspaceId::default(), merge.id()).unwrap();
    assert!(repo.record_abandoned_commit(&merge));
    let rebased = repo.rebase_descendants(&mut store).unwrap();
    assert_eq!(rebased.len(), 2);
    assert_eq!(rebased_of(&rebased, &top).new_parent_ids, vec![a.id(), b.id()]);
    // Parents are kept once each.
    assert_eq!(rebased_of(&rebased, &side).new_parent_ids, vec![a.id(), b.id()]);
    // The bookmark is left with a choice between the parents; the working copy takes the
    // first.
    assert_eq!(repo.get_local_bookmark("merge").added_ids(), &vec![a.id(), b.id()]);
    assert_eq!(
        repo.view_data().get_wc_commit_id(&WorkspaceId::default()),
        Some(a.id())
    );
    let heads = sorted(repo.view_data().heads().clone());
    assert_eq!(
        heads,
        sorted(vec![rebased_of(&rebased, &top).new_id, rebased_of(&rebased, &side).new_id])
    );
}

#[test]
fn rebase_retires_an_abandoned_head_in_favour_of_its_parent() {
    let (mut store, _op_store, mut tx) = start();
    let repo = tx.repo_mut();
    let a = child(repo, &mut store, &[], 1);
    let b = child(repo, &mut store, &[&a], 2);
    assert!(repo.record_abandoned_commit(&b));
    assert!(repo.rebase_descendants(&mut store).unwrap().is_empty());
    assert_eq!(repo.view_data().heads(), &vec![a.id()]);
}

#[test]
fn rebase_orders_by_generation_so_that_rewritten_targets_come_first() {
    // A <- B <- C. A is rewritten to A', then B to B', which still sits on A.
    let (mut store, _op_store, mut tx) = start();
    let repo = tx.repo_mut();
    let a = child(repo, &mut store, &[], 1);
    let b = child(repo, &mut store, &[&a], 2);
    let c = child(repo, &mut store, &[&b], 3);
    let a2 = repo.rewrite_commit(&a).set_description("a2").write(repo, &mut store).unwrap();
    let b2 = repo.rewrite_commit(&b).set_description("b2").write(repo, &mut store).unwrap();
    assert_eq!(b2.parent_ids(), &vec![a.id()]);
    assert_eq!(repo.schedule(), vec![b2.id(), c.id()]);
    let rebased = repo.rebase_descendants(&mut store).unwrap();
    assert_eq!(rebased.len(), 2);
    let b3 = rebased_of(&rebased, &b2);
    assert_eq!(b3.new_parent_ids, vec![a2.id()]);
    assert_eq!(rebased_of(&rebased, &c).new_parent_ids, vec![b3.new_id]);
    assert_eq!(repo.view_data().heads(), &vec![rebased_of(&rebased, &c).new_id]);
}

#[test]
fn reparent_keeps_trees_and_changes_parents_and_ids() {
    let (mut store, _op_store, mut tx) = start();
    let repo = tx.repo_mut();
    let a = child(repo, &mut store, &[], 1);
    let b = child(repo, &mut store, &[&a], 2);
    let c = child(repo, &mut store, &[&b], 3);
    let other_tree = store.write_tree(50);
    let a2 = repo.rewrite_commit(&a).set_tree_id(other_tree).write(repo, &mut store).unwrap();
    let trees_before = store.write_tree(51);
    let list = repo.rebase_with(&mut store, RebaseMode::Reparent).unwrap();
    assert_eq!(list.len(), 2);
    for (entry, old) in [(rebased_of(&list, &b), &b), (rebased_of(&list, &c), &c)] {
        let new_commit = store.get_commit(entry.new_id).unwrap();
        assert_eq!(new_commit.tree_id(), old.tree_id());
        assert_ne!(new_commit.parent_ids(), old.parent_ids());
        assert_ne!(new_commit.id(), old.id());
    }
    assert_eq!(rebased_of(&list, &b).new_parent_ids, vec![a2.id()]);
    // No tree was made.
    assert_eq!(store.write_tree(52).0, trees_before.0 + 1);
}

#[test]
fn rebase_fails_without_change_when_the_store_lacks_an_indexed_commit() {
    let (mut store, _op_store, mut tx) = start();
    let repo = tx.repo_mut();
    let a = child(repo, &mut store, &[], 1);
    let b = child(repo, &mut store, &[&a], 2);
    assert!(repo.record_abandoned_commit(&b));
    let mut other = Store::new();
    assert_eq!(repo.check_index(&other), Err(StoreError::CommitNotFound(a.id())));
    assert_eq!(
        repo.rebase_descendants(&mut other).map(|list| list.len()),
        Err(StoreError::CommitNotFound(a.id()))
    );
    assert!(repo.has_rewrites());
    assert_eq!(other.next_commit_id(), CommitId(1));
    // A store with other parents under the same id is a mismatch.
    let mut tx2 = Repo::init(&other, &OpStore::new()).unwrap().start_transaction();
    let x = child(tx2.repo_mut(), &mut other, &[], 9);
    let _y = child(tx2.repo_mut(), &mut other, &[], 10);
    assert_eq!(x.id(), a.id());
    assert_eq!(repo.check_index(&other), Err(StoreError::Mismatch(b.id())));
    assert_eq!(repo.check_index(&store), Ok(()));
}

#[test]
fn rebase_leaves_no_changed_commit_among_the_ancestors_of_heads() {
    // A <- B <- C and A <- D <- E, with a merge M of C and E. B is rewritten to a sibling,
    // D is abandoned.
    let (mut store, _op_store, mut tx) = start();
    let repo = tx.repo_mut();
    let a = child(repo, &mut store, &[], 1);
    let b = child(repo, &mut store, &[&a], 2);
    let c = child(repo, &mut store, &[&b], 3);
    let d = child(repo, &mut store, &[&a], 4);
    let e = child(repo, &mut store, &[&d], 5);
    let m = child(repo, &mut store, &[&c, &e], 6);
    let b2 = repo.rewrite_commit(&b).set_description("b2").write(repo, &mut store).unwrap();
    assert!(repo.record_abandoned_commit(&d));
    let fated = vec![b.id(), d.id()];
    let rebased = repo.rebase_descendants(&mut store).unwrap();
    let mut changed = fated.clone();
    changed.extend(rebased.iter().map(|entry| entry.old_id));
    assert_eq!(sorted(changed.clone()), sorted(vec![b.id(), c.id(), d.id(), e.id(), m.id()]));
    let heads = repo.view_data().heads().clone();
    assert_eq!(heads, vec![rebased_of(&rebased, &m).new_id]);
    for head in &heads {
        for old in &changed {
            assert!(!repo.index().is_ancestor(*old, *head));
        }
        assert!(repo.index().is_ancestor(a.id(), *head));
        assert!(repo.index().is_ancestor(b2.id(), *head));
    }
    let m2 = store.get_commit(heads[0]).unwrap();
    assert_eq!(
        m2.parent_ids(),
        &vec![rebased_of(&rebased, &c).new_id, rebased_of(&rebased, &e).new_id]
    );
    assert_eq!(rebased_of(&rebased, &e).new_parent_ids, vec![a.id()]);
}
