use std::collections::HashSet;

use vcs_core::backend::{Commit, Store};
use vcs_core::commit_builder::CommitBuilder;
use vcs_core::id::CommitId;
use vcs_core::op_store::OpStore;
use vcs_core::rebase::RebasedCommit;
use vcs_core::refs::{RefTarget, RemoteRef, RemoteRefState, WorkspaceId};
use vcs_core::repo::MutableRepo;
use vcs_core::transaction::Repo;

struct TestRepo {
    store: Store,
    op_store: OpStore,
    repo: Repo,
}

impl TestRepo {
    fn init() -> TestRepo {
        let store = Store::new();
        let op_store = OpStore::new();
        let repo = Repo::init(&store, &op_store).unwrap();
        TestRepo { store, op_store, repo }
    }
}

/// A builder for a commit on the root with content and description made from `seed`.
fn create_random_commit(mut_repo: &MutableRepo, store: &mut Store, seed: u64) -> CommitBuilder {
    let tree = store.write_tree(seed);
    mut_repo
        .new_commit(vec![store.root_commit_id()], tree)
        .set_description(&format!("random commit {seed}"))
}

fn write_random_commit(mut_repo: &mut MutableRepo, store: &mut Store, seed: u64) -> Commit {
    create_random_commit(mut_repo, store, seed).write(mut_repo, store).unwrap()
}

fn commit_with_parents(
    mut_repo: &mut MutableRepo,
    store: &mut Store,
    parents: &[&Commit],
    seed: u64,
) -> Commit {
    let parent_ids = parents.iter().map(|commit| commit.id()).collect();
    create_random_commit(mut_repo, store, seed)
        .set_parents(parent_ids)
        .write(mut_repo, store)
        .unwrap()
}

fn heads_of(heads: &Vec<CommitId>) -> HashSet<CommitId> {
    heads.iter().copied().collect()
}

fn set_of(ids: &[CommitId]) -> HashSet<CommitId> {
    ids.iter().copied().collect()
}

fn assert_rebased_onto(
    store: &Store,
    rebased: &Vec<RebasedCommit>,
    old_commit: &Commit,
    expected_parents: &[CommitId],
) {
    let entry = rebased
        .iter()
        .find(|entry| entry.old_id == old_commit.id())
        .unwrap_or_else(|| panic!("commit was not rebased"));
    let new_commit = store.get_commit(entry.new_id).unwrap();
    assert_eq!(new_commit.change_id(), old_commit.change_id());
    assert_eq!(new_commit.parent_ids().as_slice(), expected_parents);
    assert_eq!(entry.new_parent_ids.as_slice(), expected_parents);
}

#[test]
fn test_edit() {
    // edit() uses the requested commit, not a new child
    let TestRepo { mut store, mut op_store, repo } = TestRepo::init();

    let mut tx = repo.start_transaction();
    let wc_commit = write_random_commit(tx.repo_mut(), &mut store, 1);
    let repo = tx.commit(&store, &mut op_store, "test").unwrap();

    let mut tx = repo.start_transaction();
    let ws_id = WorkspaceId::default();
    tx.repo_mut().edit(&store, WorkspaceId::default(), &wc_commit).unwrap();
    let repo = tx.commit(&store, &mut op_store, "test").unwrap();
    assert_eq!(repo.view().store_view().get_wc_commit_id(&ws_id), Some(wc_commit.id()));
}

#[test]
fn test_checkout() {
    // check_out() creates a child
    let TestRepo { mut store, mut op_store, repo } = TestRepo::init();

    let mut tx = repo.start_transaction();
    let wc_commit_parent = write_random_commit(tx.repo_mut(), &mut store, 1);
    let repo = tx.commit(&store, &mut op_store, "test").unwrap();

    let mut tx = repo.start_transaction();
    let ws_id = WorkspaceId::default();
    let wc_commit = tx
        .repo_mut()
        .check_out(&mut store, WorkspaceId::default(), &wc_commit_parent)
        .unwrap();
    assert_eq!(wc_commit.tree_id(), wc_commit_parent.tree_id());
    assert_eq!(wc_commit.parent_ids().len(), 1);
    assert_eq!(wc_commit.parent_ids()[0], wc_commit_parent.id());
    let repo = tx.commit(&store, &mut op_store, "test").unwrap();
    assert_eq!(repo.view().store_view().get_wc_commit_id(&ws_id), Some(wc_commit.id()));
}

#[test]
fn test_edit_previous_not_empty() {
    // edit() does not usually abandon the previous commit
    let TestRepo { mut store, mut op_store, repo } = TestRepo::init();

    let mut tx = repo.start_transaction();
    let mut_repo = tx.repo_mut();
    let old_wc_commit = write_random_commit(mut_repo, &mut store, 1);
    mut_repo.edit(&store, WorkspaceId::default(), &old_wc_commit).unwrap();
    let repo = tx.commit(&store, &mut op_store, "test").unwrap();

    let mut tx = repo.start_transaction();
    let mut_repo = tx.repo_mut();
    let new_wc_commit = write_random_commit(mut_repo, &mut store, 2);
    mut_repo.edit(&store, WorkspaceId::default(), &new_wc_commit).unwrap();
    mut_repo.rebase_descendants(&mut store).unwrap();
    assert!(mut_repo.view_data().heads().contains(&old_wc_commit.id()));
}

#[test]
fn test_edit_previous_empty() {
    // edit() abandons the previous commit if it was empty
    let TestRepo { mut store, mut op_store, repo } = TestRepo::init();

    let mut tx = repo.start_transaction();
    let mut_repo = tx.repo_mut();
    let old_wc_commit = mut_repo
        .new_commit(vec![store.root_commit_id()], store.empty_tree_id())
        .write(mut_repo, &mut store)
        .unwrap();
    mut_repo.edit(&store, WorkspaceId::default(), &old_wc_commit).unwrap();
    let repo = tx.commit(&store, &mut op_store, "test").unwrap();

    let mut tx = repo.start_transaction();
    let mut_repo = tx.repo_mut();
    let new_wc_commit = write_random_commit(mut_repo, &mut store, 2);
    mut_repo.edit(&store, WorkspaceId::default(), &new_wc_commit).unwrap();
    mut_repo.rebase_descendants(&mut store).unwrap();
    assert!(!mut_repo.view_data().heads().contains(&old_wc_commit.id()));
}

#[test]
fn test_edit_previous_empty_merge() {
    // edit() abandons the previous commit if it was an empty merge commit
    let TestRepo { mut store, mut op_store, repo } = TestRepo::init();

    let mut tx = repo.start_transaction();
    let mut_repo = tx.repo_mut();
    let old_parent1 = write_random_commit(mut_repo, &mut store, 1);
    let old_parent2 = write_random_commit(mut_repo, &mut store, 2);
    let empty_tree = store.root_commit().tree_id();
    let old_parent_tree =
        store.merge_trees(empty_tree, old_parent1.tree_id(), old_parent2.tree_id());
    let old_wc_commit = mut_repo
        .new_commit(vec![old_parent1.id(), old_parent2.id()], store.empty_tree_id())
        .set_tree_id(old_parent_tree)
        .write(mut_repo, &mut store)
        .unwrap();
    mut_repo.edit(&store, WorkspaceId::default(), &old_wc_commit).unwrap();
    let repo = tx.commit(&store, &mut op_store, "test").unwrap();

    let mut tx = repo.start_transaction();
    let mut_repo = tx.repo_mut();
    let new_wc_commit = write_random_commit(mut_repo, &mut store, 3);
    mut_repo.edit(&store, WorkspaceId::default(), &new_wc_commit).unwrap();
    mut_repo.rebase_descendants(&mut store).unwrap();
    assert!(!mut_repo.view_data().heads().contains(&old_wc_commit.id()));
}

#[test]
fn test_edit_previous_empty_with_description() {
    // edit() does not abandon the previous commit if it has a non-empty description
    let TestRepo { mut store, mut op_store, repo } = TestRepo::init();

    let mut tx = repo.start_transaction();
    let mut_repo = tx.repo_mut();
    let old_wc_commit = mut_repo
        .new_commit(vec![store.root_commit_id()], store.empty_tree_id())
        .set_description("not empty")
        .write(mut_repo, &mut store)
        .unwrap();
    mut_repo.edit(&store, WorkspaceId::default(), &old_wc_commit).unwrap();
    let repo = tx.commit(&store, &mut op_store, "test").unwrap();

    let mut tx = repo.start_transaction();
    let mut_repo = tx.repo_mut();
    let new_wc_commit = write_random_commit(mut_repo, &mut store, 2);
    mut_repo.edit(&store, WorkspaceId::default(), &new_wc_commit).unwrap();
    mut_repo.rebase_descendants(&mut store).unwrap();
    assert!(mut_repo.view_data().heads().contains(&old_wc_commit.id()));
}

#[test]
fn test_edit_previous_empty_with_local_bookmark() {
    // edit() does not abandon the previous commit if a local bookmark points at it
    let TestRepo { mut store, mut op_store, repo } = TestRepo::init();

    let mut tx = repo.start_transaction();
    let mut_repo = tx.repo_mut();
    let old_wc_commit = mut_repo
        .new_commit(vec![store.root_commit_id()], store.empty_tree_id())
        .write(mut_repo, &mut store)
        .unwrap();
    mut_repo.set_local_bookmark_target("b", RefTarget::normal(old_wc_commit.id()));
    mut_repo.edit(&store, WorkspaceId::default(), &old_wc_commit).unwrap();
    let repo = tx.commit(&store, &mut op_store, "test").unwrap();

    let mut tx = repo.start_transaction();
    let mut_repo = tx.repo_mut();
    let new_wc_commit = write_random_commit(mut_repo, &mut store, 2);
    mut_repo.edit(&store, WorkspaceId::default(), &new_wc_commit).unwrap();
    mut_repo.rebase_descendants(&mut store).unwrap();
    assert!(mut_repo.view_data().heads().contains(&old_wc_commit.id()));
}

#[test]
fn test_edit_previous_empty_with_other_workspace() {
    // edit() does not abandon the previous commit if another workspace points at it
    let TestRepo { mut store, mut op_store, repo } = TestRepo::init();

    let mut tx = repo.start_transaction();
    let mut_repo = tx.repo_mut();
    let old_wc_commit = mut_repo
        .new_commit(vec![store.root_commit_id()], store.empty_tree_id())
        .write(mut_repo, &mut store)
        .unwrap();
    mut_repo.edit(&store, WorkspaceId::default(), &old_wc_commit).unwrap();
    mut_repo.edit(&store, WorkspaceId::new("other".to_string()), &old_wc_commit).unwrap();
    let repo = tx.commit(&store, &mut op_store, "test").unwrap();

    let mut tx = repo.start_transaction();
    let mut_repo = tx.repo_mut();
    let new_wc_commit = write_random_commit(mut_repo, &mut store, 2);
    mut_repo.edit(&store, WorkspaceId::default(), &new_wc_commit).unwrap();
    mut_repo.rebase_descendants(&mut store).unwrap();
    assert!(mut_repo.view_data().heads().contains(&old_wc_commit.id()));
}

#[test]
fn test_edit_previous_empty_non_head() {
    // edit() does not abandon the previous commit if it was empty and is not a head
    let TestRepo { mut store, mut op_store, repo } = TestRepo::init();

    let mut tx = repo.start_transaction();
    let mut_repo = tx.repo_mut();
    let old_wc_commit = mut_repo
        .new_commit(vec![store.root_commit_id()], store.empty_tree_id())
        .write(mut_repo, &mut store)
        .unwrap();
    let old_child = mut_repo
        .new_commit(vec![old_wc_commit.id()], old_wc_commit.tree_id())
        .write(mut_repo, &mut store)
        .unwrap();
    mut_repo.edit(&store, WorkspaceId::default(), &old_wc_commit).unwrap();
    let repo = tx.commit(&store, &mut op_store, "test").unwrap();

    let mut tx = repo.start_transaction();
    let mut_repo = tx.repo_mut();
    let new_wc_commit = write_random_commit(mut_repo, &mut store, 2);
    mut_repo.edit(&store, WorkspaceId::default(), &new_wc_commit).unwrap();
    mut_repo.rebase_descendants(&mut store).unwrap();
    assert_eq!(
        heads_of(mut_repo.view_data().heads()),
        set_of(&[old_child.id(), new_wc_commit.id()])
    );
}

#[test]
fn test_edit_initial() {
    // edit() can be used on the initial working-copy commit in a workspace
    let TestRepo { mut store, mut op_store, repo } = TestRepo::init();

    let mut tx = repo.start_transaction();
    let wc_commit = write_random_commit(tx.repo_mut(), &mut store, 1);
    let repo = tx.commit(&store, &mut op_store, "test").unwrap();

    let mut tx = repo.start_transaction();
    let workspace_id = WorkspaceId::new("new-workspace".to_string());
    tx.repo_mut()
        .edit(&store, WorkspaceId::new("new-workspace".to_string()), &wc_commit)
        .unwrap();
    let repo = tx.commit(&store, &mut op_store, "test").unwrap();
    assert_eq!(
        repo.view().store_view().get_wc_commit_id(&workspace_id),
        Some(wc_commit.id())
    );
}

#[test]
fn test_edit_hidden_commit() {
    // edit() edits a hidden commit and updates the heads of the view
    let TestRepo { mut store, mut op_store, repo } = TestRepo::init();

    let mut tx = repo.start_transaction();
    let wc_commit = write_random_commit(tx.repo_mut(), &mut store, 1);

    // The first transaction is not committed, so the commit is not among the heads.

    let mut tx = repo.start_transaction();
    let ws_id = WorkspaceId::default();
    tx.repo_mut().edit(&store, WorkspaceId::default(), &wc_commit).unwrap();
    let repo = tx.commit(&store, &mut op_store, "test").unwrap();
    assert_eq!(repo.view().store_view().get_wc_commit_id(&ws_id), Some(wc_commit.id()));
    assert_eq!(heads_of(repo.view().heads()), set_of(&[wc_commit.id()]));
}

#[test]
fn test_add_head_success() {
    // add_head() adds the head, and it is still there after commit; it is also indexed
    let TestRepo { mut store, mut op_store, repo } = TestRepo::init();

    // Create a commit outside of the repo by using a temporary transaction. Then add
    // that as a head.
    let mut tx = repo.start_transaction();
    let new_commit = write_random_commit(tx.repo_mut(), &mut store, 1);
    drop(tx);

    let mut tx = repo.start_transaction();
    let mut_repo = tx.repo_mut();
    assert!(!mut_repo.view_data().heads().contains(&new_commit.id()));
    assert!(!mut_repo.index().has_id(new_commit.id()));
    mut_repo.add_head(&store, &new_commit).unwrap();
    assert!(mut_repo.view_data().heads().contains(&new_commit.id()));
    assert!(mut_repo.index().has_id(new_commit.id()));
    let repo = tx.commit(&store, &mut op_store, "test").unwrap();
    assert!(repo.view().heads().contains(&new_commit.id()));
    assert!(repo.index().has_id(new_commit.id()));
}

#[test]
fn test_add_head_ancestor() {
    // add_head() does not add a head if it is an ancestor of an existing head
    let TestRepo { mut store, mut op_store, repo } = TestRepo::init();

    let mut tx = repo.start_transaction();
    let commit1 = write_random_commit(tx.repo_mut(), &mut store, 1);
    let commit2 = commit_with_parents(tx.repo_mut(), &mut store, &[&commit1], 2);
    let commit3 = commit_with_parents(tx.repo_mut(), &mut store, &[&commit2], 3);
    let repo = tx.commit(&store, &mut op_store, "test").unwrap();

    assert_eq!(heads_of(repo.view().heads()), set_of(&[commit3.id()]));
    let mut tx = repo.start_transaction();
    let mut_repo = tx.repo_mut();
    mut_repo.add_head(&store, &commit1).unwrap();
    assert_eq!(heads_of(repo.view().heads()), set_of(&[commit3.id()]));
    assert_eq!(heads_of(mut_repo.view_data().heads()), set_of(&[commit3.id()]));
}

#[test]
fn test_add_head_not_immediate_child() {
    // add_head() can add a head that is not an immediate child of a current head
    let TestRepo { mut store, mut op_store, repo } = TestRepo::init();

    let mut tx = repo.start_transaction();
    let initial = write_random_commit(tx.repo_mut(), &mut store, 1);
    let repo = tx.commit(&store, &mut op_store, "test").unwrap();

    // Create some commits outside of the repo by using a temporary transaction. Then
    // add one of them as a head.
    let mut tx = repo.start_transaction();
    let rewritten = create_random_commit(tx.repo(), &mut store, 2)
        .set_change_id(initial.change_id())
        .set_predecessors(vec![initial.id()])
        .write(tx.repo_mut(), &mut store)
        .unwrap();
    let child = create_random_commit(tx.repo(), &mut store, 3)
        .set_parents(vec![rewritten.id()])
        .write(tx.repo_mut(), &mut store)
        .unwrap();
    drop(tx);

    assert_eq!(heads_of(repo.view().heads()), set_of(&[initial.id()]));
    let mut tx = repo.start_transaction();
    let mut_repo = tx.repo_mut();
    mut_repo.add_head(&store, &child).unwrap();
    assert_eq!(
        heads_of(mut_repo.view_data().heads()),
        set_of(&[initial.id(), child.id()])
    );
    assert!(mut_repo.index().has_id(initial.id()));
    assert!(mut_repo.index().has_id(rewritten.id()));
    assert!(mut_repo.index().has_id(child.id()));
}

#[test]
fn test_remove_head() {
    // remove_head() removes the head, and it is still removed after commit; it stays in
    // the index
    let TestRepo { mut store, mut op_store, repo } = TestRepo::init();

    let mut tx = repo.start_transaction();
    let commit1 = write_random_commit(tx.repo_mut(), &mut store, 1);
    let commit2 = commit_with_parents(tx.repo_mut(), &mut store, &[&commit1], 2);
    let commit3 = commit_with_parents(tx.repo_mut(), &mut store, &[&commit2], 3);
    let repo = tx.commit(&store, &mut op_store, "test").unwrap();

    let mut tx = repo.start_transaction();
    let mut_repo = tx.repo_mut();
    assert!(mut_repo.view_data().heads().contains(&commit3.id()));
    mut_repo.remove_head(commit3.id());
    let heads = mut_repo.view_data().heads().clone();
    assert!(!heads.contains(&commit3.id()));
    assert!(!heads.contains(&commit2.id()));
    assert!(!heads.contains(&commit1.id()));
    assert!(mut_repo.index().has_id(commit1.id()));
    assert!(mut_repo.index().has_id(commit2.id()));
    assert!(mut_repo.index().has_id(commit3.id()));
    let repo = tx.commit(&store, &mut op_store, "test").unwrap();
    let heads = repo.view().heads().clone();
    assert!(!heads.contains(&commit3.id()));
    assert!(!heads.contains(&commit2.id()));
    assert!(!heads.contains(&commit1.id()));
    assert!(repo.index().has_id(commit1.id()));
    assert!(repo.index().has_id(commit2.id()));
    assert!(repo.index().has_id(commit3.id()));
}

#[test]
fn test_has_changed() {
    // has_changes() reports changes iff the view has changed, e.g. not after setting a
    // bookmark to point to where it was already pointing
    let TestRepo { mut store, mut op_store, repo } = TestRepo::init();
    let normal_remote_ref = |id: CommitId| RemoteRef {
        target: RefTarget::normal(id),
        state: RemoteRefState::Tracking, // doesn't matter
    };

    let mut tx = repo.start_transaction();
    let mut_repo = tx.repo_mut();
    let commit1 = write_random_commit(mut_repo, &mut store, 1);
    let commit2 = write_random_commit(mut_repo, &mut store, 2);
    mut_repo.remove_head(commit2.id());
    mut_repo.set_wc_commit(WorkspaceId::default(), commit1.id()).unwrap();
    mut_repo.set_local_bookmark_target("main", RefTarget::normal(commit1.id()));
    mut_repo.set_remote_bookmark("main", "origin", normal_remote_ref(commit1.id()));
    let repo = tx.commit(&store, &mut op_store, "test").unwrap();
    // Test the setup
    assert_eq!(heads_of(repo.view().heads()), set_of(&[commit1.id()]));

    let mut tx = repo.start_transaction();
    let mut_repo = tx.repo_mut();

    mut_repo.add_head(&store, &commit1).unwrap();
    mut_repo.set_wc_commit(WorkspaceId::default(), commit1.id()).unwrap();
    mut_repo.set_local_bookmark_target("main", RefTarget::normal(commit1.id()));
    mut_repo.set_remote_bookmark("main", "origin", normal_remote_ref(commit1.id()));
    assert!(!mut_repo.has_changes());

    mut_repo.remove_head(commit2.id());
    mut_repo.set_local_bookmark_target("stable", RefTarget::absent());
    mut_repo.set_remote_bookmark("stable", "origin", RemoteRef::absent());
    assert!(!mut_repo.has_changes());

    mut_repo.add_head(&store, &commit2).unwrap();
    assert!(mut_repo.has_changes());
    mut_repo.remove_head(commit2.id());
    assert!(!mut_repo.has_changes());

    mut_repo.set_wc_commit(WorkspaceId::default(), commit2.id()).unwrap();
    assert!(mut_repo.has_changes());
    mut_repo.set_wc_commit(WorkspaceId::default(), commit1.id()).unwrap();
    assert!(!mut_repo.has_changes());

    mut_repo.set_local_bookmark_target("main", RefTarget::normal(commit2.id()));
    assert!(mut_repo.has_changes());
    mut_repo.set_local_bookmark_target("main", RefTarget::normal(commit1.id()));
    mut_repo.remove_head(commit2.id());
    assert!(!mut_repo.has_changes());

    mut_repo.set_remote_bookmark("main", "origin", normal_remote_ref(commit2.id()));
    assert!(mut_repo.has_changes());
    mut_repo.set_remote_bookmark("main", "origin", normal_remote_ref(commit1.id()));
    assert!(!mut_repo.has_changes());
}

#[test]
fn test_rebase_descendants_simple() {
    let TestRepo { mut store, mut op_store, repo } = TestRepo::init();

    let mut tx = repo.start_transaction();
    let commit1 = write_random_commit(tx.repo_mut(), &mut store, 1);
    let commit2 = commit_with_parents(tx.repo_mut(), &mut store, &[&commit1], 2);
    let commit3 = commit_with_parents(tx.repo_mut(), &mut store, &[&commit2], 3);
    let commit4 = commit_with_parents(tx.repo_mut(), &mut store, &[&commit1], 4);
    let commit5 = commit_with_parents(tx.repo_mut(), &mut store, &[&commit4], 5);
    let repo = tx.commit(&store, &mut op_store, "test").unwrap();

    let mut tx = repo.start_transaction();
    let mut_repo = tx.repo_mut();
    let commit6 = commit_with_parents(mut_repo, &mut store, &[&commit1], 6);
    mut_repo.set_rewritten_commit(commit2.id(), commit6.id());
    mut_repo.record_abandoned_commit(&commit4);
    let rebase_map = tx.repo_mut().rebase_descendants(&mut store).unwrap();
    // Commit 3 got rebased onto commit 2's replacement, i.e. commit 6
    assert_rebased_onto(&store, &rebase_map, &commit3, &[commit6.id()]);
    // Commit 5 got rebased onto commit 4's parent, i.e. commit 1
    assert_rebased_onto(&store, &rebase_map, &commit5, &[commit1.id()]);
    assert_eq!(rebase_map.len(), 2);

    // No more descendants to rebase if we try again.
    let rebase_map = tx.repo_mut().rebase_descendants(&mut store).unwrap();
    assert_eq!(rebase_map.len(), 0);
}

#[test]
fn test_rebase_descendants_divergent_rewrite() {
    // Rebasing descendants when one commit was rewritten to several other commits
    let TestRepo { mut store, mut op_store, repo } = TestRepo::init();

    let mut tx = repo.start_transaction();
    let commit1 = write_random_commit(tx.repo_mut(), &mut store, 1);
    let commit2 = commit_with_parents(tx.repo_mut(), &mut store, &[&commit1], 2);
    let _commit3 = commit_with_parents(tx.repo_mut(), &mut store, &[&commit2], 3);
    let repo = tx.commit(&store, &mut op_store, "test").unwrap();

    let mut tx = repo.start_transaction();
    let mut_repo = tx.repo_mut();
    let commit4 = commit_with_parents(mut_repo, &mut store, &[&commit1], 4);
    let commit5 = commit_with_parents(mut_repo, &mut store, &[&commit1], 5);
    mut_repo.set_divergent_rewrite(commit2.id(), vec![commit4.id(), commit5.id()]);
    // Commit 3 does *not* get rebased because it's unclear if it should go onto
    // commit 4 or commit 5
    let rebase_map = tx.repo_mut().rebase_descendants(&mut store).unwrap();
    assert!(rebase_map.is_empty());
}

#[test]
fn test_rename_remote() {
    let TestRepo { mut store, op_store: _, repo } = TestRepo::init();
    let mut tx = repo.start_transaction();
    let mut_repo = tx.repo_mut();
    let commit = write_random_commit(mut_repo, &mut store, 1);
    let remote_ref = RemoteRef {
        target: RefTarget::normal(commit.id()),
        state: RemoteRefState::Tracking, // doesn't matter
    };
    mut_repo.set_remote_bookmark("main", "origin", remote_ref.clone());
    mut_repo.rename_remote("origin", "upstream");
    assert_eq!(mut_repo.get_remote_bookmark("main", "upstream"), remote_ref);
    assert_eq!(mut_repo.get_remote_bookmark("main", "origin"), RemoteRef::absent());
}

#[test]
fn test_remove_wc_commit_previous_not_discardable() {
    // remove_wc_commit() does not usually abandon the previous commit
    let TestRepo { mut store, mut op_store, repo } = TestRepo::init();

    let mut tx = repo.start_transaction();
    let mut_repo = tx.repo_mut();
    let old_wc_commit = write_random_commit(mut_repo, &mut store, 1);
    let ws_id = WorkspaceId::default();
    mut_repo.edit(&store, WorkspaceId::default(), &old_wc_commit).unwrap();
    let repo = tx.commit(&store, &mut op_store, "test").unwrap();

    let mut tx = repo.start_transaction();
    let mut_repo = tx.repo_mut();
    mut_repo.remove_wc_commit(&store, &ws_id).unwrap();
    mut_repo.rebase_descendants(&mut store).unwrap();
    assert!(mut_repo.view_data().heads().contains(&old_wc_commit.id()));
}

#[test]
fn test_remove_wc_commit_previous_discardable() {
    // remove_wc_commit() abandons the previous commit if it was discardable
    let TestRepo { mut store, mut op_store, repo } = TestRepo::init();

    let mut tx = repo.start_transaction();
    let mut_repo = tx.repo_mut();
    let old_wc_commit = mut_repo
        .new_commit(vec![store.root_commit_id()], store.empty_tree_id())
        .write(mut_repo, &mut store)
        .unwrap();
    let ws_id = WorkspaceId::default();
    mut_repo.edit(&store, WorkspaceId::default(), &old_wc_commit).unwrap();
    let repo = tx.commit(&store, &mut op_store, "test").unwrap();

    let mut tx = repo.start_transaction();
    let mut_repo = tx.repo_mut();
    mut_repo.remove_wc_commit(&store, &ws_id).unwrap();
    mut_repo.rebase_descendants(&mut store).unwrap();
    assert!(!mut_repo.view_data().heads().contains(&old_wc_commit.id()));
}

#[test]
fn test_reparent_descendants() {
    // reparent_descendants() reparents descendants of rewritten commits without altering
    // their content
    let TestRepo { mut store, mut op_store, repo } = TestRepo::init();

    let mut tx = repo.start_transaction();
    let commit_a = write_random_commit(tx.repo_mut(), &mut store, 1);
    let commit_b = write_random_commit(tx.repo_mut(), &mut store, 2);
    let commit_child_a_b =
        commit_with_parents(tx.repo_mut(), &mut store, &[&commit_a, &commit_b], 3);
    let commit_grandchild_a_b =
        commit_with_parents(tx.repo_mut(), &mut store, &[&commit_child_a_b], 4);
    let commit_child_a = commit_with_parents(tx.repo_mut(), &mut store, &[&commit_a], 5);
    let commit_child_b = commit_with_parents(tx.repo_mut(), &mut store, &[&commit_b], 6);
    let mut_repo = tx.repo_mut();
    for (bookmark, commit) in [
        ("b", &commit_b),
        ("child_a_b", &commit_child_a_b),
        ("grandchild_a_b", &commit_grandchild_a_b),
        ("child_a", &commit_child_a),
        ("child_b", &commit_child_b),
    ] {
        mut_repo.set_local_bookmark_target(bookmark, RefTarget::normal(commit.id()));
    }
    let repo = tx.commit(&store, &mut op_store, "test").unwrap();

    // Rewrite "commit_a".
    let mut tx = repo.start_transaction();
    let mut_repo = tx.repo_mut();
    let random_tree = store.write_tree(100);
    mut_repo
        .rewrite_commit(&commit_a)
        .set_tree_id(random_tree)
        .write(mut_repo, &mut store)
        .unwrap();
    let reparented = mut_repo.reparent_descendants(&mut store).unwrap();
    // "child_a_b", "grandchild_a_b" and "child_a" (3 commits) must have been
    // reparented.
    assert_eq!(reparented, 3);
    let repo = tx.commit(&store, &mut op_store, "test").unwrap();

    for (bookmark, commit) in [
        ("b", &commit_b),
        ("child_a_b", &commit_child_a_b),
        ("grandchild_a_b", &commit_grandchild_a_b),
        ("child_a", &commit_child_a),
        ("child_b", &commit_child_b),
    ] {
        let rewritten_id =
            repo.view().store_view().get_local_bookmark(bookmark).as_normal().unwrap();
        if matches!(bookmark, "b" | "child_b") {
            // "b" and "child_b" have been kept untouched.
            assert_eq!(commit.id(), rewritten_id);
        } else {
            // All commits except "b", and "child_b" have been reparented while keeping
            // their content.
            assert_ne!(commit.id(), rewritten_id);
            let rewritten_commit = store.get_commit(rewritten_id).unwrap();
            assert_eq!(commit.tree_id(), rewritten_commit.tree_id());
            let (parent_ids, rewritten_parent_ids) =
                (commit.parent_ids(), rewritten_commit.parent_ids());
            assert_eq!(parent_ids.len(), rewritten_parent_ids.len());
            assert_ne!(parent_ids, rewritten_parent_ids);
        }
    }
}

#[test]
fn test_bookmark_hidden_commit() {
    // set_local_bookmark_target() on a hidden commit makes it visible
    let TestRepo { mut store, mut op_store, repo } = TestRepo::init();
    let root_commit = store.root_commit();

    let mut tx = repo.start_transaction();
    let wc_commit = write_random_commit(tx.repo_mut(), &mut store, 1);

    // The first transaction is not committed, so the commit is not among the heads.

    let mut tx = repo.start_transaction();
    tx.repo_mut().set_local_bookmark_target("b", RefTarget::normal(wc_commit.id()));
    let repo = tx.commit(&store, &mut op_store, "test").unwrap();
    assert_eq!(
        heads_of(repo.view().heads()),
        set_of(&[wc_commit.id(), root_commit.id()])
    );
}
