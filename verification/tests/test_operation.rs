use std::cmp::Ordering;

use vcs_core::backend::{Commit, Store, StoreError, Timestamp};
use vcs_core::edit::EditCommitError;
use vcs_core::id::{CommitId, OperationId, ViewId};
use vcs_core::model::Model;
use vcs_core::op_store::{OpStore, OperationData, OperationMetadata, ViewData};
use vcs_core::operation::{Operation, View};
use vcs_core::refs::{RefTarget, RemoteRef, RemoteRefState, WorkspaceId};
use vcs_core::repo::MutableRepo;
use vcs_core::transaction::{Repo, TransactionError};

fn operation_data(view_id: ViewId, parents: Vec<OperationId>, description: &str) -> OperationData {
    OperationData {
        view_id,
        parents,
        metadata: OperationMetadata {
            description: description.to_string(),
            timestamp: Timestamp { millis_since_epoch: 5, tz_offset: 60 },
            actor: "tester".to_string(),
        },
    }
}

fn commit_on_root(repo: &mut MutableRepo, store: &mut Store, seed: u64) -> Commit {
    let tree = store.write_tree(seed);
    repo.new_commit(vec![store.root_commit_id()], tree)
        .set_description(&format!("commit {seed}"))
        .write(repo, store)
        .unwrap()
}

#[test]
fn operations_and_views_compare_by_id_alone() {
    let a = Operation::new(OperationId(1), operation_data(ViewId(0), vec![], "a"));
    let b = Operation::new(OperationId(1), operation_data(ViewId(3), vec![OperationId(0)], "b"));
    let c = Operation::new(OperationId(2), operation_data(ViewId(0), vec![], "a"));
    assert!(a == b);
    assert!(a != c);
    assert_eq!(a.partial_cmp(&b), Some(Ordering::Equal));
    assert_eq!(a.partial_cmp(&c), Some(Ordering::Less));
    assert_eq!(c.compare(&a), Ordering::Greater);
    assert!(a < c);

    let mut heads_x = ViewData::new();
    heads_x.add_head(CommitId(1));
    let x = View::new(ViewId(4), ViewData::new());
    let y = View::new(ViewId(4), heads_x);
    let z = View::new(ViewId(5), ViewData::new());
    assert!(x == y);
    assert!(x != z);
    assert_eq!(z.partial_cmp(&x), Some(Ordering::Greater));
    assert_eq!(x.compare(&y), Ordering::Equal);
}

#[test]
fn operation_accessors_hand_out_what_was_put_in() {
    let op = Operation::new(
        OperationId(7),
        operation_data(ViewId(2), vec![OperationId(3), OperationId(4)], "described"),
    );
    assert_eq!(*op.id(), OperationId(7));
    assert_eq!(op.parent_ids(), &vec![OperationId(3), OperationId(4)]);
    assert_eq!(op.store_operation().view_id, ViewId(2));
    assert_eq!(op.store_operation().metadata.description, "described");
    assert_eq!(op.store_operation().metadata.actor, "tester");
    let copy = op.dup();
    assert_eq!(*copy.id(), OperationId(7));

    let mut data = ViewData::new();
    data.add_head(CommitId(3));
    data.add_head(CommitId(1));
    data.add_head(CommitId(3));
    let view = View::new(ViewId(9), data);
    assert_eq!(*view.id(), ViewId(9));
    assert_eq!(view.heads(), &vec![CommitId(3), CommitId(1)]);
    assert!(view.store_view().has_head(CommitId(1)));
    let taken = view.take_store_view();
    assert_eq!(taken.heads(), &vec![CommitId(3), CommitId(1)]);
}

#[test]
fn op_store_gives_equal_content_the_same_id() {
    let mut op_store = OpStore::new();
    let mut view = ViewData::new();
    view.add_head(CommitId(1));
    view.set_local_bookmark_target("main", RefTarget::normal(CommitId(1)));
    let id = op_store.write_view(&view);
    assert_eq!(id, ViewId(1));
    // The same content, built in another order, has the same id.
    let mut again = ViewData::new();
    again.set_local_bookmark_target("main", RefTarget::normal(CommitId(1)));
    again.add_head(CommitId(1));
    assert_eq!(op_store.write_view(&again), id);
    assert!(op_store.read_view(id).unwrap().same(&view));
    // Other content gets the next id.
    again.add_head(CommitId(2));
    assert_eq!(op_store.write_view(&again), ViewId(2));

    let data = operation_data(id, vec![OperationId(0)], "first");
    let op_id = op_store.write_operation(&data);
    assert_eq!(op_id, OperationId(1));
    assert_eq!(op_store.write_operation(&data), op_id);
    assert_eq!(
        op_store.write_operation(&operation_data(id, vec![OperationId(0)], "second")),
        OperationId(2)
    );
    assert_eq!(op_store.read_operation(op_id).unwrap().metadata.description, "first");
}

#[test]
fn op_store_reads_fail_for_unknown_ids() {
    let op_store = OpStore::new();
    assert!(matches!(
        op_store.read_view(ViewId(5)),
        Err(StoreError::ViewNotFound(ViewId(5)))
    ));
    assert!(matches!(
        op_store.read_operation(OperationId(5)),
        Err(StoreError::OperationNotFound(OperationId(5)))
    ));
    let root_view = op_store.read_view(ViewId(0)).unwrap();
    assert_eq!(root_view.heads(), &vec![CommitId(0)]);
    let root = op_store.read_operation(OperationId(0)).unwrap();
    assert_eq!(root.view_id, ViewId(0));
    assert!(root.parents.is_empty());
}

#[test]
fn operation_resolves_parents_and_view_through_the_store() {
    let mut op_store = OpStore::new();
    let mut view = ViewData::new();
    view.add_head(CommitId(4));
    let view_id = op_store.write_view(&view);
    let first = op_store.write_operation(&operation_data(view_id, vec![OperationId(0)], "first"));
    let op = Operation::new(
        OperationId(50),
        operation_data(view_id, vec![first, OperationId(40), OperationId(0)], "merge"),
    );
    let parents = op.parents(&op_store);
    assert_eq!(parents.len(), 3);
    assert_eq!(*parents[0].as_ref().ok().unwrap().id(), first);
    assert_eq!(
        parents[0].as_ref().ok().unwrap().store_operation().metadata.description,
        "first"
    );
    assert!(matches!(parents[1], Err(StoreError::OperationNotFound(OperationId(40)))));
    assert_eq!(*parents[2].as_ref().ok().unwrap().id(), OperationId(0));
    let resolved = op.view(&op_store).unwrap();
    assert_eq!(*resolved.id(), view_id);
    assert_eq!(resolved.heads(), &vec![CommitId(4)]);
    let dangling = Operation::new(OperationId(51), operation_data(ViewId(30), vec![], "x"));
    assert!(matches!(dangling.view(&op_store), Err(StoreError::ViewNotFound(ViewId(30)))));
}

#[test]
fn view_data_keeps_one_representation_of_absence() {
    let mut view = ViewData::new();
    let empty = ViewData::new();
    view.set_local_bookmark_target("a", RefTarget::absent());
    view.set_tag_target("t", RefTarget::absent());
    view.set_remote_bookmark("a", "origin", RemoteRef::absent());
    assert!(view.same(&empty));
    view.set_remote_bookmark(
        "a",
        "origin",
        RemoteRef { target: RefTarget::normal(CommitId(1)), state: RemoteRefState::New },
    );
    assert!(!view.same(&empty));
    assert!(view.get_remote_bookmark("a", "origin").is_present());
    assert!(!view.get_remote_bookmark("a", "origin").is_tracking());
    assert!(view.get_remote_bookmark("b", "origin").is_absent());
    view.set_remote_bookmark("a", "origin", RemoteRef::absent());
    assert!(view.same(&empty));
    view.set_tag_target("v1", RefTarget::from_ids(&vec![CommitId(2), CommitId(3), CommitId(2)]));
    assert_eq!(view.get_tag("v1").added_ids(), &vec![CommitId(2), CommitId(3)]);
    assert!(view.get_tag("v1").has_conflict());
    assert!(view.get_tag("v2").is_absent());
    assert_eq!(RefTarget::absent(), RefTarget::from_ids(&vec![]));
    assert_eq!(RefTarget::normal(CommitId(2)).as_normal(), Some(CommitId(2)));
    assert_eq!(view.get_tag("v1").as_normal(), None);
    view.set_wc_commit(WorkspaceId::default(), CommitId(5));
    assert_eq!(view.get_wc_commit_id(&WorkspaceId::new("default".to_string())), Some(CommitId(5)));
    assert_eq!(WorkspaceId::default().as_str(), "default");
    view.remove_wc_commit(&WorkspaceId::default());
    view.set_tag_target("v1", RefTarget::absent());
    assert!(view.same(&empty));
}

#[test]
fn renaming_a_remote_moves_all_its_references() {
    let mut view = ViewData::new();
    let followed = |id: u64| RemoteRef {
        target: RefTarget::normal(CommitId(id)),
        state: RemoteRefState::Tracking,
    };
    view.set_remote_bookmark("main", "origin", followed(1));
    view.set_remote_bookmark("dev", "origin", followed(2));
    view.set_remote_bookmark("main", "other", followed(3));
    view.rename_remote("origin", "upstream");
    assert_eq!(view.get_remote_bookmark("main", "upstream"), followed(1));
    assert_eq!(view.get_remote_bookmark("dev", "upstream"), followed(2));
    assert_eq!(view.get_remote_bookmark("main", "origin"), RemoteRef::absent());
    assert_eq!(view.get_remote_bookmark("main", "other"), followed(3));
    // Renaming a remote that is not there changes nothing.
    let before = view.dup();
    view.rename_remote("nowhere", "other");
    assert!(view.same(&before));
}

#[test]
fn commit_without_changes_writes_nothing() {
    let store = Store::new();
    let mut op_store = OpStore::new();
    let repo = Repo::init(&store, &op_store).unwrap();
    let mut tx = repo.start_transaction();
    tx.repo_mut().set_local_bookmark_target("x", RefTarget::absent());
    let result = tx.commit(&store, &mut op_store, "nothing").unwrap();
    assert_eq!(*result.operation().id(), OperationId(0));
    assert!(op_store.read_operation(OperationId(1)).is_err());
}

#[test]
fn commit_writes_an_operation_on_top_of_the_base() {
    let mut store = Store::new();
    let mut op_store = OpStore::new();
    let repo = Repo::init(&store, &op_store).unwrap();
    let mut tx = repo.start_transaction();
    let commit = commit_on_root(tx.repo_mut(), &mut store, 1);
    let next = tx.commit(&store, &mut op_store, "add a commit").unwrap();
    assert_eq!(*next.operation().id(), OperationId(1));
    assert_eq!(next.operation().parent_ids(), &vec![OperationId(0)]);
    assert_eq!(next.operation().store_operation().metadata.description, "add a commit");
    assert_eq!(next.view().heads(), &vec![commit.id()]);
    assert!(next.index().has_id(commit.id()));
    // The repository can be loaded again from the stores.
    let loaded = Repo::load(&store, &op_store, OperationId(1)).unwrap();
    assert_eq!(loaded.view().heads(), &vec![commit.id()]);
    assert!(loaded.index().has_id(commit.id()));
    assert!(loaded.index().has_id(CommitId(0)));
    assert!(matches!(
        Repo::load(&store, &op_store, OperationId(9)),
        Err(StoreError::OperationNotFound(OperationId(9)))
    ));
    let empty_store = Store::new();
    assert!(matches!(
        Repo::load(&empty_store, &op_store, OperationId(1)),
        Err(StoreError::CommitNotFound(_))
    ));
}

#[test]
fn commit_with_pending_fates_is_refused() {
    let mut store = Store::new();
    let mut op_store = OpStore::new();
    let repo = Repo::init(&store, &op_store).unwrap();
    let mut tx = repo.start_transaction();
    let commit = commit_on_root(tx.repo_mut(), &mut store, 1);
    assert!(tx.repo_mut().record_abandoned_commit(&commit));
    assert!(matches!(
        tx.commit(&store, &mut op_store, "too early"),
        Err(TransactionError::UnpropagatedRewrites)
    ));
    assert!(op_store.read_operation(OperationId(1)).is_err());
}

#[test]
fn commit_fails_for_a_bookmark_on_a_commit_that_is_not_stored() {
    let store = Store::new();
    let mut op_store = OpStore::new();
    let repo = Repo::init(&store, &op_store).unwrap();
    let mut tx = repo.start_transaction();
    tx.repo_mut().set_local_bookmark_target("b", RefTarget::normal(CommitId(42)));
    assert_eq!(tx.repo().hidden_targets(), vec![CommitId(42)]);
    assert!(matches!(
        tx.commit(&store, &mut op_store, "dangling"),
        Err(TransactionError::Store(StoreError::CommitNotFound(CommitId(42))))
    ));
}

#[test]
fn edit_errors_leave_the_state_alone() {
    let mut store = Store::new();
    let op_store = OpStore::new();
    let repo = Repo::init(&store, &op_store).unwrap();
    let mut tx = repo.start_transaction();
    let mut_repo = tx.repo_mut();
    let commit = commit_on_root(mut_repo, &mut store, 1);
    let root = store.root_commit();
    assert_eq!(
        mut_repo.edit(&store, WorkspaceId::default(), &root),
        Err(EditCommitError::RewriteRootCommit)
    );
    assert_eq!(
        mut_repo.set_wc_commit(WorkspaceId::default(), CommitId(0)),
        Err(EditCommitError::RewriteRootCommit)
    );
    let other_store = Store::new();
    let mut foreign = Store::new();
    let mut other_tx = Repo::init(&foreign, &op_store).unwrap().start_transaction();
    let _first = commit_on_root(other_tx.repo_mut(), &mut foreign, 1);
    let second = commit_on_root(other_tx.repo_mut(), &mut foreign, 2);
    assert_eq!(
        mut_repo.edit(&store, WorkspaceId::default(), &second),
        Err(EditCommitError::Store(StoreError::CommitNotFound(second.id())))
    );
    assert_eq!(mut_repo.view_data().get_wc_commit_id(&WorkspaceId::default()), None);
    mut_repo.edit(&store, WorkspaceId::default(), &commit).unwrap();
    // The commit that the working copy is at is missing from the store that is handed in.
    assert_eq!(
        mut_repo.edit(&other_store, WorkspaceId::default(), &commit),
        Err(EditCommitError::WorkingCopyCommitNotFound(commit.id()))
    );
    assert_eq!(
        mut_repo.remove_wc_commit(&other_store, &WorkspaceId::default()),
        Err(EditCommitError::WorkingCopyCommitNotFound(commit.id()))
    );
    let mut empty = Store::new();
    assert_eq!(
        mut_repo.check_out(&mut empty, WorkspaceId::default(), &commit).map(|c| c.id()),
        Err(EditCommitError::WorkingCopyCommitNotFound(commit.id()))
    );
    assert_eq!(
        mut_repo.check_out(&mut empty, WorkspaceId::new("w2".to_string()), &commit).map(|c| c.id()),
        Err(EditCommitError::Store(StoreError::CommitNotFound(commit.id())))
    );
    assert_eq!(
        mut_repo.view_data().get_wc_commit_id(&WorkspaceId::default()),
        Some(commit.id())
    );
    assert!(!mut_repo.has_rewrites());
}

#[test]
fn add_head_of_an_unknown_commit_fails() {
    let mut store = Store::new();
    let op_store = OpStore::new();
    let repo = Repo::init(&store, &op_store).unwrap();
    let mut tx = repo.start_transaction();
    let commit = commit_on_root(tx.repo_mut(), &mut store, 1);
    let empty = Store::new();
    let mut tx2 = repo.start_transaction();
    assert_eq!(
        tx2.repo_mut().add_head(&empty, &commit),
        Err(StoreError::CommitNotFound(commit.id()))
    );
    assert_eq!(tx2.repo().view_data().heads(), &vec![CommitId(0)]);
    assert!(!tx2.repo().has_changes());
    assert!(tx2.repo().is_visible(CommitId(0)));
    assert!(!tx2.repo().is_visible(commit.id()));
}

#[test]
fn discardable_needs_every_condition() {
    let mut store = Store::new();
    let op_store = OpStore::new();
    let repo = Repo::init(&store, &op_store).unwrap();
    let mut tx = repo.start_transaction();
    let mut_repo = tx.repo_mut();
    let ws = WorkspaceId::default();
    let empty = mut_repo
        .new_commit(vec![store.root_commit_id()], store.empty_tree_id())
        .write(mut_repo, &mut store)
        .unwrap();
    assert!(mut_repo.is_discardable(&store, &ws, empty.id()));
    // The root is never discardable, nor is a commit that is not stored.
    assert!(!mut_repo.is_discardable(&store, &ws, CommitId(0)));
    assert!(!mut_repo.is_discardable(&store, &ws, CommitId(99)));
    // A changed tree.
    let changed = commit_on_root(mut_repo, &mut store, 3);
    let quiet = mut_repo
        .new_commit(vec![store.root_commit_id()], changed.tree_id())
        .write(mut_repo, &mut store)
        .unwrap();
    assert!(!mut_repo.is_discardable(&store, &ws, quiet.id()));
    // A signature.
    let signed = mut_repo
        .new_commit(vec![store.root_commit_id()], store.empty_tree_id())
        .write_with_signature(mut_repo, &mut store, Some(vec![1, 2, 3]))
        .unwrap();
    assert!(signed.is_signed());
    assert!(!mut_repo.is_discardable(&store, &ws, signed.id()));
    // Another workspace, but not the workspace itself.
    mut_repo.set_wc_commit(WorkspaceId::default(), empty.id()).unwrap();
    assert!(mut_repo.is_discardable(&store, &ws, empty.id()));
    assert!(!mut_repo.is_discardable(&store, &WorkspaceId::new("b".to_string()), empty.id()));
    // Not a head.
    mut_repo.remove_head(empty.id());
    assert!(!mut_repo.is_discardable(&store, &ws, empty.id()));
}
