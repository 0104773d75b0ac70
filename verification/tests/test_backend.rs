use vcs_core::backend::{CommitData, Signature, Store, StoreError, Timestamp, TreeData};
use vcs_core::id::{ChangeId, CommitId, TreeId};

fn commit_on(parents: Vec<CommitId>, tree: TreeId, description: &str) -> CommitData {
    CommitData {
        parents,
        predecessors: vec![],
        tree,
        change_id: ChangeId(7),
        description: description.to_string(),
        author: Signature::empty(),
        committer: Signature::empty(),
        secure_sig: None,
    }
}

#[test]
fn store_starts_with_root_and_empty_tree() {
    let store = Store::new();
    assert_eq!(store.root_commit_id(), CommitId(0));
    assert_eq!(store.empty_tree_id(), TreeId(0));
    assert!(store.has_commit(CommitId(0)));
    assert!(!store.has_commit(CommitId(1)));
    let root = store.root_commit();
    assert_eq!(root.id(), CommitId(0));
    assert!(root.parent_ids().is_empty());
    assert_eq!(root.tree_id(), TreeId(0));
    assert_eq!(root.description(), "");
    assert!(!root.is_signed());
    assert_eq!(store.next_commit_id(), CommitId(1));
}

#[test]
fn write_commit_gives_consecutive_ids_and_keeps_fields() {
    let mut store = Store::new();
    let tree = store.write_tree(5);
    let first = store.write_commit(commit_on(vec![CommitId(0)], tree, "one")).unwrap();
    let second = store.write_commit(commit_on(vec![CommitId(0), first], tree, "two")).unwrap();
    assert_eq!(first, CommitId(1));
    assert_eq!(second, CommitId(2));
    let read = store.get_commit(second).unwrap();
    assert_eq!(read.id(), second);
    assert_eq!(read.parent_ids(), &vec![CommitId(0), first]);
    assert_eq!(read.tree_id(), tree);
    assert_eq!(read.change_id(), ChangeId(7));
    assert_eq!(read.description(), "two");
    assert_eq!(store.commit_data(first).unwrap().description, "one");
    assert_eq!(store.parents_of(second), &vec![CommitId(0), first]);
    assert_eq!(store.tree_of(first), tree);
}

#[test]
fn write_commit_without_parents_is_refused() {
    let mut store = Store::new();
    let result = store.write_commit(commit_on(vec![], TreeId(0), "orphan"));
    assert_eq!(result, Err(StoreError::NoParents));
    assert_eq!(store.next_commit_id(), CommitId(1));
}

#[test]
fn write_commit_with_missing_parent_is_refused() {
    let mut store = Store::new();
    let result = store.write_commit(commit_on(vec![CommitId(0), CommitId(9)], TreeId(0), "x"));
    assert_eq!(result, Err(StoreError::CommitNotFound(CommitId(9))));
    assert_eq!(store.next_commit_id(), CommitId(1));
}

#[test]
fn get_commit_of_unknown_id_fails() {
    let store = Store::new();
    assert_eq!(
        store.get_commit(CommitId(3)).map(|commit| commit.id()),
        Err(StoreError::CommitNotFound(CommitId(3)))
    );
    assert!(matches!(store.commit_data(CommitId(3)), Err(StoreError::CommitNotFound(CommitId(3)))));
    assert_eq!(store.first_missing(&vec![CommitId(0), CommitId(4), CommitId(5)]), Some(CommitId(4)));
    assert_eq!(store.first_missing(&vec![CommitId(0)]), None);
}

#[test]
fn trees_are_stored_once_per_content() {
    let mut store = Store::new();
    let a = store.write_tree(10);
    let b = store.write_tree(11);
    assert_eq!(a, TreeId(1));
    assert_eq!(b, TreeId(2));
    assert_eq!(store.write_tree(10), a);
    // The empty tree is the tree of content zero.
    assert_eq!(store.write_tree(0), TreeId(0));
    assert!(!store.tree_has_conflict(a));
    assert!(!store.tree_has_conflict(TreeId(99)));
}

#[test]
fn merge_resolves_trivial_cases_and_keeps_conflicts_as_data() {
    let mut store = Store::new();
    let base = store.write_tree(1);
    let left = store.write_tree(2);
    let right = store.write_tree(3);
    // One side unchanged: the other side wins.
    assert_eq!(store.merge_trees(base, base, right), right);
    assert_eq!(store.merge_trees(base, left, base), left);
    // Both sides made the same change.
    assert_eq!(store.merge_trees(base, left, left), left);
    // A real conflict is a tree of its own, the same for the same three trees.
    assert_eq!(store.peek_merged_tree(base, left, right), None);
    let conflict = store.merge_trees(base, left, right);
    assert_eq!(conflict, TreeId(4));
    assert!(store.tree_has_conflict(conflict));
    assert_eq!(store.merge_trees(base, left, right), conflict);
    assert_eq!(store.peek_merged_tree(base, left, right), Some(conflict));
    assert_ne!(store.merge_trees(base, right, left), conflict);
}

#[test]
fn parents_tree_merges_over_the_empty_tree() {
    let mut store = Store::new();
    let t1 = store.write_tree(1);
    let t2 = store.write_tree(2);
    let c1 = store.write_commit(commit_on(vec![CommitId(0)], t1, "1")).unwrap();
    let c2 = store.write_commit(commit_on(vec![CommitId(0)], t2, "2")).unwrap();
    assert_eq!(store.peek_parents_tree(&vec![]), Some(TreeId(0)));
    assert_eq!(store.peek_parents_tree(&vec![c1]), Some(t1));
    assert_eq!(store.peek_parents_tree(&vec![c1, c2]), None);
    let expected = store.merge_trees(TreeId(0), t1, t2);
    assert_eq!(store.merged_parents_tree(&vec![c1, c2]), expected);
    assert_eq!(store.peek_parents_tree(&vec![c1, c2]), Some(expected));
    // A parent with the empty tree gives way.
    assert_eq!(store.merged_parents_tree(&vec![CommitId(0), c1]), t1);
}

#[test]
fn tree_data_and_timestamps_compare_by_value() {
    assert_eq!(TreeData::Leaf(1), TreeData::Leaf(1));
    assert_ne!(
        TreeData::Leaf(1),
        TreeData::Merge { base: TreeId(0), left: TreeId(1), right: TreeId(2) }
    );
    assert_eq!(
        Signature::empty().timestamp,
        Timestamp { millis_since_epoch: 0, tz_offset: 0 }
    );
    let copy = Signature::empty().dup();
    assert_eq!(copy.name, "");
    assert_eq!(copy.email, "");
}
