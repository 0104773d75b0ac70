use vcs_core::id::CommitId;
use vcs_core::index::Index;

fn diamond() -> Index {
    // 0 <- 1 <- 3, 0 <- 2 <- 3, 3 <- 4
    let mut index = Index::new();
    assert!(index.add_commit(CommitId(0), &vec![]));
    assert!(index.add_commit(CommitId(1), &vec![CommitId(0)]));
    assert!(index.add_commit(CommitId(2), &vec![CommitId(0)]));
    assert!(index.add_commit(CommitId(3), &vec![CommitId(1), CommitId(2)]));
    assert!(index.add_commit(CommitId(4), &vec![CommitId(3)]));
    index
}

#[test]
fn index_generation_is_longest_path_from_a_root() {
    let mut index = diamond();
    assert_eq!(index.generation_number(CommitId(0)), Some(0));
    assert_eq!(index.generation_number(CommitId(1)), Some(1));
    assert_eq!(index.generation_number(CommitId(2)), Some(1));
    assert_eq!(index.generation_number(CommitId(3)), Some(2));
    assert_eq!(index.generation_number(CommitId(4)), Some(3));
    assert_eq!(index.generation_number(CommitId(5)), None);
    // A commit on a short and a long path takes the long one.
    assert!(index.add_commit(CommitId(5), &vec![CommitId(0), CommitId(4)]));
    assert_eq!(index.generation_number(CommitId(5)), Some(4));
    assert_eq!(index.generation_at(5), 4);
}

#[test]
fn index_refuses_known_ids_and_unknown_parents() {
    let mut index = diamond();
    assert_eq!(index.len(), 5);
    assert!(!index.add_commit(CommitId(3), &vec![CommitId(0)]));
    assert!(!index.add_commit(CommitId(9), &vec![CommitId(8)]));
    assert_eq!(index.len(), 5);
    assert!(!index.has_id(CommitId(9)));
    assert!(index.has_id(CommitId(3)));
    assert_eq!(index.position(CommitId(3)), Some(3));
    assert_eq!(index.position(CommitId(9)), None);
    assert_eq!(index.id_at(3), CommitId(3));
    assert_eq!(index.parents_at(3), &vec![CommitId(1), CommitId(2)]);
    assert_eq!(index.positions_at(3), &vec![1, 2]);
}

#[test]
fn index_answers_ancestry() {
    let index = diamond();
    assert!(index.is_ancestor(CommitId(0), CommitId(4)));
    assert!(index.is_ancestor(CommitId(1), CommitId(3)));
    assert!(index.is_ancestor(CommitId(2), CommitId(4)));
    assert!(index.is_ancestor(CommitId(3), CommitId(3)));
    assert!(!index.is_ancestor(CommitId(1), CommitId(2)));
    assert!(!index.is_ancestor(CommitId(4), CommitId(3)));
    assert!(!index.is_ancestor(CommitId(9), CommitId(3)));
    assert!(!index.is_ancestor(CommitId(3), CommitId(9)));
}

#[test]
fn index_marks_descendants_of_several_roots() {
    let index = diamond();
    assert_eq!(
        index.mark_descendants(&vec![CommitId(1)]),
        vec![false, true, false, true, true]
    );
    assert_eq!(
        index.mark_descendants(&vec![CommitId(2), CommitId(4)]),
        vec![false, false, true, true, true]
    );
    assert_eq!(index.mark_descendants(&vec![]), vec![false; 5]);
}

#[test]
fn index_copy_is_independent() {
    let index = diamond();
    let mut copy = index.dup();
    assert!(copy.add_commit(CommitId(7), &vec![CommitId(4)]));
    assert!(copy.has_id(CommitId(7)));
    assert!(!index.has_id(CommitId(7)));
    assert_eq!(copy.generation_number(CommitId(4)), Some(3));
}
