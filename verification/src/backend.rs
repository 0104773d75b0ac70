//! Commits, trees and the store that holds them.
//!
//! The store is content-addressed for trees and append-only for commits: an id, once handed
//! out, names the same object for ever.

use crate::id::{ChangeId, CommitId, OperationId, TreeId, ViewId};
use crate::idlist::copy_ids;
use vstd::prelude::*;

verus! {

/// Why a store could not serve a request.
#[derive(Clone, Copy, Debug, PartialEq, Eq, Structural)]
pub enum StoreError {
    /// No commit is stored under the id.
    CommitNotFound(CommitId),
    /// No operation is stored under the id.
    OperationNotFound(OperationId),
    /// No view is stored under the id.
    ViewNotFound(ViewId),
    /// A commit other than the root has to name at least one parent.
    NoParents,
    /// The commit stored under the id is not the one that was indexed under it.
    Mismatch(CommitId),
}

/// A point in time with the offset of the zone it was taken in.
#[derive(Clone, Copy, Debug, PartialEq, Eq, Structural)]
pub struct Timestamp {
    pub millis_since_epoch: i64,
    pub tz_offset: i32,
}

/// Who wrote or committed a commit, and when.
#[derive(Debug)]
pub struct Signature {
    pub name: String,
    pub email: String,
    pub timestamp: Timestamp,
}

/// The model of a [`Signature`].
pub struct SignatureModel {
    pub name: Seq<char>,
    pub email: Seq<char>,
    pub timestamp: Timestamp,
}

impl View for Signature {
    type V = SignatureModel;

    open spec fn view(&self) -> SignatureModel {
        SignatureModel { name: self.name@, email: self.email@, timestamp: self.timestamp }
    }
}

impl SignatureModel {
    /// The signature of nobody at the epoch.
    pub open spec fn empty() -> SignatureModel {
        SignatureModel {
            name: Seq::empty(),
            email: Seq::empty(),
            timestamp: Timestamp { millis_since_epoch: 0, tz_offset: 0 },
        }
    }
}

impl Signature {
    /// The signature of nobody at the epoch.
    pub fn empty() -> (s: Signature)
        ensures
            s@ == SignatureModel::empty(),
    {
        Signature {
            name: String::new(),
            email: String::new(),
            timestamp: Timestamp { millis_since_epoch: 0, tz_offset: 0 },
        }
    }

    /// A fresh signature with the same content.
    pub fn dup(&self) -> (s: Signature)
        ensures
            s@ == self@,
    {
        Signature {
            name: self.name.clone(),
            email: self.email.clone(),
            timestamp: self.timestamp,
        }
    }
}

/// What a tree is made of: opaque content, or the unresolved merge of three trees.
#[derive(Clone, Copy, Debug, PartialEq, Eq, Structural)]
pub enum TreeData {
    /// Content known to the store by a token.
    Leaf(u64),
    /// A merge that could not be resolved, kept as data.
    Merge { base: TreeId, left: TreeId, right: TreeId },
}

/// The fields of a commit.
#[derive(Debug)]
pub struct CommitData {
    pub parents: Vec<CommitId>,
    pub predecessors: Vec<CommitId>,
    pub tree: TreeId,
    pub change_id: ChangeId,
    pub description: String,
    pub author: Signature,
    pub committer: Signature,
    pub secure_sig: Option<Vec<u8>>,
}

/// The model of [`CommitData`].
pub struct CommitModel {
    pub parents: Seq<CommitId>,
    pub predecessors: Seq<CommitId>,
    pub tree: TreeId,
    pub change_id: ChangeId,
    pub description: Seq<char>,
    pub author: SignatureModel,
    pub committer: SignatureModel,
    pub secure_sig: Option<Seq<u8>>,
}

impl View for CommitData {
    type V = CommitModel;

    open spec fn view(&self) -> CommitModel {
        CommitModel {
            parents: self.parents@,
            predecessors: self.predecessors@,
            tree: self.tree,
            change_id: self.change_id,
            description: self.description@,
            author: self.author@,
            committer: self.committer@,
            secure_sig: match self.secure_sig {
                Some(sig) => Some(sig@),
                None => None,
            },
        }
    }
}

/// A copy of a byte string.
pub fn copy_bytes(v: &Vec<u8>) -> (r: Vec<u8>)
    ensures
        r@ == v@,
{
    let mut r: Vec<u8> = Vec::new();
    let mut i: usize = 0;
    while i < v.len()
        invariant
            i <= v@.len(),
            r@ == v@.take(i as int),
        decreases v@.len() - i,
    {
        r.push(v[i]);
        proof {
            assert(v@.take(i + 1) =~= v@.take(i as int).push(v@[i as int]));
        }
        i += 1;
    }
    proof {
        assert(v@.take(v@.len() as int) =~= v@);
    }
    r
}

impl CommitData {
    /// Fresh fields with the same content.
    pub fn dup(&self) -> (d: CommitData)
        ensures
            d@ == self@,
    {
        let secure_sig = match &self.secure_sig {
            Some(sig) => Some(copy_bytes(sig)),
            None => None,
        };
        CommitData {
            parents: copy_ids(&self.parents),
            predecessors: copy_ids(&self.predecessors),
            tree: self.tree,
            change_id: self.change_id,
            description: self.description.clone(),
            author: self.author.dup(),
            committer: self.committer.dup(),
            secure_sig,
        }
    }
}

/// A stored commit together with its id.
#[derive(Debug)]
pub struct Commit {
    pub id: CommitId,
    pub data: CommitData,
}

impl Commit {
    /// The id under which the commit is stored.
    pub fn id(&self) -> (id: CommitId)
        ensures
            id == self.id,
    {
        self.id
    }

    /// The ids of the parents, in their order.
    pub fn parent_ids(&self) -> (p: &Vec<CommitId>)
        ensures
            p@ == self.data@.parents,
    {
        &self.data.parents
    }

    /// The ids of the commits that this one was rewritten from.
    pub fn predecessor_ids(&self) -> (p: &Vec<CommitId>)
        ensures
            p@ == self.data@.predecessors,
    {
        &self.data.predecessors
    }

    /// The id of the tree.
    pub fn tree_id(&self) -> (t: TreeId)
        ensures
            t == self.data@.tree,
    {
        self.data.tree
    }

    /// The id of the change that the commit belongs to.
    pub fn change_id(&self) -> (c: ChangeId)
        ensures
            c == self.data@.change_id,
    {
        self.data.change_id
    }

    /// The description.
    pub fn description(&self) -> (d: &String)
        ensures
            d@ == self.data@.description,
    {
        &self.data.description
    }

    /// Whether the commit carries a cryptographic signature.
    pub fn is_signed(&self) -> (b: bool)
        ensures
            b == self.data@.secure_sig.is_some(),
    {
        self.data.secure_sig.is_some()
    }

    /// A fresh commit value with the same id and content.
    pub fn dup(&self) -> (c: Commit)
        ensures
            c.id == self.id,
            c.data@ == self.data@,
    {
        Commit { id: self.id, data: self.data.dup() }
    }
}

/// The model of a [`Store`]: commits and trees, each found by its id as a position.
pub struct StoreModel {
    pub commits: Seq<CommitModel>,
    pub trees: Seq<TreeData>,
}

impl StoreModel {
    /// Whether a commit is stored under the id.
    pub open spec fn has_commit(self, id: CommitId) -> bool {
        id.0 < self.commits.len()
    }

    /// The commit stored under the id.
    pub open spec fn commit(self, id: CommitId) -> CommitModel {
        self.commits[id.0 as int]
    }

    /// Whether every id of the list names a stored commit.
    pub open spec fn has_all(self, ids: Seq<CommitId>) -> bool {
        forall|i: int| 0 <= i < ids.len() ==> self.has_commit(#[trigger] ids[i])
    }

    /// The first id of the list under which no commit is stored.
    pub open spec fn first_missing(self, ids: Seq<CommitId>) -> Option<CommitId>
        decreases ids.len(),
    {
        if ids.len() == 0 {
            None
        } else {
            match self.first_missing(ids.drop_last()) {
                Some(id) => Some(id),
                None => if self.has_commit(ids.last()) {
                    None
                } else {
                    Some(ids.last())
                },
            }
        }
    }

    /// An id that is missing among the first `n` is the first that is missing at all.
    pub proof fn lemma_first_missing_stays(self, ids: Seq<CommitId>, n: int)
        requires
            0 <= n <= ids.len(),
            self.first_missing(ids.take(n)) is Some,
        ensures
            self.first_missing(ids) == self.first_missing(ids.take(n)),
        decreases ids.len() - n,
    {
        if n < ids.len() {
            assert(ids.take(n + 1).drop_last() =~= ids.take(n));
            self.lemma_first_missing_stays(ids, n + 1);
        } else {
            assert(ids.take(n) =~= ids);
        }
    }

    /// No id is missing exactly if every id names a stored commit; an id that is missing
    /// is in the list.
    pub proof fn lemma_first_missing(self, ids: Seq<CommitId>)
        ensures
            self.first_missing(ids) is None <==> self.has_all(ids),
            self.first_missing(ids) matches Some(id) ==> ids.contains(id) && !self.has_commit(id),
        decreases ids.len(),
    {
        if ids.len() > 0 {
            let front = ids.drop_last();
            self.lemma_first_missing(front);
            if self.first_missing(front) is None {
                assert forall|i: int| 0 <= i < front.len() implies self.has_commit(
                    #[trigger] ids[i],
                ) by {
                    assert(self.has_commit(front[i]));
                }
                if !self.has_commit(ids.last()) {
                    assert(ids[ids.len() - 1] == ids.last());
                }
            } else {
                let id = self.first_missing(front)->0;
                let k = choose|k: int| 0 <= k < front.len() && front[k] == id;
                assert(ids[k] == id);
            }
            if self.has_all(ids) {
                assert forall|i: int| 0 <= i < front.len() implies self.has_commit(
                    #[trigger] front[i],
                ) by {
                    assert(self.has_commit(ids[i]));
                }
                assert(self.has_commit(ids[ids.len() - 1]));
            }
        }
    }

    /// Why a commit with these parents cannot be written, if it cannot: it names no
    /// parent, or a parent that is not stored, of which the first is reported.
    pub open spec fn write_error(self, parents: Seq<CommitId>) -> Option<StoreError> {
        if parents.len() == 0 {
            Some(StoreError::NoParents)
        } else {
            match self.first_missing(parents) {
                Some(id) => Some(StoreError::CommitNotFound(id)),
                None => None,
            }
        }
    }

    /// The store that holds the root commit and the empty tree and nothing else.
    pub open spec fn initial() -> StoreModel {
        StoreModel {
            commits: seq![
                CommitModel {
                    parents: Seq::empty(),
                    predecessors: Seq::empty(),
                    tree: TreeId(0),
                    change_id: ChangeId(0),
                    description: Seq::empty(),
                    author: SignatureModel::empty(),
                    committer: SignatureModel::empty(),
                    secure_sig: None,
                },
            ],
            trees: seq![TreeData::Leaf(0)],
        }
    }

    /// The root is first and alone has no parent; parents are stored before their children;
    /// no tree is stored twice.
    pub open spec fn wf(self) -> bool {
        &&& self.commits.len() >= 1
        &&& self.commits.len() <= u64::MAX
        &&& self.commits[0].parents.len() == 0
        &&& forall|i: int|
            1 <= i < self.commits.len() ==> (#[trigger] self.commits[i]).parents.len() >= 1
        &&& forall|i: int, k: int|
            0 <= i < self.commits.len() && 0 <= k < self.commits[i].parents.len() ==> (
            #[trigger] self.commits[i].parents[k]).0 < i
        &&& self.trees.len() >= 1
        &&& self.trees.len() <= u64::MAX
        &&& self.trees[0] == TreeData::Leaf(0)
        &&& forall|i: int, j: int|
            0 <= i < j < self.trees.len() ==> #[trigger] self.trees[i] != #[trigger] self.trees[j]
    }

    /// Whether the tree data is stored.
    pub open spec fn has_tree_data(self, data: TreeData) -> bool {
        exists|i: int| 0 <= i < self.trees.len() && #[trigger] self.trees[i] == data
    }

    /// The id under which the tree data is stored, or the next free id.
    pub open spec fn tree_id_of(self, data: TreeData) -> TreeId {
        if self.has_tree_data(data) {
            TreeId((choose|i: int| 0 <= i < self.trees.len() && #[trigger] self.trees[i] == data) as u64)
        } else {
            TreeId(self.trees.len() as u64)
        }
    }

    /// The store after the tree data has been interned.
    pub open spec fn with_tree_data(self, data: TreeData) -> StoreModel {
        if self.has_tree_data(data) {
            self
        } else {
            StoreModel { commits: self.commits, trees: self.trees.push(data) }
        }
    }

    /// Whether a three-way merge resolves without a new tree.
    pub open spec fn merge_is_trivial(base: TreeId, left: TreeId, right: TreeId) -> bool {
        left == base || right == base || left == right
    }

    /// The tree that merges `left` and `right` over `base`.
    pub open spec fn merged_tree(self, base: TreeId, left: TreeId, right: TreeId) -> TreeId {
        if left == base {
            right
        } else if right == base {
            left
        } else if left == right {
            left
        } else {
            self.tree_id_of(TreeData::Merge { base, left, right })
        }
    }

    /// The store after `left` and `right` have been merged over `base`.
    pub open spec fn after_merge(self, base: TreeId, left: TreeId, right: TreeId) -> StoreModel {
        if Self::merge_is_trivial(base, left, right) {
            self
        } else {
            self.with_tree_data(TreeData::Merge { base, left, right })
        }
    }

    /// The tree that stands for the content of several parents, and the store after it
    /// has been made: the tree of a single parent, else the merge of the parents' trees
    /// over the empty tree, taken from the first parent on.
    pub open spec fn merge_parents(self, parents: Seq<CommitId>) -> (StoreModel, TreeId)
        decreases parents.len(),
    {
        if parents.len() == 0 {
            (self, TreeId(0))
        } else if parents.len() == 1 {
            (self, self.commit(parents[0]).tree)
        } else {
            let (store, tree) = self.merge_parents(parents.drop_last());
            let next = store.commit(parents.last()).tree;
            (store.after_merge(TreeId(0), tree, next), store.merged_tree(TreeId(0), tree, next))
        }
    }

    /// The merge of `left` and `right` over `base`, if it needs no tree that is not stored.
    pub open spec fn peek_merged_tree(self, base: TreeId, left: TreeId, right: TreeId) -> Option<
        TreeId,
    > {
        if Self::merge_is_trivial(base, left, right) || self.has_tree_data(
            TreeData::Merge { base, left, right },
        ) {
            Some(self.merged_tree(base, left, right))
        } else {
            None
        }
    }

    /// The tree that stands for the content of several parents, if it needs no tree that
    /// is not stored.
    pub open spec fn peek_parents_tree(self, parents: Seq<CommitId>) -> Option<TreeId>
        decreases parents.len(),
    {
        if parents.len() == 0 {
            Some(TreeId(0))
        } else if parents.len() == 1 {
            Some(self.commit(parents[0]).tree)
        } else {
            match self.peek_parents_tree(parents.drop_last()) {
                Some(tree) => self.peek_merged_tree(
                    TreeId(0),
                    tree,
                    self.commit(parents.last()).tree,
                ),
                None => None,
            }
        }
    }

    /// Making the tree of several parents changes no commit.
    pub proof fn lemma_merge_parents(self, parents: Seq<CommitId>)
        ensures
            self.merge_parents(parents).0.commits == self.commits,
        decreases parents.len(),
    {
        if parents.len() >= 2 {
            self.lemma_merge_parents(parents.drop_last());
        }
    }

    /// Once a prefix of the parents needs a tree that is not stored, so does the whole.
    pub proof fn lemma_peek_none(self, parents: Seq<CommitId>, n: int)
        requires
            2 <= n <= parents.len(),
            self.peek_parents_tree(parents.take(n)) is None,
        ensures
            self.peek_parents_tree(parents) is None,
        decreases parents.len() - n,
    {
        if n < parents.len() {
            assert(parents.take(n + 1).drop_last() =~= parents.take(n));
            self.lemma_peek_none(parents, n + 1);
        } else {
            assert(parents.take(n) =~= parents);
        }
    }

    /// The store after a commit with these fields has been appended.
    pub open spec fn with_commit(self, data: CommitModel) -> StoreModel {
        StoreModel { commits: self.commits.push(data), trees: self.trees }
    }

    /// The id that the next written commit gets.
    pub open spec fn next_commit_id(self) -> CommitId {
        CommitId(self.commits.len() as u64)
    }

    /// Whether a tree under the id holds an unresolved merge.
    pub open spec fn tree_has_conflict(self, id: TreeId) -> bool {
        id.0 < self.trees.len() && self.trees[id.0 as int] is Merge
    }
}

/// Commits and trees held in memory.
pub struct Store {
    commits: Vec<CommitData>,
    trees: Vec<TreeData>,
}

impl View for Store {
    type V = StoreModel;

    closed spec fn view(&self) -> StoreModel {
        StoreModel { commits: Seq::new(self.commits@.len(), |i: int| self.commits@[i]@), trees: self.trees@ }
    }
}

impl Store {
    /// A store that holds the root commit and the empty tree.
    pub fn new() -> (s: Store)
        ensures
            s@.wf(),
            s@ == StoreModel::initial(),
    {
        let root = CommitData {
            parents: Vec::new(),
            predecessors: Vec::new(),
            tree: TreeId(0),
            change_id: ChangeId(0),
            description: String::new(),
            author: Signature::empty(),
            committer: Signature::empty(),
            secure_sig: None,
        };
        let mut commits: Vec<CommitData> = Vec::new();
        commits.push(root);
        let mut trees: Vec<TreeData> = Vec::new();
        trees.push(TreeData::Leaf(0));
        let store = Store { commits, trees };
        proof {
            assert(store@.commits =~= StoreModel::initial().commits);
            assert(store@.trees =~= StoreModel::initial().trees);
        }
        store
    }

    /// The id of the root commit, the ancestor of every other commit.
    pub fn root_commit_id(&self) -> (id: CommitId)
        ensures
            id == CommitId(0),
    {
        CommitId(0)
    }

    /// The id of the tree without content.
    pub fn empty_tree_id(&self) -> (id: TreeId)
        ensures
            id == TreeId(0),
    {
        TreeId(0)
    }

    /// The id that the next written commit gets.
    pub fn next_commit_id(&self) -> (id: CommitId)
        ensures
            id == self@.next_commit_id(),
    {
        CommitId(self.commits.len() as u64)
    }

    /// Whether a commit is stored under the id.
    pub fn has_commit(&self, id: CommitId) -> (b: bool)
        ensures
            b == self@.has_commit(id),
    {
        id.0 < self.commits.len() as u64
    }

    /// The fields of the commit stored under the id.
    pub fn commit_data(&self, id: CommitId) -> (r: Result<&CommitData, StoreError>)
        ensures
            match r {
                Ok(data) => self@.has_commit(id) && data@ == self@.commit(id),
                Err(e) => !self@.has_commit(id) && e == StoreError::CommitNotFound(id),
            },
    {
        if id.0 < self.commits.len() as u64 {
            Ok(&self.commits[id.0 as usize])
        } else {
            Err(StoreError::CommitNotFound(id))
        }
    }

    /// The commit stored under the id.
    pub fn get_commit(&self, id: CommitId) -> (r: Result<Commit, StoreError>)
        ensures
            match r {
                Ok(commit) => self@.has_commit(id) && commit.id == id && commit.data@
                    == self@.commit(id),
                Err(e) => !self@.has_commit(id) && e == StoreError::CommitNotFound(id),
            },
    {
        match self.commit_data(id) {
            Ok(data) => Ok(Commit { id, data: data.dup() }),
            Err(e) => Err(e),
        }
    }

    /// The root commit.
    pub fn root_commit(&self) -> (c: Commit)
        requires
            self@.wf(),
        ensures
            c.id == CommitId(0),
            c.data@ == self@.commit(CommitId(0)),
    {
        Commit { id: CommitId(0), data: self.commits[0].dup() }
    }

    /// The first id of the list under which no commit is stored.
    pub fn first_missing(&self, ids: &Vec<CommitId>) -> (r: Option<CommitId>)
        ensures
            r == self@.first_missing(ids@),
            match r {
                Some(id) => ids@.contains(id) && !self@.has_commit(id),
                None => self@.has_all(ids@),
            },
    {
        proof {
            assert(ids@.take(0) =~= Seq::<CommitId>::empty());
            self@.lemma_first_missing(ids@);
        }
        let mut i: usize = 0;
        while i < ids.len()
            invariant
                i <= ids@.len(),
                self@.first_missing(ids@.take(i as int)) is None,
            decreases ids@.len() - i,
        {
            proof {
                assert(ids@.take(i + 1).drop_last() =~= ids@.take(i as int));
                assert(ids@.take(i + 1).last() == ids@[i as int]);
            }
            if !self.has_commit(ids[i]) {
                proof {
                    self@.lemma_first_missing_stays(ids@, i + 1);
                }
                return Some(ids[i]);
            }
            i += 1;
        }
        proof {
            assert(ids@.take(ids@.len() as int) =~= ids@);
        }
        None
    }

    /// Stores the tree data unless it is stored already, and returns its id.
    fn intern_tree(&mut self, data: TreeData) -> (id: TreeId)
        requires
            old(self)@.wf(),
        ensures
            final(self)@.wf(),
            id == old(self)@.tree_id_of(data),
            final(self)@ == old(self)@.with_tree_data(data),
            id.0 < final(self)@.trees.len(),
            final(self)@.trees[id.0 as int] == data,
    {
        let mut i: usize = 0;
        while i < self.trees.len()
            invariant
                *self == *old(self),
                self@.wf(),
                i <= self.trees@.len(),
                forall|j: int| 0 <= j < i ==> self.trees@[j] != data,
            decreases self.trees@.len() - i,
        {
            if self.trees[i] == data {
                proof {
                    let m = self@;
                    assert(m.trees[i as int] == data);
                    let c = choose|c: int| 0 <= c < m.trees.len() && #[trigger] m.trees[c] == data;
                    if c < i {
                        assert(m.trees[c] != m.trees[i as int]);
                    } else if i < c {
                        assert(m.trees[i as int] != m.trees[c]);
                    }
                }
                return TreeId(i as u64);
            }
            i += 1;
        }
        let id = TreeId(self.trees.len() as u64);
        self.trees.push(data);
        let count = self.trees.len();
        proof {
            let m0 = old(self)@;
            let m1 = self@;
            assert(!m0.has_tree_data(data));
            assert(m1.commits =~= m0.commits);
            assert(m1.trees =~= m0.trees.push(data));
            assert(count <= u64::MAX);
            assert forall|a: int, b: int| 0 <= a < b < m1.trees.len() implies #[trigger] m1.trees[a]
                != #[trigger] m1.trees[b] by {
                if b < m0.trees.len() {
                    assert(m0.trees[a] != m0.trees[b]);
                } else {
                    assert(m0.trees[a] != data);
                }
            }
        }
        id
    }

    /// Stores a tree with the given content and returns its id; equal content gives the
    /// same id.
    pub fn write_tree(&mut self, content: u64) -> (id: TreeId)
        requires
            old(self)@.wf(),
        ensures
            final(self)@.wf(),
            id == old(self)@.tree_id_of(TreeData::Leaf(content)),
            final(self)@ == old(self)@.with_tree_data(TreeData::Leaf(content)),
    {
        self.intern_tree(TreeData::Leaf(content))
    }

    /// Merges `left` and `right` over `base` and returns the id of the result.
    ///
    /// A side that equals the base gives way to the other, equal sides merge to
    /// themselves, and any other merge is stored as an unresolved merge of the three.
    pub fn merge_trees(&mut self, base: TreeId, left: TreeId, right: TreeId) -> (id: TreeId)
        requires
            old(self)@.wf(),
        ensures
            final(self)@.wf(),
            id == old(self)@.merged_tree(base, left, right),
            final(self)@ == old(self)@.after_merge(base, left, right),
    {
        if left == base {
            right
        } else if right == base {
            left
        } else if left == right {
            left
        } else {
            self.intern_tree(TreeData::Merge { base, left, right })
        }
    }

    /// The tree of a stored commit.
    pub fn tree_of(&self, id: CommitId) -> (tree: TreeId)
        requires
            self@.has_commit(id),
        ensures
            tree == self@.commit(id).tree,
    {
        let count = self.commits.len();
        self.commits[id.0 as usize].tree
    }

    /// The parents of a stored commit.
    pub fn parents_of(&self, id: CommitId) -> (parents: &Vec<CommitId>)
        requires
            self@.has_commit(id),
        ensures
            parents@ == self@.commit(id).parents,
    {
        let count = self.commits.len();
        &self.commits[id.0 as usize].parents
    }

    /// The merge of `left` and `right` over `base`, if it needs no tree that is not stored.
    pub fn peek_merged_tree(&self, base: TreeId, left: TreeId, right: TreeId) -> (r: Option<TreeId>)
        requires
            self@.wf(),
        ensures
            r == self@.peek_merged_tree(base, left, right),
    {
        if left == base {
            Some(right)
        } else if right == base {
            Some(left)
        } else if left == right {
            Some(left)
        } else {
            let data = TreeData::Merge { base, left, right };
            let mut i: usize = 0;
            while i < self.trees.len()
                invariant
                    self@.wf(),
                    left != base,
                    right != base,
                    left != right,
                    data == (TreeData::Merge { base, left, right }),
                    i <= self.trees@.len(),
                    forall|j: int| 0 <= j < i ==> self.trees@[j] != data,
                decreases self.trees@.len() - i,
            {
                if self.trees[i] == data {
                    proof {
                        let m = self@;
                        assert(m.trees[i as int] == data);
                        let c = choose|c: int|
                            0 <= c < m.trees.len() && #[trigger] m.trees[c] == data;
                        if c < i {
                            assert(m.trees[c] != m.trees[i as int]);
                        } else if i < c {
                            assert(m.trees[i as int] != m.trees[c]);
                        }
                    }
                    return Some(TreeId(i as u64));
                }
                i += 1;
            }
            None
        }
    }

    /// The tree that stands for the content of the parents, made if it is not stored yet.
    pub fn merged_parents_tree(&mut self, parents: &Vec<CommitId>) -> (tree: TreeId)
        requires
            old(self)@.wf(),
            old(self)@.has_all(parents@),
        ensures
            final(self)@.wf(),
            final(self)@ == old(self)@.merge_parents(parents@).0,
            tree == old(self)@.merge_parents(parents@).1,
    {
        if parents.len() == 0 {
            return TreeId(0);
        }
        proof {
            assert(self@.has_commit(parents@[0]));
            assert(parents@.take(1) =~= seq![parents@[0]]);
        }
        let mut tree = self.tree_of(parents[0]);
        let mut i: usize = 1;
        while i < parents.len()
            invariant
                1 <= i <= parents@.len(),
                self@.wf(),
                old(self)@.has_all(parents@),
                self@.commits == old(self)@.commits,
                self@ == old(self)@.merge_parents(parents@.take(i as int)).0,
                tree == old(self)@.merge_parents(parents@.take(i as int)).1,
            decreases parents@.len() - i,
        {
            proof {
                assert(old(self)@.has_commit(parents@[i as int]));
                assert(parents@.take(i + 1).drop_last() =~= parents@.take(i as int));
                assert(parents@.take(i + 1).last() == parents@[i as int]);
                old(self)@.lemma_merge_parents(parents@.take(i + 1));
            }
            let next = self.tree_of(parents[i]);
            tree = self.merge_trees(TreeId(0), tree, next);
            i += 1;
        }
        proof {
            assert(parents@.take(parents@.len() as int) =~= parents@);
        }
        tree
    }

    /// The tree that stands for the content of the parents, if it needs no tree that is
    /// not stored.
    pub fn peek_parents_tree(&self, parents: &Vec<CommitId>) -> (r: Option<TreeId>)
        requires
            self@.wf(),
            self@.has_all(parents@),
        ensures
            r == self@.peek_parents_tree(parents@),
    {
        if parents.len() == 0 {
            return Some(TreeId(0));
        }
        proof {
            assert(self@.has_commit(parents@[0]));
            assert(parents@.take(1) =~= seq![parents@[0]]);
        }
        let mut tree = self.tree_of(parents[0]);
        let mut i: usize = 1;
        while i < parents.len()
            invariant
                1 <= i <= parents@.len(),
                self@.wf(),
                self@.has_all(parents@),
                self@.peek_parents_tree(parents@.take(i as int)) == Some(tree),
            decreases parents@.len() - i,
        {
            proof {
                assert(self@.has_commit(parents@[i as int]));
                assert(parents@.take(i + 1).drop_last() =~= parents@.take(i as int));
                assert(parents@.take(i + 1).last() == parents@[i as int]);
            }
            let next = self.tree_of(parents[i]);
            match self.peek_merged_tree(TreeId(0), tree, next) {
                Some(t) => {
                    tree = t;
                },
                None => {
                    proof {
                        self@.lemma_peek_none(parents@, i as int + 1);
                    }
                    return None;
                },
            }
            i += 1;
        }
        proof {
            assert(parents@.take(parents@.len() as int) =~= parents@);
        }
        Some(tree)
    }

    /// Whether the tree holds an unresolved merge.
    pub fn tree_has_conflict(&self, id: TreeId) -> (b: bool)
        ensures
            b == self@.tree_has_conflict(id),
    {
        if id.0 < self.trees.len() as u64 {
            match self.trees[id.0 as usize] {
                TreeData::Merge { .. } => true,
                TreeData::Leaf(_) => false,
            }
        } else {
            false
        }
    }

    /// Appends a commit and returns its id.
    ///
    /// Fails, and leaves the store as it was, if the commit names no parent or names a
    /// parent that is not stored.
    pub fn write_commit(&mut self, data: CommitData) -> (r: Result<CommitId, StoreError>)
        requires
            old(self)@.wf(),
        ensures
            final(self)@.wf(),
            match r {
                Ok(id) => {
                    &&& data@.parents.len() > 0
                    &&& old(self)@.has_all(data@.parents)
                    &&& id == old(self)@.next_commit_id()
                    &&& final(self)@ == old(self)@.with_commit(data@)
                },
                Err(e) => {
                    &&& final(self)@ == old(self)@
                    &&& old(self)@.write_error(data@.parents) == Some(e)
                },
            },
    {
        proof {
            self@.lemma_first_missing(data@.parents);
        }
        if data.parents.len() == 0 {
            return Err(StoreError::NoParents);
        }
        match self.first_missing(&data.parents) {
            Some(p) => {
                return Err(StoreError::CommitNotFound(p));
            },
            None => {},
        }
        let id = CommitId(self.commits.len() as u64);
        let ghost d = data@;
        self.commits.push(data);
        let count = self.commits.len();
        proof {
            let m0 = old(self)@;
            let m1 = self@;
            assert(m1.commits =~= m0.commits.push(d));
            assert(m1.trees == m0.trees);
            assert(m1.commits.len() == self.commits@.len());
            assert(count <= u64::MAX);
            assert forall|i: int| 1 <= i < m1.commits.len() implies (
            #[trigger] m1.commits[i]).parents.len() >= 1 by {
                if i < m0.commits.len() {
                    assert(m1.commits[i] == m0.commits[i]);
                }
            }
            assert forall|i: int, k: int|
                0 <= i < m1.commits.len() && 0 <= k < m1.commits[i].parents.len() implies (
            #[trigger] m1.commits[i].parents[k]).0 < i by {
                if i < m0.commits.len() {
                    assert(m1.commits[i] == m0.commits[i]);
                    assert(m0.commits[i].parents[k].0 < i);
                } else {
                    assert(m0.has_commit(d.parents[k]));
                }
            }
        }
        Ok(id)
    }
}

} // verus!
