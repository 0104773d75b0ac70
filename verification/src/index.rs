//! The ancestry index: every known commit with its parents and its generation number.
//!
//! The index only grows. A commit enters after its parents, so the order of entry is a
//! topological order, and every ancestry question is answered by one pass over the entries.

use crate::id::CommitId;
use crate::idlist::{contains_id, copy_ids};
use vstd::prelude::*;

verus! {

/// The model of one entry of the index.
pub struct EntryModel {
    pub id: CommitId,
    pub parents: Seq<CommitId>,
    /// Where each parent stands in the index.
    pub positions: Seq<int>,
    /// The length of the longest path from a commit without parents.
    pub generation: nat,
}

/// The model of the index: its entries in the order in which they entered.
pub struct IndexModel {
    pub entries: Seq<EntryModel>,
}

impl IndexModel {
    /// Whether the id is indexed.
    pub open spec fn has_id(self, id: CommitId) -> bool {
        exists|i: int| 0 <= i < self.entries.len() && (#[trigger] self.entries[i]).id == id
    }

    /// Whether every id of the list is indexed.
    pub open spec fn has_all(self, ids: Seq<CommitId>) -> bool {
        forall|k: int| 0 <= k < ids.len() ==> self.has_id(#[trigger] ids[k])
    }

    /// Where the id stands in the index.
    pub open spec fn position(self, id: CommitId) -> int {
        choose|i: int| 0 <= i < self.entries.len() && (#[trigger] self.entries[i]).id == id
    }

    /// One more than the greatest generation among the entries at `positions`, or zero
    /// where there is none.
    pub open spec fn level(self, positions: Seq<int>) -> nat
        decreases positions.len(),
    {
        if positions.len() == 0 {
            0
        } else {
            let rest = self.level(positions.drop_last());
            let here = self.entries[positions.last()].generation + 1;
            if rest >= here {
                rest
            } else {
                here
            }
        }
    }

    /// Ids are distinct, parents stand before their children, and generations are exact.
    pub open spec fn wf(self) -> bool {
        &&& forall|i: int, j: int|
            0 <= i < j < self.entries.len() ==> (#[trigger] self.entries[i]).id != (
            #[trigger] self.entries[j]).id
        &&& forall|i: int|
            0 <= i < self.entries.len() ==> (#[trigger] self.entries[i]).positions.len()
                == self.entries[i].parents.len()
        &&& forall|i: int, k: int|
            0 <= i < self.entries.len() && 0 <= k < self.entries[i].positions.len() ==> {
                &&& 0 <= (#[trigger] self.entries[i].positions[k]) < i
                &&& self.entries[self.entries[i].positions[k]].id == self.entries[i].parents[k]
            }
        &&& forall|i: int|
            0 <= i < self.entries.len() ==> (#[trigger] self.entries[i]).generation == self.level(
                self.entries[i].positions,
            )
        &&& forall|i: int| 0 <= i < self.entries.len() ==> (#[trigger] self.entries[i]).generation <= i
    }

    /// Whether the entry at `pos` is one of `roots` or has an ancestor among them.
    pub open spec fn reaches(self, roots: Set<CommitId>, pos: int) -> bool
        decreases pos,
    {
        if 0 <= pos < self.entries.len() {
            roots.contains(self.entries[pos].id) || exists|k: int|
                0 <= k < self.entries[pos].positions.len() && 0 <= (
                #[trigger] self.entries[pos].positions[k]) < pos && self.reaches(
                    roots,
                    self.entries[pos].positions[k],
                )
        } else {
            false
        }
    }

    /// Whether the id is indexed and is one of `roots` or a descendant of one.
    pub open spec fn descends_from(self, roots: Set<CommitId>, id: CommitId) -> bool {
        self.has_id(id) && self.reaches(roots, self.position(id))
    }

    /// Whether `a` is `b` or an ancestor of `b`, both being indexed.
    pub open spec fn is_ancestor(self, a: CommitId, b: CommitId) -> bool {
        self.descends_from(set![a], b)
    }

    /// The generation number of an indexed id.
    pub open spec fn generation(self, id: CommitId) -> nat {
        self.entries[self.position(id)].generation
    }

    /// The parents of an indexed id.
    pub open spec fn parents(self, id: CommitId) -> Seq<CommitId> {
        self.entries[self.position(id)].parents
    }

    /// Where each id of the list stands in the index.
    pub open spec fn positions_of(self, ids: Seq<CommitId>) -> Seq<int> {
        Seq::new(ids.len(), |k: int| self.position(ids[k]))
    }

    /// The entry that a commit with these parents gets.
    pub open spec fn entry_for(self, id: CommitId, parents: Seq<CommitId>) -> EntryModel {
        let positions = self.positions_of(parents);
        EntryModel { id, parents, positions, generation: self.level(positions) }
    }

    /// Whether a commit with these parents can enter: it is new and its parents are indexed.
    pub open spec fn admits(self, id: CommitId, parents: Seq<CommitId>) -> bool {
        !self.has_id(id) && self.has_all(parents)
    }

    /// The index after the commit has entered, or the index itself if it cannot.
    pub open spec fn with_commit(self, id: CommitId, parents: Seq<CommitId>) -> IndexModel {
        if self.admits(id, parents) {
            IndexModel { entries: self.entries.push(self.entry_for(id, parents)) }
        } else {
            self
        }
    }

    /// The position of an indexed id is the one place where it stands.
    pub proof fn lemma_position(self, i: int)
        requires
            self.wf(),
            0 <= i < self.entries.len(),
        ensures
            self.has_id(self.entries[i].id),
            self.position(self.entries[i].id) == i,
    {
        let id = self.entries[i].id;
        let j = self.position(id);
        assert(0 <= j < self.entries.len() && self.entries[j].id == id);
        if j < i {
            assert(self.entries[j].id != self.entries[i].id);
        } else if i < j {
            assert(self.entries[i].id != self.entries[j].id);
        }
    }

    /// The level of a list of positions exceeds the generation at each of them.
    pub proof fn lemma_level(self, positions: Seq<int>, k: int)
        requires
            0 <= k < positions.len(),
        ensures
            self.level(positions) > self.entries[positions[k]].generation,
        decreases positions.len(),
    {
        if k < positions.len() - 1 {
            self.lemma_level(positions.drop_last(), k);
            assert(positions.drop_last()[k] == positions[k]);
        }
    }

    /// The level of positions that all stand below `bound` is at most `bound`.
    pub proof fn lemma_level_bound(self, positions: Seq<int>, bound: int)
        requires
            forall|k: int| 0 <= k < positions.len() ==> 0 <= (#[trigger] positions[k]) < bound,
            forall|i: int| 0 <= i < bound ==> (#[trigger] self.entries[i]).generation <= i,
            0 <= bound,
        ensures
            self.level(positions) <= bound,
        decreases positions.len(),
    {
        if positions.len() > 0 {
            let front = positions.drop_last();
            assert forall|k: int| 0 <= k < front.len() implies 0 <= (#[trigger] front[k])
                < bound by {
                assert(front[k] == positions[k]);
            }
            self.lemma_level_bound(front, bound);
            let p = positions[positions.len() - 1];
            assert(0 <= p < bound);
            assert(self.entries[p].generation <= p);
        }
    }

    /// A level depends only on the entries it looks at.
    pub proof fn lemma_level_prefix(self, other: IndexModel, positions: Seq<int>)
        requires
            forall|k: int|
                0 <= k < positions.len() ==> (#[trigger] self.entries[positions[k]])
                    == other.entries[positions[k]],
        ensures
            self.level(positions) == other.level(positions),
        decreases positions.len(),
    {
        if positions.len() > 0 {
            let front = positions.drop_last();
            assert forall|k: int| 0 <= k < front.len() implies (
            #[trigger] self.entries[front[k]]) == other.entries[front[k]] by {
                assert(front[k] == positions[k]);
                assert(self.entries[positions[k]] == other.entries[positions[k]]);
            }
            self.lemma_level_prefix(other, front);
            let k = positions.len() - 1;
            assert(self.entries[positions[k]] == other.entries[positions[k]]);
        }
    }

    /// The parents of an entering commit stand where the index has them.
    pub proof fn lemma_entry_for(self, id: CommitId, parents: Seq<CommitId>)
        requires
            self.wf(),
            self.has_all(parents),
        ensures
            self.entry_for(id, parents).positions.len() == parents.len(),
            forall|k: int|
                0 <= k < parents.len() ==> 0 <= (#[trigger] self.entry_for(
                    id,
                    parents,
                ).positions[k]) < self.entries.len() && self.entries[self.entry_for(
                    id,
                    parents,
                ).positions[k]].id == parents[k],
            self.entry_for(id, parents).generation <= self.entries.len(),
    {
        let e = self.entry_for(id, parents);
        let n = self.entries.len() as int;
        assert forall|k: int| 0 <= k < parents.len() implies 0 <= (#[trigger] e.positions[k]) < n
            && self.entries[e.positions[k]].id == parents[k] by {
            assert(self.has_id(parents[k]));
            let p = self.position(parents[k]);
            assert(0 <= p < n && self.entries[p].id == parents[k]);
        }
        self.lemma_level_bound(e.positions, n);
    }

    /// Entering a commit keeps the index well formed.
    pub proof fn lemma_with_commit_wf(self, id: CommitId, parents: Seq<CommitId>)
        requires
            self.wf(),
        ensures
            self.with_commit(id, parents).wf(),
    {
        let next = self.with_commit(id, parents);
        if self.admits(id, parents) {
            let n = self.entries.len() as int;
            let e = self.entry_for(id, parents);
            self.lemma_entry_for(id, parents);
            assert(next.entries[n] == e);
            assert forall|i: int| 0 <= i < n implies #[trigger] next.entries[i] == self.entries[i] by {}
            assert forall|i: int, j: int| 0 <= i < j < next.entries.len() implies (
            #[trigger] next.entries[i]).id != (#[trigger] next.entries[j]).id by {
                if j < n {
                    assert(self.entries[i].id != self.entries[j].id);
                } else {
                    if self.entries[i].id == id {
                        assert(self.has_id(id));
                    }
                }
            }
            assert forall|i: int| 0 <= i < next.entries.len() implies (
            #[trigger] next.entries[i]).positions.len() == next.entries[i].parents.len() by {
                if i < n {
                    assert(next.entries[i] == self.entries[i]);
                }
            }
            assert forall|i: int, k: int|
                0 <= i < next.entries.len() && 0 <= k < next.entries[i].positions.len() implies {
                &&& 0 <= (#[trigger] next.entries[i].positions[k]) < i
                &&& next.entries[next.entries[i].positions[k]].id == next.entries[i].parents[k]
            } by {
                if i < n {
                    assert(next.entries[i] == self.entries[i]);
                    let p = self.entries[i].positions[k];
                    assert(0 <= p < i);
                    assert(next.entries[p] == self.entries[p]);
                } else {
                    let p = e.positions[k];
                    assert(0 <= p < n);
                    assert(next.entries[p] == self.entries[p]);
                }
            }
            assert forall|i: int| 0 <= i < next.entries.len() implies (
            #[trigger] next.entries[i]).generation == next.level(next.entries[i].positions) by {
                let ps = next.entries[i].positions;
                assert forall|k: int| 0 <= k < ps.len() implies (#[trigger] next.entries[ps[k]])
                    == self.entries[ps[k]] by {
                    if i < n {
                        assert(next.entries[i] == self.entries[i]);
                        assert(0 <= self.entries[i].positions[k] < i);
                    } else {
                        assert(0 <= e.positions[k] < n);
                    }
                }
                next.lemma_level_prefix(self, ps);
                if i < n {
                    assert(next.entries[i] == self.entries[i]);
                }
            }
            assert forall|i: int| 0 <= i < next.entries.len() implies (
            #[trigger] next.entries[i]).generation <= i by {
                if i < n {
                    assert(next.entries[i] == self.entries[i]);
                }
            }
        }
    }

    /// Entering a commit keeps every earlier entry where it was and adds only that commit.
    pub proof fn lemma_with_commit(self, id: CommitId, parents: Seq<CommitId>)
        requires
            self.wf(),
        ensures
            self.with_commit(id, parents).wf(),
            forall|x: CommitId| self.has_id(x) ==> self.with_commit(id, parents).has_id(x),
            forall|x: CommitId|
                self.has_id(x) ==> self.with_commit(id, parents).position(x) == self.position(x),
            self.admits(id, parents) ==> self.with_commit(id, parents).has_id(id)
                && self.with_commit(id, parents).position(id) == self.entries.len(),
            forall|x: CommitId|
                self.with_commit(id, parents).has_id(x) ==> self.has_id(x) || (x == id
                    && self.admits(id, parents)),
    {
        let next = self.with_commit(id, parents);
        self.lemma_with_commit_wf(id, parents);
        if self.admits(id, parents) {
            let n = self.entries.len() as int;
            assert(next.entries[n] == self.entry_for(id, parents));
            assert forall|x: CommitId| self.has_id(x) implies next.has_id(x) && next.position(x)
                == self.position(x) by {
                let p = self.position(x);
                assert(next.entries[p] == self.entries[p]);
                next.lemma_position(p);
            }
            next.lemma_position(n);
            assert forall|x: CommitId| next.has_id(x) implies self.has_id(x) || x == id by {
                let p = next.position(x);
                if p < n {
                    assert(next.entries[p] == self.entries[p]);
                }
            }
        }
    }

    /// Whether `other` holds every entry of this index at its place.
    pub open spec fn extended_by(self, other: IndexModel) -> bool {
        &&& self.entries.len() <= other.entries.len()
        &&& forall|i: int|
            0 <= i < self.entries.len() ==> (#[trigger] other.entries[i]) == self.entries[i]
    }

    /// An index that grew still has every id where it was, and every ancestry among them.
    pub proof fn lemma_extended(self, other: IndexModel)
        requires
            self.wf(),
            other.wf(),
            self.extended_by(other),
        ensures
            forall|x: CommitId| self.has_id(x) ==> other.has_id(x) && other.position(x)
                == self.position(x),
            forall|a: CommitId, b: CommitId|
                self.has_id(b) ==> self.is_ancestor(a, b) == other.is_ancestor(a, b),
            forall|roots: Set<CommitId>, b: CommitId|
                self.has_id(b) ==> self.descends_from(roots, b) == other.descends_from(roots, b),
    {
        assert forall|x: CommitId| self.has_id(x) implies other.has_id(x) && other.position(x)
            == self.position(x) by {
            let p = self.position(x);
            assert(other.entries[p] == self.entries[p]);
            other.lemma_position(p);
        }
        assert forall|roots: Set<CommitId>, b: CommitId| self.has_id(b) implies self.descends_from(
            roots,
            b,
        ) == other.descends_from(roots, b) by {
            let p = self.position(b);
            assert(other.entries[p] == self.entries[p]);
            other.lemma_position(p);
            self.lemma_reaches_prefix(other, roots, p);
        }
    }

    /// Being extended is transitive, and entering a commit extends.
    pub proof fn lemma_extended_trans(self, mid: IndexModel, other: IndexModel)
        requires
            self.extended_by(mid),
            mid.extended_by(other),
        ensures
            self.extended_by(other),
    {
        assert forall|i: int| 0 <= i < self.entries.len() implies (#[trigger] other.entries[i])
            == self.entries[i] by {
            assert(mid.entries[i] == self.entries[i]);
        }
    }

    /// What reaches a commit of a set reaches a commit of every set that holds it.
    pub proof fn lemma_reaches_more(self, fewer: Set<CommitId>, more: Set<CommitId>, pos: int)
        requires
            fewer.subset_of(more),
            self.reaches(fewer, pos),
        ensures
            self.reaches(more, pos),
        decreases pos,
    {
        if !fewer.contains(self.entries[pos].id) {
            let k = choose|k: int|
                0 <= k < self.entries[pos].positions.len() && 0 <= (
                #[trigger] self.entries[pos].positions[k]) < pos && self.reaches(
                    fewer,
                    self.entries[pos].positions[k],
                );
            self.lemma_reaches_more(fewer, more, self.entries[pos].positions[k]);
        }
    }

    /// An ancestor of a parent is an ancestor of the child.
    pub proof fn lemma_ancestor_of_parent(self, x: CommitId, child: int, k: int)
        requires
            self.wf(),
            0 <= child < self.entries.len(),
            0 <= k < self.entries[child].parents.len(),
            self.is_ancestor(x, self.entries[child].parents[k]),
        ensures
            self.is_ancestor(x, self.entries[child].id),
    {
        let parent_pos = self.entries[child].positions[k];
        assert(0 <= parent_pos < child);
        assert(self.entries[parent_pos].id == self.entries[child].parents[k]);
        self.lemma_position(parent_pos);
        self.lemma_position(child);
        assert(self.reaches(set![x], parent_pos));
    }

    /// Whether the commit is one of the targets or an ancestor of one.
    pub open spec fn reaches_one(self, x: CommitId, targets: Set<CommitId>) -> bool {
        exists|t: CommitId| targets.contains(t) && #[trigger] self.is_ancestor(x, t)
    }

    /// Whether the entries from `from` on are targets or ancestors of targets.
    pub open spec fn grown_towards(self, from: int, targets: Set<CommitId>) -> bool {
        forall|p: int|
            from <= p < self.entries.len() ==> self.reaches_one(
                (#[trigger] self.entries[p]).id,
                targets,
            )
    }

    /// Every commit is its own ancestor, where it is indexed.
    pub proof fn lemma_ancestor_refl(self, a: CommitId)
        requires
            self.wf(),
            self.has_id(a),
        ensures
            self.is_ancestor(a, a),
    {
        let p = self.position(a);
        assert(set![a].contains(self.entries[p].id));
    }

    /// Entries that enter later do not change what an earlier entry reaches.
    pub proof fn lemma_reaches_prefix(self, other: IndexModel, roots: Set<CommitId>, pos: int)
        requires
            0 <= pos < self.entries.len(),
            self.entries.len() <= other.entries.len(),
            forall|i: int| 0 <= i <= pos ==> (#[trigger] self.entries[i]) == other.entries[i],
        ensures
            self.reaches(roots, pos) == other.reaches(roots, pos),
        decreases pos,
    {
        assert(self.entries[pos] == other.entries[pos]);
        let ps = self.entries[pos].positions;
        if self.reaches(roots, pos) && !roots.contains(self.entries[pos].id) {
            let k = choose|k: int|
                0 <= k < self.entries[pos].positions.len() && 0 <= (
                #[trigger] self.entries[pos].positions[k]) < pos && self.reaches(
                    roots,
                    self.entries[pos].positions[k],
                );
            self.lemma_reaches_prefix(other, roots, ps[k]);
            assert(other.reaches(roots, other.entries[pos].positions[k]));
        }
        if other.reaches(roots, pos) && !roots.contains(self.entries[pos].id) {
            let k = choose|k: int|
                0 <= k < other.entries[pos].positions.len() && 0 <= (
                #[trigger] other.entries[pos].positions[k]) < pos && other.reaches(
                    roots,
                    other.entries[pos].positions[k],
                );
            self.lemma_reaches_prefix(other, roots, ps[k]);
            assert(self.reaches(roots, self.entries[pos].positions[k]));
        }
    }
}

/// One entry of the index.
pub struct IndexEntry {
    id: CommitId,
    parents: Vec<CommitId>,
    positions: Vec<usize>,
    generation: u64,
}

impl View for IndexEntry {
    type V = EntryModel;

    closed spec fn view(&self) -> EntryModel {
        EntryModel {
            id: self.id,
            parents: self.parents@,
            positions: Seq::new(self.positions@.len(), |k: int| self.positions@[k] as int),
            generation: self.generation as nat,
        }
    }
}

/// The ancestry index.
pub struct Index {
    entries: Vec<IndexEntry>,
}

impl View for Index {
    type V = IndexModel;

    closed spec fn view(&self) -> IndexModel {
        IndexModel { entries: Seq::new(self.entries@.len(), |i: int| self.entries@[i]@) }
    }
}

impl Index {
    /// The index without entries.
    pub fn new() -> (index: Index)
        ensures
            index@.wf(),
            index@.entries.len() == 0,
    {
        Index { entries: Vec::new() }
    }

    /// The number of entries.
    pub fn len(&self) -> (n: usize)
        ensures
            n == self@.entries.len(),
    {
        self.entries.len()
    }

    /// The id of the entry at a position.
    pub fn id_at(&self, pos: usize) -> (id: CommitId)
        requires
            pos < self@.entries.len(),
        ensures
            id == self@.entries[pos as int].id,
    {
        self.entries[pos].id
    }

    /// The parents of the entry at a position.
    pub fn parents_at(&self, pos: usize) -> (parents: &Vec<CommitId>)
        requires
            pos < self@.entries.len(),
        ensures
            parents@ == self@.entries[pos as int].parents,
    {
        &self.entries[pos].parents
    }

    /// Where the parents of the entry at a position stand.
    pub fn positions_at(&self, pos: usize) -> (positions: &Vec<usize>)
        requires
            pos < self@.entries.len(),
        ensures
            positions@.len() == self@.entries[pos as int].positions.len(),
            forall|k: int|
                0 <= k < positions@.len() ==> (#[trigger] positions@[k]) as int
                    == self@.entries[pos as int].positions[k],
    {
        &self.entries[pos].positions
    }

    /// The generation number of the entry at a position.
    pub fn generation_at(&self, pos: usize) -> (g: u64)
        requires
            pos < self@.entries.len(),
        ensures
            g == self@.entries[pos as int].generation,
    {
        self.entries[pos].generation
    }

    /// Where the id stands, if it is indexed.
    pub fn position(&self, id: CommitId) -> (r: Option<usize>)
        requires
            self@.wf(),
        ensures
            match r {
                Some(pos) => self@.has_id(id) && pos == self@.position(id) && pos
                    < self@.entries.len() && self@.entries[pos as int].id == id,
                None => !self@.has_id(id),
            },
    {
        let mut i: usize = 0;
        while i < self.entries.len()
            invariant
                self@.wf(),
                i <= self@.entries.len(),
                forall|j: int| 0 <= j < i ==> (#[trigger] self@.entries[j]).id != id,
            decreases self@.entries.len() - i,
        {
            if self.entries[i].id == id {
                proof {
                    self@.lemma_position(i as int);
                }
                return Some(i);
            }
            i += 1;
        }
        None
    }

    /// Whether the id is indexed.
    pub fn has_id(&self, id: CommitId) -> (b: bool)
        requires
            self@.wf(),
        ensures
            b == self@.has_id(id),
    {
        self.position(id).is_some()
    }

    /// The generation number of the id: the length of the longest path from a commit
    /// without parents.
    pub fn generation_number(&self, id: CommitId) -> (r: Option<u64>)
        requires
            self@.wf(),
        ensures
            match r {
                Some(g) => self@.has_id(id) && g == self@.generation(id),
                None => !self@.has_id(id),
            },
    {
        match self.position(id) {
            Some(pos) => Some(self.entries[pos].generation),
            None => None,
        }
    }

    /// A copy of the index.
    pub fn dup(&self) -> (r: Index)
        ensures
            r@ == self@,
    {
        let mut entries: Vec<IndexEntry> = Vec::new();
        let mut i: usize = 0;
        while i < self.entries.len()
            invariant
                i <= self.entries@.len(),
                entries@.len() == i,
                forall|j: int| 0 <= j < i ==> (#[trigger] entries@[j])@ == self.entries@[j]@,
            decreases self.entries@.len() - i,
        {
            let e = &self.entries[i];
            let mut positions: Vec<usize> = Vec::new();
            let mut k: usize = 0;
            while k < e.positions.len()
                invariant
                    k <= e.positions@.len(),
                    positions@ == e.positions@.take(k as int),
                decreases e.positions@.len() - k,
            {
                positions.push(e.positions[k]);
                proof {
                    assert(e.positions@.take(k + 1) =~= e.positions@.take(k as int).push(
                        e.positions@[k as int],
                    ));
                }
                k += 1;
            }
            proof {
                assert(e.positions@.take(e.positions@.len() as int) =~= e.positions@);
            }
            entries.push(
                IndexEntry {
                    id: e.id,
                    parents: copy_ids(&e.parents),
                    positions,
                    generation: e.generation,
                },
            );
            i += 1;
        }
        let r = Index { entries };
        proof {
            assert(r@.entries =~= self@.entries);
        }
        r
    }

    /// Enters a commit with its parents.
    ///
    /// Returns whether it entered: it does unless it is indexed already or a parent is not.
    #[verifier::rlimit(40)]
    pub fn add_commit(&mut self, id: CommitId, parents: &Vec<CommitId>) -> (added: bool)
        requires
            old(self)@.wf(),
        ensures
            final(self)@.wf(),
            added == old(self)@.admits(id, parents@),
            final(self)@ == old(self)@.with_commit(id, parents@),
    {
        if self.has_id(id) {
            return false;
        }
        let mut positions: Vec<usize> = Vec::new();
        let mut generation: u64 = 0;
        let mut k: usize = 0;
        let count = self.entries.len();
        while k < parents.len()
            invariant
                *self == *old(self),
                self@.wf(),
                count == self@.entries.len(),
                k <= parents@.len(),
                positions@.len() == k,
                forall|j: int| 0 <= j < k ==> self@.has_id(#[trigger] parents@[j]),
                forall|j: int|
                    0 <= j < k ==> (#[trigger] positions@[j]) == self@.position(parents@[j]),
                generation == self@.level(self@.positions_of(parents@).take(k as int)),
                generation <= self@.entries.len(),
            decreases parents@.len() - k,
        {
            match self.position(parents[k]) {
                Some(pos) => {
                    let g = self.entries[pos].generation;
                    proof {
                        assert(self@.entries[pos as int].generation <= pos);
                        assert(pos < count);
                        let all = self@.positions_of(parents@);
                        assert(all.take(k + 1).drop_last() =~= all.take(k as int));
                        assert(all.take(k + 1).last() == pos);
                    }
                    positions.push(pos);
                    if g + 1 > generation {
                        generation = g + 1;
                    }
                },
                None => {
                    proof {
                        assert(!self@.has_all(parents@));
                    }
                    return false;
                },
            }
            k += 1;
        }
        proof {
            assert(self@.has_all(parents@));
            assert(self@.positions_of(parents@).take(parents@.len() as int)
                =~= self@.positions_of(parents@));
            old(self)@.lemma_with_commit(id, parents@);
        }
        let ghost e = self@.entry_for(id, parents@);
        let entry = IndexEntry { id, parents: copy_ids(parents), positions, generation };
        proof {
            assert(entry@.positions =~= e.positions);
            assert(entry@ == e);
        }
        self.entries.push(entry);
        proof {
            assert(self@.entries =~= old(self)@.entries.push(e));
        }
        true
    }

    /// For each position, whether its entry is one of `roots` or a descendant of one.
    pub fn mark_descendants(&self, roots: &Vec<CommitId>) -> (marks: Vec<bool>)
        requires
            self@.wf(),
        ensures
            marks@.len() == self@.entries.len(),
            forall|i: int|
                0 <= i < marks@.len() ==> (#[trigger] marks@[i]) == self@.reaches(
                    roots@.to_set(),
                    i,
                ),
    {
        let mut marks: Vec<bool> = Vec::new();
        let mut i: usize = 0;
        while i < self.entries.len()
            invariant
                self@.wf(),
                i <= self@.entries.len(),
                marks@.len() == i,
                forall|j: int|
                    0 <= j < i ==> (#[trigger] marks@[j]) == self@.reaches(roots@.to_set(), j),
            decreases self@.entries.len() - i,
        {
            let e = &self.entries[i];
            let mut hit = contains_id(roots, e.id);
            let mut k: usize = 0;
            while k < e.positions.len()
                invariant
                    self@.wf(),
                    i < self@.entries.len(),
                    e@ == self@.entries[i as int],
                    e.positions@.len() == self@.entries[i as int].positions.len(),
                    forall|j: int|
                        0 <= j < e.positions@.len() ==> (#[trigger] e.positions@[j]) as int
                            == self@.entries[i as int].positions[j],
                    marks@.len() == i,
                    forall|j: int|
                        0 <= j < i ==> (#[trigger] marks@[j]) == self@.reaches(roots@.to_set(), j),
                    k <= e.positions@.len(),
                    hit == (roots@.contains(e@.id) || exists|j: int|
                        0 <= j < k && 0 <= (#[trigger] self@.entries[i as int].positions[j]) < i
                            && self@.reaches(roots@.to_set(), self@.entries[i as int].positions[j])),
                decreases e.positions@.len() - k,
            {
                let p = e.positions[k];
                proof {
                    assert(e.positions@[k as int] as int == self@.entries[i as int].positions[k as int]);
                    assert(0 <= self@.entries[i as int].positions[k as int] < i);
                    assert(marks@[p as int] == self@.reaches(roots@.to_set(), p as int));
                    if marks@[p as int] {
                        assert(self@.reaches(
                            roots@.to_set(),
                            self@.entries[i as int].positions[k as int],
                        ));
                    }
                }
                let ghost before = hit;
                if marks[p] {
                    hit = true;
                }
                proof {
                    if hit && !before && !roots@.contains(e@.id) {
                        assert(0 <= k < k + 1);
                    }
                    if hit && before && !roots@.contains(e@.id) {
                        let j = choose|j: int|
                            0 <= j < k && 0 <= (#[trigger] self@.entries[i as int].positions[j])
                                < i && self@.reaches(
                                roots@.to_set(),
                                self@.entries[i as int].positions[j],
                            );
                        assert(0 <= j < k + 1);
                    }
                }
                k += 1;
            }
            proof {
                let set = roots@.to_set();
                let ps = self@.entries[i as int].positions;
                assert(k == ps.len());
                assert(hit == self@.reaches(set, i as int));
            }
            marks.push(hit);
            i += 1;
        }
        marks
    }

    /// Whether `a` is `b` or an ancestor of `b`; false unless both are indexed.
    pub fn is_ancestor(&self, a: CommitId, b: CommitId) -> (r: bool)
        requires
            self@.wf(),
        ensures
            r == self@.is_ancestor(a, b),
    {
        match self.position(b) {
            Some(pos) => {
                let mut roots: Vec<CommitId> = Vec::new();
                roots.push(a);
                let marks = self.mark_descendants(&roots);
                proof {
                    assert(roots@ =~= seq![a]);
                    assert(roots@[0] == a);
                    assert forall|x: CommitId| roots@.to_set().contains(x) == set![a].contains(
                        x,
                    ) by {
                        if roots@.contains(x) {
                            let j = choose|j: int| 0 <= j < roots@.len() && roots@[j] == x;
                        }
                    }
                    assert(roots@.to_set() =~= set![a]);
                }
                marks[pos]
            },
            None => false,
        }
    }
}

} // verus!
