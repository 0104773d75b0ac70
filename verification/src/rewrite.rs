//! The fates of commits within one transaction.
//!
//! A commit that was replaced has exactly one fate: rewritten to one commit, abandoned in
//! favour of some parents, or rewritten divergently to several candidates. The table keeps
//! every fate resolved: no list of replacements names a commit that has itself been
//! rewritten or abandoned, so one lookup always gives the commits that are current.

use crate::assoc::AssocMap;
use crate::id::CommitId;
use crate::idlist::{
    append_unique, contains_id, copy_ids, extend_unique, ids_equal, lemma_append_unique,
    lemma_append_unique_step, lemma_remove_all, remove_all, without_id,
};
use crate::model::Model;
use vstd::prelude::*;

verus! {

/// The model of a [`Fate`].
pub enum FateModel {
    Unchanged,
    Rewritten(CommitId),
    Abandoned(Seq<CommitId>),
    Divergent(Seq<CommitId>),
}

impl FateModel {
    /// The commits that stand in for the commit.
    pub open spec fn ids(self) -> Seq<CommitId> {
        match self {
            FateModel::Unchanged => Seq::empty(),
            FateModel::Rewritten(id) => seq![id],
            FateModel::Abandoned(ids) => ids,
            FateModel::Divergent(ids) => ids,
        }
    }

    /// Whether descendants of the commit move onto the replacements.
    pub open spec fn moves(self) -> bool {
        self is Rewritten || self is Abandoned
    }

    /// The fate of the same kind with other replacements; a rewrite to several commits is
    /// an abandonment in their favour, and a fate without replacement is none.
    pub open spec fn with_ids(self, ids: Seq<CommitId>) -> FateModel {
        if ids.len() == 0 {
            FateModel::Unchanged
        } else {
            match self {
                FateModel::Unchanged => FateModel::Unchanged,
                FateModel::Rewritten(_) => if ids.len() == 1 {
                    FateModel::Rewritten(ids[0])
                } else {
                    FateModel::Abandoned(ids)
                },
                FateModel::Abandoned(_) => FateModel::Abandoned(ids),
                FateModel::Divergent(_) => FateModel::Divergent(ids),
            }
        }
    }
}

/// Replaces each id of `ids` by the list that `moves` has for it, keeping each commit once.
pub open spec fn expand(ids: Seq<CommitId>, moves: Map<CommitId, Seq<CommitId>>) -> Seq<CommitId>
    decreases ids.len(),
{
    if ids.len() == 0 {
        Seq::empty()
    } else {
        let id = ids.last();
        let step = if moves.contains_key(id) {
            moves[id]
        } else {
            seq![id]
        };
        append_unique(expand(ids.drop_last(), moves), step)
    }
}

/// What `expand` holds: the ids that did not move, and the replacements of those that did.
pub proof fn lemma_expand(ids: Seq<CommitId>, moves: Map<CommitId, Seq<CommitId>>)
    ensures
        expand(ids, moves).no_duplicates(),
        forall|x: CommitId| #[trigger]
            expand(ids, moves).contains(x) <==> exists|i: int|
                0 <= i < ids.len() && if moves.contains_key(#[trigger] ids[i]) {
                    moves[ids[i]].contains(x)
                } else {
                    ids[i] == x
                },
    decreases ids.len(),
{
    let r = expand(ids, moves);
    if ids.len() == 0 {
        assert forall|x: CommitId| #[trigger] r.contains(x) implies false by {
            let i = choose|i: int| 0 <= i < r.len() && r[i] == x;
        }
    } else {
        let front = ids.drop_last();
        let id = ids.last();
        let step = if moves.contains_key(id) {
            moves[id]
        } else {
            seq![id]
        };
        lemma_expand(front, moves);
        lemma_append_unique(expand(front, moves), step);
        assert forall|x: CommitId| #[trigger] r.contains(x) <==> exists|i: int|
            0 <= i < ids.len() && if moves.contains_key(#[trigger] ids[i]) {
                moves[ids[i]].contains(x)
            } else {
                ids[i] == x
            } by {
            if r.contains(x) {
                if expand(front, moves).contains(x) {
                    let i = choose|i: int|
                        0 <= i < front.len() && if moves.contains_key(#[trigger] front[i]) {
                            moves[front[i]].contains(x)
                        } else {
                            front[i] == x
                        };
                    assert(ids[i] == front[i]);
                } else {
                    assert(step.contains(x));
                    assert(ids[ids.len() - 1] == id);
                    if !moves.contains_key(id) {
                        let j = choose|j: int| 0 <= j < step.len() && step[j] == x;
                        assert(step[0] == id);
                    }
                }
            }
            if exists|i: int|
                0 <= i < ids.len() && if moves.contains_key(#[trigger] ids[i]) {
                    moves[ids[i]].contains(x)
                } else {
                    ids[i] == x
                } {
                let i = choose|i: int|
                    0 <= i < ids.len() && if moves.contains_key(#[trigger] ids[i]) {
                        moves[ids[i]].contains(x)
                    } else {
                        ids[i] == x
                    };
                if i < front.len() {
                    assert(front[i] == ids[i]);
                    assert(expand(front, moves).contains(x));
                } else {
                    if !moves.contains_key(id) {
                        assert(step[0] == x);
                    }
                    assert(step.contains(x));
                }
            }
        }
    }
}

/// `expand` of a list that holds something, by lists that hold something, holds something.
pub proof fn lemma_expand_nonempty(ids: Seq<CommitId>, moves: Map<CommitId, Seq<CommitId>>)
    requires
        ids.len() > 0,
        forall|k: CommitId| #[trigger] moves.contains_key(k) ==> moves[k].len() > 0,
    ensures
        expand(ids, moves).len() > 0,
{
    lemma_expand(ids, moves);
    let id = ids[0];
    if moves.contains_key(id) {
        let x = moves[id][0];
        assert(moves[ids[0]].contains(x));
        assert(expand(ids, moves).contains(x));
    } else {
        assert(expand(ids, moves).contains(id));
    }
}

/// The step of `expand` along a prefix of `ids`.
pub proof fn lemma_expand_step(ids: Seq<CommitId>, moves: Map<CommitId, Seq<CommitId>>, i: int)
    requires
        0 <= i < ids.len(),
    ensures
        expand(ids.take(i + 1), moves) == append_unique(
            expand(ids.take(i), moves),
            if moves.contains_key(ids[i]) {
                moves[ids[i]]
            } else {
                seq![ids[i]]
            },
        ),
        expand(ids.take(0), moves) == Seq::<CommitId>::empty(),
        expand(ids.take(ids.len() as int), moves) == expand(ids, moves),
{
    assert(ids.take(i + 1).drop_last() =~= ids.take(i));
    assert(ids.take(ids.len() as int) =~= ids);
    assert(ids.take(0) =~= Seq::<CommitId>::empty());
}

/// The model of the table of fates.
pub struct TableModel {
    pub fates: Map<CommitId, FateModel>,
}

impl TableModel {
    /// The table without fates.
    pub open spec fn empty() -> TableModel {
        TableModel { fates: Map::empty() }
    }

    /// The fate of the commit; unchanged if the table has none for it.
    pub open spec fn fate(self, id: CommitId) -> FateModel {
        if self.fates.contains_key(id) {
            self.fates[id]
        } else {
            FateModel::Unchanged
        }
    }

    /// Whether the commit was rewritten or abandoned, so that its descendants move.
    pub open spec fn moved(self, id: CommitId) -> bool {
        self.fate(id).moves()
    }

    /// Whether the commit was rewritten divergently.
    pub open spec fn divergent(self, id: CommitId) -> bool {
        self.fate(id) is Divergent
    }

    /// For each commit that moved, what replaces it.
    pub open spec fn moves(self) -> Map<CommitId, Seq<CommitId>> {
        Map::new(|id: CommitId| self.moved(id), |id: CommitId| self.fate(id).ids())
    }

    /// The commits that are current in place of the given ones, each once.
    pub open spec fn resolve(self, ids: Seq<CommitId>) -> Seq<CommitId> {
        expand(ids, self.moves())
    }

    /// Every fate names at least one replacement and none twice, and no replacement has
    /// itself been rewritten or abandoned.
    pub open spec fn wf(self) -> bool {
        &&& forall|k: CommitId| #[trigger]
            self.fates.contains_key(k) ==> {
                &&& self.fates[k] !is Unchanged
                &&& self.fates[k].ids().len() > 0
                &&& self.fates[k].ids().no_duplicates()
            }
        &&& forall|k: CommitId, i: int|
            self.fates.contains_key(k) && 0 <= i < self.fates[k].ids().len() ==> !self.moved(
                #[trigger] self.fates[k].ids()[i],
            )
    }

    /// The fate as the table would keep it for `old`: its replacements resolved, without
    /// `old` itself. Unchanged if nothing would be left.
    pub open spec fn settle(self, old: CommitId, fate: FateModel) -> FateModel {
        let ids = remove_all(self.resolve(fate.ids()), old);
        match fate {
            FateModel::Rewritten(new) => if self.fate(new) is Abandoned {
                FateModel::Abandoned(Seq::empty()).with_ids(ids)
            } else {
                fate.with_ids(ids)
            },
            _ => fate.with_ids(ids),
        }
    }

    /// A fate of the table after `old` got the fate `settled`: where `old` moved, it gives
    /// way to its replacements.
    pub open spec fn follow(fate: FateModel, old: CommitId, settled: FateModel) -> FateModel {
        if settled.moves() && fate.ids().contains(old) {
            match fate {
                FateModel::Rewritten(_) => settled,
                _ => fate.with_ids(expand(fate.ids(), map![old => settled.ids()])),
            }
        } else {
            fate
        }
    }

    /// The table after `old` was given the fate; the table itself if the fate settles to
    /// nothing.
    pub open spec fn record(self, old: CommitId, fate: FateModel) -> TableModel {
        let settled = self.settle(old, fate);
        if settled is Unchanged {
            self
        } else {
            TableModel {
                fates: Map::new(
                    |k: CommitId| k == old || self.fates.contains_key(k),
                    |k: CommitId|
                        if k == old {
                            settled
                        } else {
                            Self::follow(self.fates[k], old, settled)
                        },
                ),
            }
        }
    }

    /// What a settled fate holds: replacements that are current, none twice, none of them
    /// the commit itself.
    pub proof fn lemma_settle(self, old: CommitId, fate: FateModel)
        requires
            self.wf(),
        ensures
            ({
                let s = self.settle(old, fate);
                s is Unchanged || {
                    &&& s.ids() == remove_all(self.resolve(fate.ids()), old)
                    &&& s.ids().len() > 0
                    &&& s.ids().no_duplicates()
                    &&& !s.ids().contains(old)
                    &&& forall|x: CommitId| s.ids().contains(x) ==> !self.moved(x)
                }
            }),
    {
        let s = self.settle(old, fate);
        let resolved = self.resolve(fate.ids());
        let ids = remove_all(resolved, old);
        lemma_expand(fate.ids(), self.moves());
        lemma_remove_all(resolved, old);
        if !(s is Unchanged) {
            assert(ids.len() > 0);
            if ids.len() == 1 {
                assert(seq![ids[0]] =~= ids);
            }
            assert(s.ids() == ids);
            assert forall|x: CommitId| s.ids().contains(x) implies !self.moved(x) by {
                assert(resolved.contains(x));
                let i = choose|i: int|
                    0 <= i < fate.ids().len() && if self.moves().contains_key(
                        #[trigger] fate.ids()[i],
                    ) {
                        self.moves()[fate.ids()[i]].contains(x)
                    } else {
                        fate.ids()[i] == x
                    };
                let p = fate.ids()[i];
                if self.moves().contains_key(p) {
                    let list = self.fates[p].ids();
                    let j = choose|j: int| 0 <= j < list.len() && list[j] == x;
                    assert(!self.moved(self.fates[p].ids()[j]));
                }
            }
        }
    }

    /// What a fate of the table holds after another commit got its fate.
    pub proof fn lemma_follow(self, k: CommitId, old: CommitId, settled: FateModel)
        requires
            self.wf(),
            self.fates.contains_key(k),
            !(settled is Unchanged),
            settled.ids().len() > 0,
            settled.ids().no_duplicates(),
            !settled.ids().contains(old),
            forall|x: CommitId| settled.ids().contains(x) ==> !self.moved(x),
        ensures
            ({
                let f = Self::follow(self.fates[k], old, settled);
                &&& !(f is Unchanged)
                &&& f.moves() == self.fates[k].moves()
                &&& (f is Divergent) == (self.fates[k] is Divergent)
                &&& f.ids().len() > 0
                &&& f.ids().no_duplicates()
                &&& forall|x: CommitId|
                    f.ids().contains(x) ==> !self.moved(x) && (settled.moves() ==> x != old)
            }),
    {
        let before = self.fates[k];
        let f = Self::follow(before, old, settled);
        assert forall|x: CommitId| before.ids().contains(x) implies !self.moved(x) by {
            let j = choose|j: int| 0 <= j < before.ids().len() && before.ids()[j] == x;
            assert(!self.moved(self.fates[k].ids()[j]));
        }
        if settled.moves() && before.ids().contains(old) {
            if before is Rewritten {
            } else {
                let moves = map![old => settled.ids()];
                let ids = expand(before.ids(), moves);
                lemma_expand(before.ids(), moves);
                lemma_expand_nonempty(before.ids(), moves);
                assert(f == before.with_ids(ids));
                assert(f.ids() == ids);
                assert forall|x: CommitId| f.ids().contains(x) implies !self.moved(x) && x
                    != old by {
                    let i = choose|i: int|
                        0 <= i < before.ids().len() && if moves.contains_key(
                            #[trigger] before.ids()[i],
                        ) {
                            moves[before.ids()[i]].contains(x)
                        } else {
                            before.ids()[i] == x
                        };
                    if !moves.contains_key(before.ids()[i]) {
                        assert(before.ids().contains(x));
                    }
                }
            }
        }
    }

    /// Giving a commit a fate keeps the table well formed.
    pub proof fn lemma_record_wf(self, old: CommitId, fate: FateModel)
        requires
            self.wf(),
        ensures
            self.record(old, fate).wf(),
    {
        let settled = self.settle(old, fate);
        let next = self.record(old, fate);
        self.lemma_settle(old, fate);
        if !(settled is Unchanged) {
            assert forall|k: CommitId| k != old implies next.moved(k) == self.moved(k) by {
                if self.fates.contains_key(k) {
                    self.lemma_follow(k, old, settled);
                }
            }
            assert(next.moved(old) == settled.moves());
            assert forall|k: CommitId| #[trigger] next.fates.contains_key(k) implies {
                &&& next.fates[k] !is Unchanged
                &&& next.fates[k].ids().len() > 0
                &&& next.fates[k].ids().no_duplicates()
            } by {
                if k != old {
                    self.lemma_follow(k, old, settled);
                }
            }
            assert forall|k: CommitId, i: int|
                next.fates.contains_key(k) && 0 <= i < next.fates[k].ids().len() implies !next.moved(
                #[trigger] next.fates[k].ids()[i],
            ) by {
                let x = next.fates[k].ids()[i];
                assert(next.fates[k].ids().contains(x));
                if k != old {
                    self.lemma_follow(k, old, settled);
                }
                if x != old {
                    assert(next.moved(x) == self.moved(x));
                }
            }
        }
    }

    /// Recording a rewrite to a commit without a fate, of a commit that no fate names,
    /// adds that one fate and changes no other.
    pub proof fn lemma_record_fresh(self, old: CommitId, new: CommitId)
        requires
            !self.fates.contains_key(new),
            new != old,
            forall|k: CommitId| #[trigger]
                self.fates.contains_key(k) ==> !self.fates[k].ids().contains(old),
        ensures
            self.record(old, FateModel::Rewritten(new)).fates == self.fates.insert(
                old,
                FateModel::Rewritten(new),
            ),
    {
        let fate = FateModel::Rewritten(new);
        let moves = self.moves();
        assert(fate.ids() =~= seq![new]);
        assert(seq![new].drop_last() =~= Seq::<CommitId>::empty());
        assert(expand(seq![new].drop_last(), moves) =~= Seq::<CommitId>::empty());
        lemma_append_unique_step(Seq::<CommitId>::empty(), seq![new], 0);
        assert(seq![new].take(1) =~= seq![new]);
        assert(seq![new].take(0) =~= Seq::<CommitId>::empty());
        assert(!Seq::<CommitId>::empty().contains(new));
        let resolved = self.resolve(fate.ids());
        assert(resolved =~= seq![new]);
        lemma_remove_all(resolved, old);
        assert(!resolved.contains(old)) by {
            if resolved.contains(old) {
                let i = choose|i: int| 0 <= i < resolved.len() && resolved[i] == old;
            }
        }
        let settled = self.settle(old, fate);
        assert(settled == fate);
        assert(self.record(old, fate).fates =~= self.fates.insert(old, fate));
    }

    /// In place of a rewritten commit alone, its replacement alone is current.
    pub proof fn lemma_resolve_rewritten(self, old: CommitId, new: CommitId)
        requires
            self.fates.contains_key(old),
            self.fates[old] == FateModel::Rewritten(new),
        ensures
            self.resolve(seq![old]) == seq![new],
    {
        let moves = self.moves();
        assert(moves.contains_key(old));
        assert(moves[old] =~= seq![new]);
        assert(seq![old].drop_last() =~= Seq::<CommitId>::empty());
        assert(expand(seq![old].drop_last(), moves) =~= Seq::<CommitId>::empty());
        lemma_append_unique_step(Seq::<CommitId>::empty(), seq![new], 0);
        assert(seq![new].take(1) =~= seq![new]);
        assert(seq![new].take(0) =~= Seq::<CommitId>::empty());
        assert(!Seq::<CommitId>::empty().contains(new));
        assert(self.resolve(seq![old]) =~= seq![new]);
    }

    /// What resolving holds: the commits of the list that did not move, and the
    /// replacements of those that did; none of them has moved. If a commit of the list
    /// has moved, the result is another list.
    pub proof fn lemma_resolve(self, ids: Seq<CommitId>)
        requires
            self.wf(),
        ensures
            forall|z: CommitId| #[trigger]
                self.resolve(ids).contains(z) ==> !self.moved(z) && (ids.contains(z) || exists|
                    i: int,
                |
                    0 <= i < ids.len() && self.moved(#[trigger] ids[i]) && self.fates[ids[i]].ids().contains(
                        z,
                    )),
            (exists|i: int| 0 <= i < ids.len() && self.moved(#[trigger] ids[i])) ==> self.resolve(
                ids,
            ) != ids,
    {
        let moves = self.moves();
        let resolved = self.resolve(ids);
        lemma_expand(ids, moves);
        assert forall|z: CommitId| #[trigger] resolved.contains(z) implies !self.moved(z) && (
        ids.contains(z) || exists|i: int|
            0 <= i < ids.len() && self.moved(#[trigger] ids[i]) && self.fates[ids[i]].ids().contains(
                z,
            )) by {
            let i = choose|i: int|
                0 <= i < ids.len() && if moves.contains_key(#[trigger] ids[i]) {
                    moves[ids[i]].contains(z)
                } else {
                    ids[i] == z
                };
            if moves.contains_key(ids[i]) {
                let list = self.fates[ids[i]].ids();
                let j = choose|j: int| 0 <= j < list.len() && list[j] == z;
                assert(!self.moved(self.fates[ids[i]].ids()[j]));
                assert(self.moved(ids[i]));
            } else {
                assert(ids.contains(z));
            }
        }
        if exists|i: int| 0 <= i < ids.len() && self.moved(#[trigger] ids[i]) {
            let i = choose|i: int| 0 <= i < ids.len() && self.moved(#[trigger] ids[i]);
            if resolved == ids {
                assert(resolved.contains(ids[i]));
            }
        }
    }

    /// A table without fates resolves every list to itself, each commit once.
    pub proof fn lemma_resolve_empty(ids: Seq<CommitId>)
        ensures
            Self::empty().resolve(ids) == append_unique(Seq::<CommitId>::empty(), ids),
        decreases ids.len(),
    {
        let t = Self::empty();
        if ids.len() > 0 {
            Self::lemma_resolve_empty(ids.drop_last());
            let front = append_unique(Seq::<CommitId>::empty(), ids.drop_last());
            lemma_append_unique_step(front, seq![ids.last()], 0);
            assert(seq![ids.last()].take(1) =~= seq![ids.last()]);
            assert(seq![ids.last()].take(0) =~= Seq::<CommitId>::empty());
        }
    }

    /// For each commit with a fate, the commits that stand in for it.
    pub open spec fn successors(self) -> Map<CommitId, Seq<CommitId>> {
        Map::new(|id: CommitId| self.fates.contains_key(id), |id: CommitId| self.fates[id].ids())
    }

    /// Whether rebasing onto the replacements of the commit is ambiguous: the commit was
    /// rewritten divergently, or one of its replacements was.
    pub open spec fn blocks(self, id: CommitId) -> bool {
        self.divergent(id) || (self.moved(id) && exists|i: int|
            0 <= i < self.fate(id).ids().len() && self.divergent(#[trigger] self.fate(id).ids()[i]))
    }
}

/// What became of a commit within the transaction.
#[derive(Clone, Debug, PartialEq, Eq)]
pub enum Fate {
    /// Nothing: the commit stands as it is.
    Unchanged,
    /// Replaced by one commit; descendants move onto it.
    Rewritten(CommitId),
    /// Given up; descendants move onto the listed commits.
    Abandoned(Vec<CommitId>),
    /// Replaced by several candidates; descendants stay where they are.
    Divergent(Vec<CommitId>),
}

impl View for Fate {
    type V = FateModel;

    open spec fn view(&self) -> FateModel {
        match self {
            Fate::Unchanged => FateModel::Unchanged,
            Fate::Rewritten(id) => FateModel::Rewritten(*id),
            Fate::Abandoned(ids) => FateModel::Abandoned(ids@),
            Fate::Divergent(ids) => FateModel::Divergent(ids@),
        }
    }
}

impl Model for Fate {
    open spec fn valid(&self) -> bool {
        true
    }

    fn same(&self, other: &Self) -> (b: bool) {
        match (self, other) {
            (Fate::Unchanged, Fate::Unchanged) => true,
            (Fate::Rewritten(a), Fate::Rewritten(b)) => *a == *b,
            (Fate::Abandoned(a), Fate::Abandoned(b)) => ids_equal(a, b),
            (Fate::Divergent(a), Fate::Divergent(b)) => ids_equal(a, b),
            _ => false,
        }
    }

    fn dup(&self) -> (r: Self) {
        match self {
            Fate::Unchanged => Fate::Unchanged,
            Fate::Rewritten(id) => Fate::Rewritten(*id),
            Fate::Abandoned(ids) => Fate::Abandoned(copy_ids(ids)),
            Fate::Divergent(ids) => Fate::Divergent(copy_ids(ids)),
        }
    }
}

impl Fate {
    /// The commits that stand in for the commit.
    pub fn ids(&self) -> (ids: Vec<CommitId>)
        ensures
            ids@ == self@.ids(),
    {
        match self {
            Fate::Unchanged => Vec::new(),
            Fate::Rewritten(id) => {
                let mut ids: Vec<CommitId> = Vec::new();
                ids.push(*id);
                proof {
                    assert(ids@ =~= seq![*id]);
                }
                ids
            },
            Fate::Abandoned(ids) => copy_ids(ids),
            Fate::Divergent(ids) => copy_ids(ids),
        }
    }

    /// Whether descendants of the commit move onto the replacements.
    pub fn moves(&self) -> (b: bool)
        ensures
            b == self@.moves(),
    {
        match self {
            Fate::Rewritten(_) => true,
            Fate::Abandoned(_) => true,
            _ => false,
        }
    }

    /// Whether the commit was rewritten divergently.
    pub fn is_divergent(&self) -> (b: bool)
        ensures
            b == (self@ is Divergent),
    {
        match self {
            Fate::Divergent(_) => true,
            _ => false,
        }
    }

    /// Whether the commit stands as it is.
    pub fn is_unchanged(&self) -> (b: bool)
        ensures
            b == (self@ is Unchanged),
    {
        match self {
            Fate::Unchanged => true,
            _ => false,
        }
    }

    /// The fate of the same kind with other replacements.
    pub fn with_ids(&self, ids: Vec<CommitId>) -> (f: Fate)
        ensures
            f@ == self@.with_ids(ids@),
    {
        if ids.len() == 0 {
            return Fate::Unchanged;
        }
        match self {
            Fate::Unchanged => Fate::Unchanged,
            Fate::Rewritten(_) => {
                if ids.len() == 1 {
                    Fate::Rewritten(ids[0])
                } else {
                    Fate::Abandoned(ids)
                }
            },
            Fate::Abandoned(_) => Fate::Abandoned(ids),
            Fate::Divergent(_) => Fate::Divergent(ids),
        }
    }
}

/// Replaces `old` in the list by the given replacements, keeping each commit once.
pub fn expand_one(ids: &Vec<CommitId>, old: CommitId, replacements: &Vec<CommitId>) -> (r: Vec<
    CommitId,
>)
    ensures
        r@ == expand(ids@, map![old => replacements@]),
{
    let ghost moves = map![old => replacements@];
    let mut out: Vec<CommitId> = Vec::new();
    let mut i: usize = 0;
    proof {
        assert(ids@.take(0) =~= Seq::<CommitId>::empty());
    }
    while i < ids.len()
        invariant
            i <= ids@.len(),
            moves == map![old => replacements@],
            out@ == expand(ids@.take(i as int), moves),
        decreases ids@.len() - i,
    {
        proof {
            lemma_expand_step(ids@, moves, i as int);
        }
        if ids[i] == old {
            extend_unique(&mut out, replacements);
        } else {
            let mut one: Vec<CommitId> = Vec::new();
            one.push(ids[i]);
            proof {
                assert(one@ =~= seq![ids@[i as int]]);
            }
            extend_unique(&mut out, &one);
        }
        i += 1;
    }
    proof {
        assert(ids@.take(ids@.len() as int) =~= ids@);
    }
    out
}

/// The table of fates.
pub struct RewriteTable {
    map: AssocMap<CommitId, Fate>,
}

impl View for RewriteTable {
    type V = TableModel;

    closed spec fn view(&self) -> TableModel {
        TableModel { fates: self.map@ }
    }
}

impl RewriteTable {
    /// The representation invariant; it implies that the model is well formed.
    pub closed spec fn wf(&self) -> bool {
        self.map.wf() && self@.wf()
    }

    /// A well-formed table has a well-formed model.
    pub proof fn lemma_wf(&self)
        requires
            self.wf(),
        ensures
            self@.wf(),
    {
    }

    /// The table without fates.
    pub fn new() -> (t: RewriteTable)
        ensures
            t.wf(),
            t@ == TableModel::empty(),
    {
        RewriteTable { map: AssocMap::new() }
    }

    /// Whether no commit has a fate.
    pub fn is_empty(&self) -> (b: bool)
        requires
            self.wf(),
        ensures
            b == (self@ == TableModel::empty()),
    {
        self.map.is_empty()
    }

    /// Forgets every fate.
    pub fn clear(&mut self)
        ensures
            final(self).wf(),
            final(self)@ == TableModel::empty(),
    {
        self.map = AssocMap::new();
    }

    /// The fate of the commit; unchanged if the table has none for it.
    pub fn fate(&self, id: CommitId) -> (f: Fate)
        requires
            self.wf(),
        ensures
            f@ == self@.fate(id),
    {
        match self.map.get(&id) {
            Some(f) => f.dup(),
            None => Fate::Unchanged,
        }
    }

    /// Whether the commit has a fate.
    pub fn has_fate(&self, id: CommitId) -> (b: bool)
        requires
            self.wf(),
        ensures
            b == self@.fates.contains_key(id),
    {
        self.map.contains_key(&id)
    }

    /// Whether the commit was rewritten or abandoned.
    pub fn moved(&self, id: CommitId) -> (b: bool)
        requires
            self.wf(),
        ensures
            b == self@.moved(id),
    {
        match self.map.get(&id) {
            Some(f) => f.moves(),
            None => false,
        }
    }

    /// Whether the commit was rewritten divergently.
    pub fn divergent(&self, id: CommitId) -> (b: bool)
        requires
            self.wf(),
        ensures
            b == self@.divergent(id),
    {
        match self.map.get(&id) {
            Some(f) => f.is_divergent(),
            None => false,
        }
    }

    /// The commits that have a fate, each once.
    pub fn keys(&self) -> (keys: Vec<CommitId>)
        requires
            self.wf(),
        ensures
            keys@.no_duplicates(),
            keys@.to_set() == self@.fates.dom(),
    {
        let mut keys: Vec<CommitId> = Vec::new();
        let mut i: usize = 0;
        while i < self.map.len()
            invariant
                self.wf(),
                i <= self.map.spec_len(),
                keys@.len() == i,
                forall|j: int| 0 <= j < i ==> (#[trigger] keys@[j]) == self.map.spec_key(j),
            decreases self.map.spec_len() - i,
        {
            keys.push(*self.map.key_at(i));
            i += 1;
        }
        proof {
            assert forall|a: int, b: int|
                0 <= a < keys@.len() && 0 <= b < keys@.len() && a != b implies keys@[a]
                != keys@[b] by {
                self.map.lemma_distinct(a, b);
            }
            assert forall|k: CommitId| keys@.to_set().contains(k) == self@.fates.dom().contains(
                k,
            ) by {
                if keys@.contains(k) {
                    let j = choose|j: int| 0 <= j < keys@.len() && keys@[j] == k;
                    self.map.lemma_entry(j);
                }
                if self.map@.contains_key(k) {
                    let j = self.map.lemma_position(k);
                    assert(keys@[j] == k);
                }
            }
            assert(keys@.to_set() =~= self@.fates.dom());
        }
        keys
    }

    /// The commits that are current in place of the given ones, each once.
    pub fn resolve(&self, ids: &Vec<CommitId>) -> (r: Vec<CommitId>)
        requires
            self.wf(),
        ensures
            r@ == self@.resolve(ids@),
    {
        let ghost moves = self@.moves();
        let mut out: Vec<CommitId> = Vec::new();
        let mut i: usize = 0;
        proof {
            assert(ids@.take(0) =~= Seq::<CommitId>::empty());
        }
        while i < ids.len()
            invariant
                self.wf(),
                i <= ids@.len(),
                moves == self@.moves(),
                out@ == expand(ids@.take(i as int), moves),
            decreases ids@.len() - i,
        {
            proof {
                lemma_expand_step(ids@, moves, i as int);
            }
            let f = self.fate(ids[i]);
            if f.moves() {
                let step = f.ids();
                extend_unique(&mut out, &step);
            } else {
                let mut one: Vec<CommitId> = Vec::new();
                one.push(ids[i]);
                proof {
                    assert(one@ =~= seq![ids@[i as int]]);
                }
                extend_unique(&mut out, &one);
            }
            i += 1;
        }
        proof {
            assert(ids@.take(ids@.len() as int) =~= ids@);
        }
        out
    }

    /// Whether rebasing onto the replacements of the commit is ambiguous.
    pub fn blocks(&self, id: CommitId) -> (b: bool)
        requires
            self.wf(),
        ensures
            b == self@.blocks(id),
    {
        let fate = self.fate(id);
        if fate.is_divergent() {
            return true;
        }
        if !fate.moves() {
            return false;
        }
        let ids = fate.ids();
        let mut i: usize = 0;
        while i < ids.len()
            invariant
                self.wf(),
                i <= ids@.len(),
                ids@ == self@.fate(id).ids(),
                forall|j: int| 0 <= j < i ==> !self@.divergent(#[trigger] ids@[j]),
            decreases ids@.len() - i,
        {
            if self.divergent(ids[i]) {
                return true;
            }
            i += 1;
        }
        false
    }

    /// The commits that stand in for the given ones, each once: every commit with a fate
    /// gives way to its successors.
    pub fn successors_of(&self, ids: &Vec<CommitId>) -> (r: Vec<CommitId>)
        requires
            self.wf(),
        ensures
            r@ == expand(ids@, self@.successors()),
    {
        let ghost moves = self@.successors();
        let mut out: Vec<CommitId> = Vec::new();
        let mut i: usize = 0;
        proof {
            assert(ids@.take(0) =~= Seq::<CommitId>::empty());
        }
        while i < ids.len()
            invariant
                self.wf(),
                i <= ids@.len(),
                moves == self@.successors(),
                out@ == expand(ids@.take(i as int), moves),
            decreases ids@.len() - i,
        {
            proof {
                lemma_expand_step(ids@, moves, i as int);
            }
            if self.has_fate(ids[i]) {
                let step = self.fate(ids[i]).ids();
                extend_unique(&mut out, &step);
            } else {
                let mut one: Vec<CommitId> = Vec::new();
                one.push(ids[i]);
                proof {
                    assert(one@ =~= seq![ids@[i as int]]);
                }
                extend_unique(&mut out, &one);
            }
            i += 1;
        }
        proof {
            assert(ids@.take(ids@.len() as int) =~= ids@);
        }
        out
    }

    /// The fate as the table would keep it for `old`.
    pub fn settle(&self, old: CommitId, fate: &Fate) -> (s: Fate)
        requires
            self.wf(),
        ensures
            s@ == self@.settle(old, fate@),
    {
        let ids = fate.ids();
        let resolved = self.resolve(&ids);
        let kept = without_id(&resolved, old);
        match fate {
            Fate::Rewritten(new) => {
                let target = self.fate(*new);
                match target {
                    Fate::Abandoned(_) => Fate::Abandoned(Vec::new()).with_ids(kept),
                    _ => fate.with_ids(kept),
                }
            },
            _ => fate.with_ids(kept),
        }
    }

    /// A fate of the table after `old` got the fate `settled`.
    fn follow(fate: &Fate, old: CommitId, settled: &Fate) -> (f: Fate)
        ensures
            f@ == TableModel::follow(fate@, old, settled@),
    {
        let ids = fate.ids();
        if settled.moves() && contains_id(&ids, old) {
            match fate {
                Fate::Rewritten(_) => settled.dup(),
                _ => {
                    let replacements = settled.ids();
                    fate.with_ids(expand_one(&ids, old, &replacements))
                },
            }
        } else {
            fate.dup()
        }
    }

    /// Gives the commit `old_id` the fate, and lets every fate that named it follow.
    ///
    /// Returns whether the table took the fate: it does not where nothing is left of the
    /// fate once it is resolved and the commit itself is taken out, and then stays as it was.
    pub fn record(&mut self, old_id: CommitId, fate: &Fate) -> (taken: bool)
        requires
            old(self).wf(),
        ensures
            final(self).wf(),
            final(self)@ == old(self)@.record(old_id, fate@),
            taken == !(old(self)@.settle(old_id, fate@) is Unchanged),
    {
        let settled = self.settle(old_id, fate);
        if settled.is_unchanged() {
            return false;
        }
        let mut next: AssocMap<CommitId, Fate> = AssocMap::new();
        let mut i: usize = 0;
        while i < self.map.len()
            invariant
                *self == *old(self),
                self.wf(),
                next.wf(),
                settled@ == self@.settle(old_id, fate@),
                i <= self.map.spec_len(),
                forall|k: CommitId|
                    next@.contains_key(k) <==> k != old_id && exists|j: int|
                        0 <= j < i && #[trigger] self.map.spec_key(j) == k,
                forall|k: CommitId| #[trigger]
                    next@.contains_key(k) ==> next@[k] == TableModel::follow(
                        self.map@[k],
                        old_id,
                        settled@,
                    ),
            decreases self.map.spec_len() - i,
        {
            let key = *self.map.key_at(i);
            if key != old_id {
                let followed = Self::follow(self.map.val_at(i), old_id, &settled);
                next.insert(key, followed);
            }
            proof {
                self.map.lemma_entry(i as int);
                assert forall|k: CommitId|
                    next@.contains_key(k) <==> k != old_id && exists|j: int|
                        0 <= j < i + 1 && #[trigger] self.map.spec_key(j) == k by {
                    if k != old_id && exists|j: int|
                        0 <= j < i + 1 && #[trigger] self.map.spec_key(j) == k {
                        let j = choose|j: int|
                            0 <= j < i + 1 && #[trigger] self.map.spec_key(j) == k;
                        if j < i {
                            assert(self.map.spec_key(j) == k);
                        }
                    }
                    if next@.contains_key(k) && k != key {
                        let j = choose|j: int| 0 <= j < i && #[trigger] self.map.spec_key(j) == k;
                        assert(self.map.spec_key(j) == k);
                    }
                    if k == key && k != old_id {
                        assert(self.map.spec_key(i as int) == k);
                    }
                }
            }
            i += 1;
        }
        next.insert(old_id, settled);
        proof {
            let target = old(self)@.record(old_id, fate@);
            assert forall|k: CommitId| next@.contains_key(k) == target.fates.contains_key(k) by {
                if k != old_id && self.map@.contains_key(k) {
                    let j = self.map.lemma_position(k);
                    assert(self.map.spec_key(j) == k);
                }
                if next@.contains_key(k) && k != old_id {
                    let j = choose|j: int|
                        0 <= j < self.map.spec_len() && #[trigger] self.map.spec_key(j) == k;
                    self.map.lemma_entry(j);
                }
            }
            assert(next@ =~= target.fates);
            old(self)@.lemma_record_wf(old_id, fate@);
        }
        self.map = next;
        true
    }
}

} // verus!
