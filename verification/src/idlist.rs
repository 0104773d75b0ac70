//! Lists of commit ids used as ordered sets.

use crate::id::CommitId;
use vstd::prelude::*;

verus! {

/// The list with `x` at its end, unless it holds `x` already.
pub open spec fn push_unique(acc: Seq<CommitId>, x: CommitId) -> Seq<CommitId> {
    if acc.contains(x) {
        acc
    } else {
        acc.push(x)
    }
}

/// `acc` followed by the ids of `ids` that it does not hold yet, each once, in their order.
pub open spec fn append_unique(acc: Seq<CommitId>, ids: Seq<CommitId>) -> Seq<CommitId>
    decreases ids.len(),
{
    if ids.len() == 0 {
        acc
    } else {
        push_unique(append_unique(acc, ids.drop_last()), ids.last())
    }
}

/// The list without any occurrence of `x`.
pub open spec fn remove_all(s: Seq<CommitId>, x: CommitId) -> Seq<CommitId>
    decreases s.len(),
{
    if s.len() == 0 {
        s
    } else if s.last() == x {
        remove_all(s.drop_last(), x)
    } else {
        remove_all(s.drop_last(), x).push(s.last())
    }
}

/// `push_unique` keeps what is there, adds `x`, and adds no duplicate.
pub proof fn lemma_push_unique(acc: Seq<CommitId>, x: CommitId)
    ensures
        push_unique(acc, x).contains(x),
        forall|y: CommitId| #[trigger] push_unique(acc, x).contains(y) <==> acc.contains(y) || y == x,
        acc.no_duplicates() ==> push_unique(acc, x).no_duplicates(),
        acc.len() <= push_unique(acc, x).len(),
        forall|i: int| 0 <= i < acc.len() ==> #[trigger] push_unique(acc, x)[i] == acc[i],
{
    let r = push_unique(acc, x);
    if !acc.contains(x) {
        assert(r[acc.len() as int] == x);
        assert forall|y: CommitId| #[trigger] r.contains(y) <==> acc.contains(y) || y == x by {
            if r.contains(y) {
                let i = choose|i: int| 0 <= i < r.len() && r[i] == y;
                if i < acc.len() {
                    assert(acc[i] == y);
                }
            }
            if acc.contains(y) {
                let i = choose|i: int| 0 <= i < acc.len() && acc[i] == y;
                assert(r[i] == y);
            }
        }
        if acc.no_duplicates() {
            assert forall|i: int, j: int| 0 <= i < r.len() && 0 <= j < r.len() && i != j implies r[i]
                != r[j] by {
                if i == acc.len() {
                    assert(acc[j] == r[j]);
                } else if j == acc.len() {
                    assert(acc[i] == r[i]);
                }
            }
        }
    }
}

/// The step of `append_unique` along a prefix of `ids`.
pub proof fn lemma_append_unique_step(acc: Seq<CommitId>, ids: Seq<CommitId>, i: int)
    requires
        0 <= i < ids.len(),
    ensures
        append_unique(acc, ids.take(i + 1)) == push_unique(append_unique(acc, ids.take(i)), ids[i]),
        append_unique(acc, ids.take(0)) == acc,
        append_unique(acc, ids.take(ids.len() as int)) == append_unique(acc, ids),
{
    assert(ids.take(i + 1).drop_last() =~= ids.take(i));
    assert(ids.take(ids.len() as int) =~= ids);
}

/// What `append_unique` holds, and that it adds no duplicate and keeps `acc` in front.
pub proof fn lemma_append_unique(acc: Seq<CommitId>, ids: Seq<CommitId>)
    ensures
        forall|y: CommitId| #[trigger]
            append_unique(acc, ids).contains(y) <==> acc.contains(y) || ids.contains(y),
        acc.no_duplicates() ==> append_unique(acc, ids).no_duplicates(),
        acc.len() <= append_unique(acc, ids).len(),
        forall|i: int| 0 <= i < acc.len() ==> #[trigger] append_unique(acc, ids)[i] == acc[i],
    decreases ids.len(),
{
    if ids.len() > 0 {
        let front = ids.drop_last();
        lemma_append_unique(acc, front);
        let mid = append_unique(acc, front);
        lemma_push_unique(mid, ids.last());
        let r = append_unique(acc, ids);
        assert forall|y: CommitId| #[trigger] r.contains(y) <==> acc.contains(y) || ids.contains(
            y,
        ) by {
            if front.contains(y) {
                let i = choose|i: int| 0 <= i < front.len() && front[i] == y;
                assert(ids[i] == y);
            }
            if ids.contains(y) {
                let i = choose|i: int| 0 <= i < ids.len() && ids[i] == y;
                if i < front.len() {
                    assert(front[i] == y);
                }
            }
            assert(ids[ids.len() - 1] == ids.last());
        }
    }
}

/// What `remove_all` holds, and that it adds no duplicate.
pub proof fn lemma_remove_all(s: Seq<CommitId>, x: CommitId)
    ensures
        forall|y: CommitId| #[trigger] remove_all(s, x).contains(y) <==> s.contains(y) && y != x,
        s.no_duplicates() ==> remove_all(s, x).no_duplicates(),
        remove_all(s, x).len() <= s.len(),
        !s.contains(x) ==> remove_all(s, x) == s,
    decreases s.len(),
{
    if s.len() > 0 {
        let front = s.drop_last();
        lemma_remove_all(front, x);
        let r = remove_all(s, x);
        let rf = remove_all(front, x);
        assert forall|y: CommitId| #[trigger] r.contains(y) <==> s.contains(y) && y != x by {
            if r.contains(y) {
                let i = choose|i: int| 0 <= i < r.len() && r[i] == y;
                if i < rf.len() {
                    assert(rf[i] == y);
                    assert(rf.contains(y));
                    let j = choose|j: int| 0 <= j < front.len() && front[j] == y;
                    assert(s[j] == y);
                } else {
                    assert(s[s.len() - 1] == y);
                }
            }
            if s.contains(y) && y != x {
                let i = choose|i: int| 0 <= i < s.len() && s[i] == y;
                if i < front.len() {
                    assert(front[i] == y);
                    assert(rf.contains(y));
                    let j = choose|j: int| 0 <= j < rf.len() && rf[j] == y;
                    assert(r[j] == y);
                } else {
                    assert(r[r.len() - 1] == y);
                }
            }
        }
        if s.no_duplicates() {
            assert(front.no_duplicates());
            if s.last() != x {
                assert(!front.contains(s.last())) by {
                    if front.contains(s.last()) {
                        let i = choose|i: int| 0 <= i < front.len() && front[i] == s.last();
                        assert(s[i] == s[s.len() - 1]);
                    }
                }
                assert(!rf.contains(s.last()));
                assert forall|i: int, j: int|
                    0 <= i < r.len() && 0 <= j < r.len() && i != j implies r[i] != r[j] by {
                    if i == rf.len() {
                        assert(rf[j] == r[j]);
                        assert(rf.contains(r[j]));
                    } else if j == rf.len() {
                        assert(rf[i] == r[i]);
                        assert(rf.contains(r[i]));
                    } else {
                        assert(rf[i] == r[i] && rf[j] == r[j]);
                    }
                }
            }
        }
        if !s.contains(x) {
            assert(s[s.len() - 1] == s.last());
            assert(!front.contains(x)) by {
                if front.contains(x) {
                    let i = choose|i: int| 0 <= i < front.len() && front[i] == x;
                    assert(s[i] == x);
                }
            }
            assert(r =~= s);
        }
    }
}

/// What a prefix of a list holds, compared with the prefix that is one shorter.
pub proof fn lemma_take_contains(s: Seq<CommitId>, j: int)
    requires
        0 <= j < s.len(),
    ensures
        forall|x: CommitId| #[trigger]
            s.take(j + 1).contains(x) <==> s.take(j).contains(x) || s[j] == x,
        forall|x: CommitId| !(#[trigger] s.take(0).contains(x)),
{
    assert forall|x: CommitId| #[trigger]
        s.take(j + 1).contains(x) <==> s.take(j).contains(x) || s[j] == x by {
        if s.take(j + 1).contains(x) {
            let q = choose|q: int| 0 <= q < j + 1 && #[trigger] s.take(j + 1)[q] == x;
            if q < j {
                assert(s.take(j)[q] == x);
            }
        }
        if s.take(j).contains(x) {
            let q = choose|q: int| 0 <= q < j && #[trigger] s.take(j)[q] == x;
            assert(s.take(j + 1)[q] == x);
        }
        if s[j] == x {
            assert(s.take(j + 1)[j] == x);
        }
    }
}

/// Whether the list holds the id.
pub fn contains_id(v: &Vec<CommitId>, id: CommitId) -> (b: bool)
    ensures
        b == v@.contains(id),
{
    let mut i: usize = 0;
    while i < v.len()
        invariant
            i <= v@.len(),
            forall|j: int| 0 <= j < i ==> v@[j] != id,
        decreases v@.len() - i,
    {
        if v[i] == id {
            return true;
        }
        i += 1;
    }
    false
}

/// The first position of the id in the list.
pub fn position_of_id(v: &Vec<CommitId>, id: CommitId) -> (r: Option<usize>)
    ensures
        match r {
            Some(i) => i < v@.len() && v@[i as int] == id && forall|j: int|
                0 <= j < i ==> v@[j] != id,
            None => !v@.contains(id),
        },
{
    let mut i: usize = 0;
    while i < v.len()
        invariant
            i <= v@.len(),
            forall|j: int| 0 <= j < i ==> v@[j] != id,
        decreases v@.len() - i,
    {
        if v[i] == id {
            return Some(i);
        }
        i += 1;
    }
    None
}

/// Adds the id at the end unless the list holds it.
pub fn push_unique_id(v: &mut Vec<CommitId>, id: CommitId)
    ensures
        final(v)@ == push_unique(old(v)@, id),
{
    if !contains_id(v, id) {
        v.push(id);
    }
}

/// Adds each id of `ids` that the list does not hold yet.
pub fn extend_unique(v: &mut Vec<CommitId>, ids: &Vec<CommitId>)
    ensures
        final(v)@ == append_unique(old(v)@, ids@),
{
    let mut i: usize = 0;
    proof {
        assert(ids@.take(0) =~= Seq::<CommitId>::empty());
    }
    while i < ids.len()
        invariant
            i <= ids@.len(),
            v@ == append_unique(old(v)@, ids@.take(i as int)),
        decreases ids@.len() - i,
    {
        proof {
            lemma_append_unique_step(old(v)@, ids@, i as int);
        }
        push_unique_id(v, ids[i]);
        i += 1;
    }
    proof {
        assert(ids@.take(ids@.len() as int) =~= ids@);
    }
}

/// A copy of the list.
pub fn copy_ids(v: &Vec<CommitId>) -> (r: Vec<CommitId>)
    ensures
        r@ == v@,
{
    let mut r: Vec<CommitId> = Vec::new();
    let mut i: usize = 0;
    while i < v.len()
        invariant
            i <= v@.len(),
            r@ == v@.take(i as int),
        decreases v@.len() - i,
    {
        r.push(v[i]);
        proof {
            assert(v@.take(i + 1) =~= v@.take(i as int).push(v@[i as int]));
        }
        i += 1;
    }
    proof {
        assert(v@.take(v@.len() as int) =~= v@);
    }
    r
}

/// Whether both lists hold the same ids in the same order.
pub fn ids_equal(a: &Vec<CommitId>, b: &Vec<CommitId>) -> (r: bool)
    ensures
        r == (a@ == b@),
{
    if a.len() != b.len() {
        return false;
    }
    let mut i: usize = 0;
    while i < a.len()
        invariant
            i <= a@.len(),
            a@.len() == b@.len(),
            forall|j: int| 0 <= j < i ==> a@[j] == b@[j],
        decreases a@.len() - i,
    {
        if a[i] != b[i] {
            return false;
        }
        i += 1;
    }
    proof {
        assert(a@ =~= b@);
    }
    true
}

/// The list without any occurrence of the id.
pub fn without_id(v: &Vec<CommitId>, id: CommitId) -> (r: Vec<CommitId>)
    ensures
        r@ == remove_all(v@, id),
{
    let mut r: Vec<CommitId> = Vec::new();
    let mut i: usize = 0;
    proof {
        assert(v@.take(0) =~= Seq::<CommitId>::empty());
    }
    while i < v.len()
        invariant
            i <= v@.len(),
            r@ == remove_all(v@.take(i as int), id),
        decreases v@.len() - i,
    {
        proof {
            assert(v@.take(i + 1).drop_last() =~= v@.take(i as int));
        }
        if v[i] != id {
            r.push(v[i]);
        }
        i += 1;
    }
    proof {
        assert(v@.take(v@.len() as int) =~= v@);
    }
    r
}

/// Whether every id of `a` is in `b`.
pub fn ids_subset(a: &Vec<CommitId>, b: &Vec<CommitId>) -> (r: bool)
    ensures
        r == (forall|x: CommitId| a@.contains(x) ==> b@.contains(x)),
{
    let mut i: usize = 0;
    while i < a.len()
        invariant
            i <= a@.len(),
            forall|j: int| 0 <= j < i ==> b@.contains(#[trigger] a@[j]),
        decreases a@.len() - i,
    {
        if !contains_id(b, a[i]) {
            proof {
                assert(a@.contains(a@[i as int]));
            }
            return false;
        }
        i += 1;
    }
    true
}

/// Whether both lists hold the same ids, in any order.
pub fn same_id_set(a: &Vec<CommitId>, b: &Vec<CommitId>) -> (r: bool)
    ensures
        r == (a@.to_set() == b@.to_set()),
{
    let r = ids_subset(a, b) && ids_subset(b, a);
    proof {
        if r {
            assert(a@.to_set() =~= b@.to_set());
        } else {
            if a@.to_set() == b@.to_set() {
                assert forall|x: CommitId| a@.contains(x) == b@.contains(x) by {
                    assert(a@.to_set().contains(x) == b@.to_set().contains(x));
                }
            }
        }
    }
    r
}

} // verus!
