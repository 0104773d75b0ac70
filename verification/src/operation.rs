//! Operations and views as read from the store: a record together with the id it is
//! stored under. Two values with the same id are the same value, whatever they hold.

use crate::backend::StoreError;
use crate::id::{CommitId, OperationId, ViewId};
use crate::model::Model;
use crate::op_store::{OpStore, OperationData, OperationModel, ViewData, ViewModel};
use core::cmp::Ordering;
use vstd::prelude::*;
use vstd::view::View as _;

verus! {

/// An operation with its id.
pub struct Operation {
    id: OperationId,
    data: OperationData,
}

impl PartialEq for Operation {
    fn eq(&self, other: &Self) -> (r: bool) {
        self.id.0 == other.id.0
    }
}

impl Eq for Operation {

}

impl vstd::std_specs::cmp::PartialEqSpecImpl for Operation {
    open spec fn obeys_eq_spec() -> bool {
        true
    }

    open spec fn eq_spec(&self, other: &Self) -> bool {
        self.spec_id().0 == other.spec_id().0
    }
}

impl PartialOrd for Operation {
    fn partial_cmp(&self, other: &Self) -> (r: Option<Ordering>) {
        Some(order_of(self.id.0, other.id.0))
    }
}

impl vstd::std_specs::cmp::PartialOrdSpecImpl for Operation {
    open spec fn obeys_partial_cmp_spec() -> bool {
        true
    }

    open spec fn partial_cmp_spec(&self, other: &Self) -> Option<Ordering> {
        Some(ordering_of(self.spec_id().0, other.spec_id().0))
    }
}

/// How two numbers compare.
pub open spec fn ordering_of(a: u64, b: u64) -> Ordering {
    if a < b {
        Ordering::Less
    } else if a == b {
        Ordering::Equal
    } else {
        Ordering::Greater
    }
}

/// How two numbers compare.
pub fn order_of(a: u64, b: u64) -> (r: Ordering)
    ensures
        r == ordering_of(a, b),
{
    if a < b {
        Ordering::Less
    } else if a == b {
        Ordering::Equal
    } else {
        Ordering::Greater
    }
}

impl Operation {
    /// The id of the operation.
    pub closed spec fn spec_id(&self) -> OperationId {
        self.id
    }

    /// The record of the operation.
    pub closed spec fn model(&self) -> OperationModel {
        self.data@
    }

    /// The operation that is stored as `data` under `id`.
    pub fn new(id: OperationId, data: OperationData) -> (op: Operation)
        ensures
            op.spec_id() == id,
            op.model() == data@,
    {
        Operation { id, data }
    }

    /// The id of the operation.
    pub fn id(&self) -> (id: &OperationId)
        ensures
            *id == self.spec_id(),
    {
        &self.id
    }

    /// The ids of the operations that this one follows.
    pub fn parent_ids(&self) -> (ids: &Vec<OperationId>)
        ensures
            ids@ == self.model().parents,
    {
        &self.data.parents
    }

    /// The record of the operation.
    pub fn store_operation(&self) -> (data: &OperationData)
        ensures
            data@ == self.model(),
    {
        &self.data
    }

    /// How this operation compares with another: as their ids do.
    pub fn compare(&self, other: &Self) -> (r: Ordering)
        ensures
            r == ordering_of(self.spec_id().0, other.spec_id().0),
    {
        order_of(self.id.0, other.id.0)
    }

    /// The operations that this one follows, each read from the store: in the order of
    /// the parent ids, the operation where the store has it, else the error.
    pub fn parents(&self, op_store: &OpStore) -> (r: Vec<Result<Operation, StoreError>>)
        requires
            op_store.wf(),
        ensures
            r@.len() == self.model().parents.len(),
            forall|i: int|
                0 <= i < r@.len() ==> match #[trigger] r@[i] {
                    Ok(parent) => {
                        &&& op_store@.has_operation(self.model().parents[i])
                        &&& parent.spec_id() == self.model().parents[i]
                        &&& parent.model() == op_store@.operation_at(self.model().parents[i])
                    },
                    Err(e) => {
                        &&& !op_store@.has_operation(self.model().parents[i])
                        &&& e == StoreError::OperationNotFound(self.model().parents[i])
                    },
                },
    {
        let mut out: Vec<Result<Operation, StoreError>> = Vec::new();
        let mut i: usize = 0;
        while i < self.data.parents.len()
            invariant
                op_store.wf(),
                i <= self.data.parents@.len(),
                out@.len() == i,
                forall|j: int|
                    0 <= j < i ==> match #[trigger] out@[j] {
                        Ok(parent) => {
                            &&& op_store@.has_operation(self.data.parents@[j])
                            &&& parent.spec_id() == self.data.parents@[j]
                            &&& parent.model() == op_store@.operation_at(self.data.parents@[j])
                        },
                        Err(e) => {
                            &&& !op_store@.has_operation(self.data.parents@[j])
                            &&& e == StoreError::OperationNotFound(self.data.parents@[j])
                        },
                    },
            decreases self.data.parents@.len() - i,
        {
            let parent_id = self.data.parents[i];
            let entry = match op_store.read_operation(parent_id) {
                Ok(data) => Ok(Operation::new(parent_id, data)),
                Err(e) => Err(e),
            };
            out.push(entry);
            i += 1;
        }
        out
    }

    /// The view that the operation led to, read from the store.
    pub fn view(&self, op_store: &OpStore) -> (r: Result<View, StoreError>)
        requires
            op_store.wf(),
        ensures
            match r {
                Ok(view) => {
                    &&& op_store@.has_view(self.model().view_id)
                    &&& view.spec_id() == self.model().view_id
                    &&& view.model() == op_store@.view_at(self.model().view_id)
                    &&& view.wf()
                },
                Err(e) => {
                    &&& !op_store@.has_view(self.model().view_id)
                    &&& e == StoreError::ViewNotFound(self.model().view_id)
                },
            },
    {
        match op_store.read_view(self.data.view_id) {
            Ok(data) => Ok(View::new(self.data.view_id, data)),
            Err(e) => Err(e),
        }
    }

    /// A fresh value for the same operation.
    pub fn dup(&self) -> (op: Operation)
        ensures
            op.spec_id() == self.spec_id(),
            op.model() == self.model(),
    {
        Operation { id: self.id, data: self.data.dup() }
    }
}

/// A view with its id.
pub struct View {
    id: ViewId,
    data: ViewData,
}

impl PartialEq for View {
    fn eq(&self, other: &Self) -> (r: bool) {
        self.id.0 == other.id.0
    }
}

impl Eq for View {

}

impl vstd::std_specs::cmp::PartialEqSpecImpl for View {
    open spec fn obeys_eq_spec() -> bool {
        true
    }

    open spec fn eq_spec(&self, other: &Self) -> bool {
        self.spec_id().0 == other.spec_id().0
    }
}

impl PartialOrd for View {
    fn partial_cmp(&self, other: &Self) -> (r: Option<Ordering>) {
        Some(order_of(self.id.0, other.id.0))
    }
}

impl vstd::std_specs::cmp::PartialOrdSpecImpl for View {
    open spec fn obeys_partial_cmp_spec() -> bool {
        true
    }

    open spec fn partial_cmp_spec(&self, other: &Self) -> Option<Ordering> {
        Some(ordering_of(self.spec_id().0, other.spec_id().0))
    }
}

impl View {
    /// The id of the view.
    pub closed spec fn spec_id(&self) -> ViewId {
        self.id
    }

    /// The snapshot.
    pub closed spec fn model(&self) -> ViewModel {
        self.data@
    }

    /// Whether the snapshot is well formed.
    pub closed spec fn wf(&self) -> bool {
        self.data.wf()
    }

    /// The view that is stored as `data` under `id`.
    pub fn new(id: ViewId, data: ViewData) -> (view: View)
        ensures
            view.spec_id() == id,
            view.model() == data@,
            view.wf() == data.wf(),
    {
        View { id, data }
    }

    /// The id of the view.
    pub fn id(&self) -> (id: &ViewId)
        ensures
            *id == self.spec_id(),
    {
        &self.id
    }

    /// The snapshot.
    pub fn store_view(&self) -> (data: &ViewData)
        ensures
            data@ == self.model(),
            data.wf() == self.wf(),
    {
        &self.data
    }

    /// Gives up the view for its snapshot.
    pub fn take_store_view(self) -> (data: ViewData)
        ensures
            data@ == self.model(),
            data.wf() == self.wf(),
    {
        self.data
    }

    /// The visible heads, each once; handed out by reference.
    pub fn heads(&self) -> (heads: &Vec<CommitId>)
        requires
            self.wf(),
        ensures
            heads@.to_set() == self.model().heads,
            heads@.no_duplicates(),
    {
        self.data.heads()
    }

    /// How this view compares with another: as their ids do.
    pub fn compare(&self, other: &Self) -> (r: Ordering)
        ensures
            r == ordering_of(self.spec_id().0, other.spec_id().0),
    {
        order_of(self.id.0, other.id.0)
    }

    /// A fresh value for the same view.
    pub fn dup(&self) -> (view: View)
        requires
            self.wf(),
        ensures
            view.spec_id() == self.spec_id(),
            view.model() == self.model(),
            view.wf(),
    {
        View { id: self.id, data: self.data.dup() }
    }
}

} // verus!
