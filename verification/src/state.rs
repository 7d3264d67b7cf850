//! The state one replay produces: shared cells plus per-thread bindings.

use vstd::prelude::*;
use crate::ops::OpResult;
use crate::store::{Cell, Store};

verus! {

/// The mathematical model of an execution state: the cells by identity and,
/// for each thread, the value each of its operations handed back.
#[verifier::ext_equal]
pub struct StateModel {
    pub cells: Seq<Cell>,
    pub bindings: Seq<Seq<OpResult>>,
}

/// The state owned by one replay: the cell store and, for each thread and
/// each of its operations, what that operation returned.  A binding is
/// `NoValue` until its operation executes (and stays so for a write, which
/// produces no value).  Never shared across replays.
#[derive(Clone, Debug, PartialEq, Eq)]
pub struct ExecutionState {
    pub store: Store,
    pub bindings: Vec<Vec<OpResult>>,
}

impl View for ExecutionState {
    type V = StateModel;

    open spec fn view(&self) -> StateModel {
        StateModel {
            cells: self.store@,
            bindings: self.bindings@.map_values(|row: Vec<OpResult>| row@),
        }
    }
}

} // verus!
