//! The atomic cell store: the single point of mutation of shared values.

use vstd::prelude::*;
use crate::ops::{modulus, modulus_u128, OpResult, Operation, Width};
use crate::errors::VerifierError;

verus! {

/// One shared atomic cell: its declared width and its current value.
#[derive(Clone, Copy, Debug, PartialEq, Eq, Structural)]
pub struct Cell {
    pub width: Width,
    pub value: u64,
}

impl Cell {
    /// A cell is well formed when its value fits its declared width.
    pub open spec fn wf(self) -> bool {
        self.value < modulus(self.width)
    }
}

/// How a cell starts out: its width and the initial value it is reset to at
/// the start of each replay.  The initial value is reduced to the width.
#[derive(Clone, Copy, Debug, PartialEq, Eq, Structural)]
pub struct CellInit {
    pub width: Width,
    pub initial: u64,
}

/// What applying one operation to a sequence of cells yields: the updated
/// cells and the value handed back to the issuing thread, or nothing when
/// the named cell does not exist.
pub open spec fn spec_apply(cells: Seq<Cell>, op: Operation) -> Option<(Seq<Cell>, OpResult)> {
    match op {
        Operation::Read { cell } => {
            if cell < cells.len() {
                Some((cells, OpResult::Value(cells[cell as int].value)))
            } else {
                None
            }
        },
        Operation::Write { cell, value } => {
            if cell < cells.len() {
                let w = cells[cell as int].width;
                Some((
                    cells.update(cell as int, Cell { width: w, value: (value as int % modulus(w)) as u64 }),
                    OpResult::NoValue,
                ))
            } else {
                None
            }
        },
        Operation::FetchAdd { cell, delta } => {
            if cell < cells.len() {
                let w = cells[cell as int].width;
                let old_value = cells[cell as int].value;
                Some((
                    cells.update(
                        cell as int,
                        Cell { width: w, value: ((old_value + delta) % modulus(w)) as u64 },
                    ),
                    OpResult::Value(old_value),
                ))
            } else {
                None
            }
        },
        Operation::CompareAndSwap { cell, expected, new } => {
            if cell < cells.len() {
                let w = cells[cell as int].width;
                let old_value = cells[cell as int].value;
                if old_value == expected {
                    Some((
                        cells.update(cell as int, Cell { width: w, value: (new as int % modulus(w)) as u64 }),
                        OpResult::CasOutcome { swapped: true, previous: old_value },
                    ))
                } else {
                    Some((cells, OpResult::CasOutcome { swapped: false, previous: old_value }))
                }
            } else {
                None
            }
        },
    }
}

/// Holds the current value of every shared cell during one replay.  All
/// mutation of shared values goes through `apply`.
#[derive(Clone, Debug, PartialEq, Eq)]
pub struct Store {
    pub cells: Vec<Cell>,
}

impl View for Store {
    type V = Seq<Cell>;

    open spec fn view(&self) -> Seq<Cell> {
        self.cells@
    }
}

impl Store {
    /// Every cell's value fits its declared width.
    pub open spec fn wf(self) -> bool {
        forall|i: int| 0 <= i < self@.len() ==> #[trigger] self@[i].wf()
    }

    /// An empty store with no cells.
    pub fn new() -> (r: Store)
        ensures
            r@ == Seq::<Cell>::empty(),
            r.wf(),
    {
        Store { cells: Vec::new() }
    }

    /// Registers a fresh cell with the given width and initial value (the
    /// initial value is reduced to the width) and returns its identity.
    pub fn create(&mut self, width: Width, initial: u64) -> (id: usize)
        requires
            old(self).wf(),
        ensures
            final(self).wf(),
            id == old(self)@.len(),
            final(self)@ == old(self)@.push(
                Cell { width, value: (initial as int % modulus(width)) as u64 },
            ),
    {
        let m = modulus_u128(width);
        let reduced = ((initial as u128) % m) as u64;
        proof {
            assert((initial as u128) % (m as u128) < m);
            assert(reduced < modulus(width));
        }
        let id = self.cells.len();
        self.cells.push(Cell { width, value: reduced });
        proof {
            assert(self@ == old(self)@.push(Cell { width, value: reduced }));
            assert forall|i: int| 0 <= i < self@.len() implies #[trigger] self@[i].wf() by {
                if i < old(self)@.len() {
                    assert(old(self)@[i].wf());
                }
            }
        }
        id
    }

    /// Applies one atomic operation: the single point of mutation.  No cell
    /// other than the one the operation names changes.  Returns the named
    /// cell's new value together with what the operation hands back, or
    /// `UnknownCell` when the operation names an unregistered cell.
    pub fn apply(&mut self, op: &Operation) -> (r: Result<(u64, OpResult), VerifierError>)
        requires
            old(self).wf(),
        ensures
            final(self).wf(),
            match r {
                Ok((new_value, returned)) => {
                    &&& spec_apply(old(self)@, *op) == Some((final(self)@, returned))
                    &&& new_value == final(self)@[op.spec_cell() as int].value
                },
                Err(e) => {
                    &&& e == VerifierError::UnknownCell
                    &&& spec_apply(old(self)@, *op) is None
                    &&& final(self)@ == old(self)@
                },
            },
    {
        match op {
            Operation::Read { cell } => {
                if *cell < self.cells.len() {
                    let v = self.cells[*cell].value;
                    Ok((v, OpResult::Value(v)))
                } else {
                    Err(VerifierError::UnknownCell)
                }
            },
            Operation::Write { cell, value } => {
                if *cell < self.cells.len() {
                    let w = self.cells[*cell].width;
                    let reduced = ((*value as u128) % modulus_u128(w)) as u64;
                    self.cells[*cell] = Cell { width: w, value: reduced };
                    Ok((reduced, OpResult::NoValue))
                } else {
                    Err(VerifierError::UnknownCell)
                }
            },
            Operation::FetchAdd { cell, delta } => {
                if *cell < self.cells.len() {
                    let w = self.cells[*cell].width;
                    let old_value = self.cells[*cell].value;
                    let sum = (old_value as u128 + *delta as u128) % modulus_u128(w);
                    self.cells[*cell] = Cell { width: w, value: sum as u64 };
                    Ok((sum as u64, OpResult::Value(old_value)))
                } else {
                    Err(VerifierError::UnknownCell)
                }
            },
            Operation::CompareAndSwap { cell, expected, new } => {
                if *cell < self.cells.len() {
                    let w = self.cells[*cell].width;
                    let old_value = self.cells[*cell].value;
                    if old_value == *expected {
                        let reduced = ((*new as u128) % modulus_u128(w)) as u64;
                        self.cells[*cell] = Cell { width: w, value: reduced };
                        Ok((reduced, OpResult::CasOutcome { swapped: true, previous: old_value }))
                    } else {
                        Ok((old_value, OpResult::CasOutcome { swapped: false, previous: old_value }))
                    }
                } else {
                    Err(VerifierError::UnknownCell)
                }
            },
        }
    }
}

} // verus!
