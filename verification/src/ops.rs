//! Atomic operations, cell widths and operation results.

use vstd::prelude::*;

verus! {

/// The bit width a shared cell is declared with.  A cell's value always
/// stays below the modulus of its width; fetch-add wraps around at it.
#[derive(Clone, Copy, Debug, PartialEq, Eq, Structural)]
pub enum Width {
    W8,
    W16,
    W32,
    W64,
}

/// One atomic operation of a thread program.  Each operation is indivisible
/// with respect to interleaving: no other thread's operation can fall inside
/// it.  `cell` names the shared cell by its creation index.
#[derive(Clone, Copy, Debug, PartialEq, Eq, Structural)]
pub enum Operation {
    /// Return the cell's current value; no change.
    Read { cell: usize },
    /// Set the cell to `value` (reduced to the cell's width); returns nothing.
    Write { cell: usize, value: u64 },
    /// Add `delta` with wraparound at the cell's width; return the value
    /// observed immediately before the addition.
    FetchAdd { cell: usize, delta: u64 },
    /// Replace the value with `new` (reduced to the cell's width) if the
    /// current value equals `expected`; return whether the swap occurred
    /// together with the pre-swap value.
    CompareAndSwap { cell: usize, expected: u64, new: u64 },
}

/// What an operation handed back to its issuing thread.
#[derive(Clone, Copy, Debug, PartialEq, Eq, Structural)]
pub enum OpResult {
    /// The operation has not executed, or produced no value (a write).
    NoValue,
    /// A plain value: what a read observed, or a fetch-add's pre-update value.
    Value(u64),
    /// Outcome of a compare-and-swap: whether it swapped, and the value seen
    /// immediately before.
    CasOutcome { swapped: bool, previous: u64 },
}

impl Operation {
    /// The identity of the cell the operation acts on.
    pub open spec fn spec_cell(self) -> usize {
        match self {
            Operation::Read { cell } => cell,
            Operation::Write { cell, .. } => cell,
            Operation::FetchAdd { cell, .. } => cell,
            Operation::CompareAndSwap { cell, .. } => cell,
        }
    }
}

/// The exclusive upper bound on values of a cell of width `w`.
pub open spec fn modulus(w: Width) -> int {
    match w {
        Width::W8 => 0x100,
        Width::W16 => 0x1_0000,
        Width::W32 => 0x1_0000_0000,
        Width::W64 => 0x1_0000_0000_0000_0000,
    }
}

/// The modulus of a width, as a machine integer.
pub fn modulus_u128(w: Width) -> (m: u128)
    ensures
        m == modulus(w),
{
    match w {
        Width::W8 => 0x100,
        Width::W16 => 0x1_0000,
        Width::W32 => 0x1_0000_0000,
        Width::W64 => 0x1_0000_0000_0000_0000,
    }
}

} // verus!
