//! An exhaustive interleaving verifier for small concurrent programs.
//!
//! A fixed set of logical threads each issues a finite sequence of atomic
//! read-modify-write operations against shared cells.  The verifier
//! enumerates every total ordering of those operations that respects each
//! thread's program order, replays each ordering against a fresh store, and
//! checks a caller-supplied assertion over the resulting state.  It reports
//! `Proven` only after every interleaving has been checked, and otherwise
//! returns the first failing interleaving as a counterexample.

pub mod checker;
pub mod driver;
pub mod enumerate;
pub mod errors;
pub mod interleave;
pub mod laws;
pub mod ops;
pub mod program;
pub mod replay;
pub mod scenarios;
pub mod state;
pub mod store;

use vstd::prelude::*;
use std::sync::Arc;

verus! {

/// Relies on `std::sync::Arc::clone`: the clone is a second handle to the
/// same allocation, so it carries the same shared value as the handle it
/// was cloned from.
#[verifier::external_body]
fn arc_clone(v: &Arc<i32>) -> (r: Arc<i32>)
    ensures
        r == *v,
{
    v.clone()
}

/// Two reference-counted handles to one shared integer observe the same
/// value: reading through both and adding gives twice the shared value.
/// Shared read-only access through such handles is safe without any
/// interleaving analysis, which is why the verifier models it as plain
/// shared reads.
pub fn crux_test() -> (r: i32)
    ensures
        r == 2,
{
    let a = Arc::new(1i32);
    let b = arc_clone(&a);
    *a + *b
}

} // verus!
