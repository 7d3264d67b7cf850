//! Thread programs and the verification task handed to the driver.

use vstd::prelude::*;
use crate::checker::Assertion;
use crate::ops::Operation;
use crate::store::CellInit;

verus! {

/// An ordered, finite sequence of atomic operations for one logical thread.
/// Program order among a thread's own operations is preserved in every
/// interleaving.  Immutable during enumeration.
#[derive(Clone, Debug, PartialEq, Eq)]
pub struct ThreadProgram {
    /// The thread's identity: its position among the task's programs.
    pub thread: usize,
    /// The operations, in program order.
    pub ops: Vec<Operation>,
}

/// One verification task: the shared cells (reset to their initial values at
/// the start of every replay), the thread programs, and the assertion to
/// check against every final state.
#[derive(Debug, PartialEq, Eq)]
pub struct VerificationTask {
    pub cells: Vec<CellInit>,
    pub programs: Vec<ThreadProgram>,
    pub assertion: Assertion,
}

impl VerificationTask {
    /// Each program carries the thread identity its position implies.
    pub open spec fn wf(self) -> bool {
        forall|t: int|
            0 <= t < self.programs@.len() ==> (#[trigger] self.programs@[t]).thread == t
    }

    /// The per-thread operation counts.
    pub open spec fn spec_counts(self) -> Seq<usize> {
        self.programs@.map_values(|p: ThreadProgram| p.ops@.len() as usize)
    }

    /// A task over the given cells with no threads yet.
    pub fn new(cells: Vec<CellInit>, assertion: Assertion) -> (r: VerificationTask)
        ensures
            r.wf(),
            r.cells == cells,
            r.assertion == assertion,
            r.programs@.len() == 0,
    {
        VerificationTask { cells, programs: Vec::new(), assertion }
    }

    /// Adds one thread with the given operation sequence and returns its
    /// identity.
    pub fn add_thread(&mut self, ops: Vec<Operation>) -> (t: usize)
        requires
            old(self).wf(),
        ensures
            final(self).wf(),
            t == old(self).programs@.len(),
            final(self).programs@ == old(self).programs@.push(
                ThreadProgram { thread: t, ops },
            ),
            final(self).cells == old(self).cells,
            final(self).assertion == old(self).assertion,
    {
        let t = self.programs.len();
        self.programs.push(ThreadProgram { thread: t, ops });
        t
    }

    /// The per-thread operation counts, as the enumerator consumes them.
    pub fn counts(&self) -> (r: Vec<usize>)
        ensures
            r@ == self.spec_counts(),
    {
        let mut r: Vec<usize> = Vec::new();
        let mut t: usize = 0;
        while t < self.programs.len()
            invariant
                t <= self.programs@.len(),
                r@.len() == t,
                forall|j: int| 0 <= j < t ==> #[trigger] r@[j] == self.programs@[j].ops@.len(),
            decreases self.programs@.len() - t,
        {
            let n = self.programs[t].ops.len();
            r.push(n);
            t = t + 1;
        }
        proof {
            assert(r@ =~= self.spec_counts());
        }
        r
    }
}

} // verus!
