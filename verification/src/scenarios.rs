//! Ready-made verification tasks for the classic shared-counter scenario:
//! a set of threads that each atomically add their own delta to one shared
//! cell, with the assertion that the final value is the expected total.

use vstd::prelude::*;
use crate::checker::{Assertion, Expr};
use crate::ops::{Operation, Width};
use crate::program::VerificationTask;
use crate::store::CellInit;

verus! {

/// A task with one shared cell of the given width and initial value, one
/// thread per delta that issues a single `fetch_add` of that delta, and the
/// assertion that the cell ends up equal to `expected`.
pub fn fetch_add_task(deltas: &Vec<u64>, width: Width, initial: u64, expected: u64) -> (task:
    VerificationTask)
    ensures
        task.wf(),
        task.cells@ == seq![CellInit { width, initial }],
        task.programs@.len() == deltas@.len(),
        forall|t: int|
            0 <= t < deltas@.len() ==> (#[trigger] task.programs@[t]).ops@ == seq![
                Operation::FetchAdd { cell: 0, delta: deltas@[t] },
            ],
        task.assertion == Assertion::Eq(Expr::CellValue(0), Expr::Const(expected)),
{
    let mut cells: Vec<CellInit> = Vec::new();
    cells.push(CellInit { width, initial });
    let mut task = VerificationTask::new(
        cells,
        Assertion::Eq(Expr::CellValue(0), Expr::Const(expected)),
    );
    let mut t: usize = 0;
    while t < deltas.len()
        invariant
            t <= deltas@.len(),
            task.wf(),
            task.cells@ == seq![CellInit { width, initial }],
            task.programs@.len() == t,
            forall|j: int|
                0 <= j < t ==> (#[trigger] task.programs@[j]).ops@ == seq![
                    Operation::FetchAdd { cell: 0, delta: deltas@[j] },
                ],
            task.assertion == Assertion::Eq(Expr::CellValue(0), Expr::Const(expected)),
        decreases deltas@.len() - t,
    {
        let mut ops: Vec<Operation> = Vec::new();
        ops.push(Operation::FetchAdd { cell: 0, delta: deltas[t] });
        proof {
            assert(ops@ =~= seq![Operation::FetchAdd { cell: 0, delta: deltas@[t as int] }]);
        }
        task.add_thread(ops);
        t = t + 1;
    }
    task
}

} // verus!
