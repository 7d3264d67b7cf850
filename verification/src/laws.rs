//! Laws the engine guarantees across its components.

use vstd::prelude::*;
use vstd::arithmetic::div_mod::{
    lemma_add_mod_noop, lemma_add_mod_noop_right, lemma_mod_division_less_than_divisor,
    lemma_small_mod,
};
use crate::enumerate::{all_zero, dec_at, lemma_shuffle_cons};
use crate::errors::VerifierError;
use crate::interleave::{is_shuffle, lemma_occ_cons, lemma_occ_nonneg, occ};
use crate::ops::{modulus, Operation};
use crate::program::{ThreadProgram, VerificationTask};
use crate::replay::{init_cells, init_state, replay_order, spec_replay, spec_run, zero_counters};
use crate::state::StateModel;
use crate::store::{spec_apply, Cell};

verus! {

/// Replay determinism: what replaying an interleaving yields is a function
/// of the task and the interleaving alone, so replaying the same
/// interleaving twice against fresh stores yields identical outcomes.  The
/// executable engine's contract ties each of its results to [`spec_replay`],
/// which this law equates.
pub proof fn lemma_replay_deterministic(
    task: VerificationTask,
    p: Seq<(usize, usize)>,
    r1: Result<StateModel, VerifierError>,
    r2: Result<StateModel, VerifierError>,
)
    requires
        r1 == spec_replay(task, p),
        r2 == spec_replay(task, p),
    ensures
        r1 == r2,
{
}

/// The total delta a set of threads contributes: each thread's delta times
/// the number of its remaining operations.
pub open spec fn weighted_delta_total(deltas: Seq<u64>, rem: Seq<usize>) -> int
    decreases rem.len(),
{
    if rem.len() == 0 {
        0
    } else {
        rem[0] * deltas[0] + weighted_delta_total(deltas.drop_first(), rem.drop_first())
    }
}

/// The sum of all deltas.
pub open spec fn delta_total(deltas: Seq<u64>) -> int
    decreases deltas.len(),
{
    if deltas.len() == 0 {
        0
    } else {
        deltas[0] + delta_total(deltas.drop_first())
    }
}

/// Threads with no remaining operations contribute nothing.
proof fn lemma_weighted_zero(deltas: Seq<u64>, rem: Seq<usize>)
    requires
        all_zero(rem),
    ensures
        weighted_delta_total(deltas, rem) == 0,
    decreases rem.len(),
{
    if rem.len() > 0 {
        assert(rem[0] == 0);
        assert forall|t: int| 0 <= t < rem.drop_first().len() implies #[trigger] rem.drop_first()[t]
            == 0 by {
            assert(rem[t + 1] == 0);
        }
        lemma_weighted_zero(deltas.drop_first(), rem.drop_first());
    }
}

/// Updating one thread's remaining count moves the weighted total by the
/// difference times that thread's delta.
proof fn lemma_weighted_update(deltas: Seq<u64>, rem: Seq<usize>, t: int, v: usize)
    requires
        0 <= t < rem.len(),
        rem.len() <= deltas.len(),
    ensures
        weighted_delta_total(deltas, rem.update(t, v)) == weighted_delta_total(deltas, rem) - rem[t]
            * deltas[t] + v * deltas[t],
    decreases rem.len(),
{
    if t == 0 {
        assert(rem.update(0, v).drop_first() =~= rem.drop_first());
        assert(rem.update(0, v)[0] == v);
    } else {
        assert(rem.update(t, v).drop_first() =~= rem.drop_first().update(t - 1, v));
        assert(rem.update(t, v)[0] == rem[0]);
        lemma_weighted_update(deltas.drop_first(), rem.drop_first(), t - 1, v);
        assert(deltas.drop_first()[t - 1] == deltas[t]);
        assert(rem.drop_first()[t - 1] == rem[t]);
    }
}

/// When every thread has exactly one remaining operation, the weighted total
/// is the plain sum of the deltas.
proof fn lemma_weighted_ones(deltas: Seq<u64>, rem: Seq<usize>)
    requires
        rem.len() == deltas.len(),
        forall|t: int| 0 <= t < rem.len() ==> #[trigger] rem[t] == 1,
    ensures
        weighted_delta_total(deltas, rem) == delta_total(deltas),
    decreases rem.len(),
{
    if rem.len() > 0 {
        assert(rem[0] == 1);
        assert forall|t: int| 0 <= t < rem.drop_first().len() implies #[trigger] rem.drop_first()[t]
            == 1 by {
            assert(rem[t + 1] == 1);
        }
        lemma_weighted_ones(deltas.drop_first(), rem.drop_first());
    }
}

/// A thread program that only ever adds `delta` to cell 0.
pub open spec fn fetch_add_program(p: ThreadProgram, delta: u64) -> bool {
    forall|i: int|
        0 <= i < p.ops@.len() ==> p.ops@[i] == (Operation::FetchAdd { cell: 0, delta })
}

/// Running any shuffle of remaining fetch-add operations against a single
/// cell adds the weighted delta total, with wraparound at the cell's width,
/// no matter the order: addition commutes, so every interleaving agrees.
pub proof fn lemma_fetch_add_run(
    programs: Seq<ThreadProgram>,
    deltas: Seq<u64>,
    st: StateModel,
    next: Seq<usize>,
    s: Seq<usize>,
    rem: Seq<usize>,
)
    requires
        deltas.len() == programs.len(),
        next.len() == programs.len(),
        rem.len() == programs.len(),
        forall|t: int|
            0 <= t < programs.len() ==> #[trigger] next[t] + rem[t] == programs[t].ops@.len(),
        forall|t: int| 0 <= t < programs.len() ==> (#[trigger] programs[t]).ops@.len() <= usize::MAX,
        forall|t: int| 0 <= t < programs.len() ==> fetch_add_program(#[trigger] programs[t], deltas[t]),
        st.cells.len() == 1,
        st.cells[0].value < modulus(st.cells[0].width),
        is_shuffle(s, rem),
    ensures
        spec_run(programs, st, next, s) matches Ok(res) && {
            &&& res.cells.len() == 1
            &&& res.cells[0].width == st.cells[0].width
            &&& res.cells[0].value == (st.cells[0].value + weighted_delta_total(deltas, rem))
                % modulus(st.cells[0].width)
        },
    decreases s.len(),
{
    let w = st.cells[0].width;
    let m = modulus(w);
    let v = st.cells[0].value;
    if s.len() == 0 {
        assert forall|t: int| 0 <= t < rem.len() implies #[trigger] rem[t] == 0 by {
            assert(occ(s, t) == 0);
        }
        lemma_weighted_zero(deltas, rem);
        lemma_small_mod(v as nat, m as nat);
    } else {
        let t0 = s[0];
        let t_ = t0 as int;
        assert(t_ < rem.len());
        assert(s =~= seq![t0] + s.drop_first());
        lemma_occ_cons(t0, s.drop_first(), t_);
        lemma_occ_nonneg(s.drop_first(), t_);
        assert(occ(s, t_) == rem[t_]);
        assert(rem[t_] >= 1);
        let i = next[t_] as int;
        assert(i < programs[t_].ops@.len());
        let op = programs[t_].ops@[i];
        assert(op == (Operation::FetchAdd { cell: 0, delta: deltas[t_] }));
        let d = deltas[t_];
        lemma_mod_division_less_than_divisor(v + d, m);
        let v2 = ((v + d) % m) as u64;
        let stepped = StateModel {
            cells: st.cells.update(0, Cell { width: w, value: v2 }),
            bindings: st.bindings.update(t_, st.bindings[t_].update(i, pick_result(st, op))),
        };
        assert(spec_apply(st.cells, op) == Some(
            (stepped.cells, crate::ops::OpResult::Value(v)),
        ));
        let next2 = next.update(t_, (next[t_] + 1) as usize);
        let rem2 = dec_at(rem, t_);
        lemma_shuffle_cons(t0, s.drop_first(), rem);
        assert(is_shuffle(s.drop_first(), rem2));
        assert(stepped.cells[0].value == v2 && stepped.cells.len() == 1);
        assert forall|t: int| 0 <= t < programs.len() implies #[trigger] next2[t] + rem2[t]
            == programs[t].ops@.len() by {
            assert(next[t] + rem[t] == programs[t].ops@.len());
            if t == t_ {
                assert(programs[t].ops@.len() <= usize::MAX);
                assert(next[t_] + 1 <= usize::MAX);
                assert(next2[t_] == next[t_] + 1);
                assert(rem2[t_] == rem[t_] - 1);
            }
        }
        lemma_fetch_add_run(programs, deltas, stepped, next2, s.drop_first(), rem2);
        let s2 = weighted_delta_total(deltas, rem2);
        lemma_weighted_update(deltas, rem, t_, (rem[t_] - 1) as usize);
        assert((rem[t_] - 1) * d == rem[t_] * d - d) by (nonlinear_arith);
        assert(s2 == weighted_delta_total(deltas, rem) - d);
        // ((v + d) % m + s2) % m == (v + d + s2) % m
        lemma_add_mod_noop_right((v + d) % m, s2, m);
        lemma_add_mod_noop(v + d, s2, m);
        assert((v2 + s2) % m == (v + d + s2) % m);
        assert(v + d + s2 == v + weighted_delta_total(deltas, rem));
    }
}

/// The result an operation records into its issuing thread's bindings, as
/// [`spec_apply`] determines it.
spec fn pick_result(st: StateModel, op: Operation) -> crate::ops::OpResult {
    match spec_apply(st.cells, op) {
        Some(pair) => pair.1,
        None => crate::ops::OpResult::NoValue,
    }
}

/// Fetch-add commutes: for threads that each issue one `fetch_add` of their
/// own delta against a single shared cell, every program-order-respecting
/// interleaving yields the same final value, the initial value plus the sum
/// of all deltas, with wraparound at the cell's width.
pub proof fn lemma_fetch_add_commutative_total(
    task: VerificationTask,
    deltas: Seq<u64>,
    s: Seq<usize>,
)
    requires
        task.cells@.len() == 1,
        deltas.len() == task.programs@.len(),
        forall|t: int|
            0 <= t < task.programs@.len() ==> (#[trigger] task.programs@[t]).ops@ == seq![
                Operation::FetchAdd { cell: 0, delta: deltas[t] },
            ],
        is_shuffle(s, task.spec_counts()),
    ensures
        replay_order(task, s) matches Ok(res) && {
            let w = task.cells@[0].width;
            &&& res.cells.len() == 1
            &&& res.cells[0].width == w
            &&& res.cells[0].value == (task.cells@[0].initial + delta_total(deltas)) % modulus(w)
        },
{
    let init = init_state(task);
    let w = task.cells@[0].width;
    let m = modulus(w);
    let counts = task.spec_counts();
    assert(init.cells == init_cells(task.cells@));
    assert(init.cells[0] == Cell {
        width: w,
        value: (task.cells@[0].initial as int % m) as u64,
    });
    assert(init.cells.len() == 1);
    lemma_mod_division_less_than_divisor(task.cells@[0].initial as int, m);
    let zeros = zero_counters(task.programs@.len());
    assert forall|t: int| 0 <= t < task.programs@.len() implies #[trigger] zeros[t] + counts[t]
        == task.programs@[t].ops@.len() by {
        assert(counts[t] == task.programs@[t].ops@.len() as usize);
        assert(task.programs@[t].ops@.len() == 1);
    }
    assert forall|t: int| 0 <= t < task.programs@.len() implies fetch_add_program(
        #[trigger] task.programs@[t],
        deltas[t],
    ) by {
        assert(task.programs@[t].ops@[0] == (Operation::FetchAdd { cell: 0, delta: deltas[t] }));
    }
    lemma_fetch_add_run(task.programs@, deltas, init, zeros, s, counts);
    assert forall|t: int| 0 <= t < counts.len() implies #[trigger] counts[t] == 1 by {
        assert(task.programs@[t].ops@.len() == 1);
    }
    lemma_weighted_ones(deltas, counts);
    let v0 = init.cells[0].value;
    let dt = delta_total(deltas);
    lemma_add_mod_noop(task.cells@[0].initial as int, dt, m);
    lemma_add_mod_noop_right(v0 as int, dt, m);
    assert((v0 + dt) % m == (task.cells@[0].initial + dt) % m);
}

/// The shared-counter scenario passes everywhere: when the asserted value is
/// the initial value plus the sum of all deltas (with wraparound at the
/// cell's width), every interleaving of the single-fetch-add threads
/// satisfies the assertion, so the driver owes `Proven`.
pub proof fn lemma_fetch_add_scenario_passes(
    task: VerificationTask,
    deltas: Seq<u64>,
    expected: u64,
    s: Seq<usize>,
)
    requires
        task.cells@.len() == 1,
        deltas.len() == task.programs@.len(),
        forall|t: int|
            0 <= t < task.programs@.len() ==> (#[trigger] task.programs@[t]).ops@ == seq![
                Operation::FetchAdd { cell: 0, delta: deltas[t] },
            ],
        task.assertion == crate::checker::Assertion::Eq(
            crate::checker::Expr::CellValue(0),
            crate::checker::Expr::Const(expected),
        ),
        expected == (task.cells@[0].initial + delta_total(deltas)) % modulus(
            task.cells@[0].width,
        ),
        is_shuffle(s, task.spec_counts()),
    ensures
        crate::driver::passes(task, s),
{
    lemma_fetch_add_commutative_total(task, deltas, s);
    let res = replay_order(task, s)->Ok_0;
    assert(crate::checker::eval_expr(crate::checker::Expr::CellValue(0), res) == Some(
        res.cells[0].value,
    ));
    assert(crate::checker::eval_assertion(task.assertion, res) == Some(true));
}

} // verus!
