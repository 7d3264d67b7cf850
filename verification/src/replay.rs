//! The execution engine: replays one interleaving against a fresh store.
//!
//! Replay is deterministic: the result is a mathematical function
//! ([`spec_replay`]) of the task and the interleaving alone, so the same
//! interleaving always yields the same final state.  The engine defensively
//! rejects, as [`VerifierError::MalformedInterleaving`], any input that is
//! not a valid shuffle of the task's programs.

use vstd::prelude::*;
use crate::errors::VerifierError;
use crate::interleave::{
    is_shuffle, lemma_occ_cons, lemma_occ_nonneg, lemma_occ_push, lemma_occ_take_skip, occ,
    pairs_of, threads_of, valid_interleaving, Interleaving,
};
use crate::ops::{modulus, OpResult};
use crate::program::{ThreadProgram, VerificationTask};
use crate::state::{ExecutionState, StateModel};
use crate::store::{spec_apply, Cell, CellInit, Store};

verus! {

/// The cells at the start of a replay: each reset to its declared initial
/// value, reduced to its width.
pub open spec fn init_cells(cells: Seq<CellInit>) -> Seq<Cell> {
    cells.map_values(
        |c: CellInit| Cell { width: c.width, value: (c.initial as int % modulus(c.width)) as u64 },
    )
}

/// The bindings at the start of a replay: nothing has executed yet.
pub open spec fn init_bindings(programs: Seq<ThreadProgram>) -> Seq<Seq<OpResult>> {
    programs.map_values(|p: ThreadProgram| Seq::new(p.ops@.len(), |i: int| OpResult::NoValue))
}

/// The freshly initialized state every replay of the task starts from.
pub open spec fn init_state(task: VerificationTask) -> StateModel {
    StateModel { cells: init_cells(task.cells@), bindings: init_bindings(task.programs@) }
}

/// One zeroed per-thread operation counter for each of `n` threads.
pub open spec fn zero_counters(n: nat) -> Seq<usize> {
    Seq::new(n, |i: int| 0usize)
}

/// Runs the scheduled threads `s` in order from state `st`, where `next[t]`
/// is the index of thread `t`'s next operation.  Each operation's result is
/// recorded in the issuing thread's bindings.  Stops at the first operation
/// that names an unregistered cell.
pub open spec fn spec_run(
    programs: Seq<ThreadProgram>,
    st: StateModel,
    next: Seq<usize>,
    s: Seq<usize>,
) -> Result<StateModel, VerifierError>
    decreases s.len(),
{
    if s.len() == 0 {
        Ok(st)
    } else {
        let t = s[0] as int;
        let i = next[t] as int;
        let op = programs[t].ops@[i];
        match spec_apply(st.cells, op) {
            None => Err(VerifierError::UnknownCell),
            Some(pair) => spec_run(
                programs,
                StateModel {
                    cells: pair.0,
                    bindings: st.bindings.update(t, st.bindings[t].update(i, pair.1)),
                },
                next.update(t, (next[t] + 1) as usize),
                s.drop_first(),
            ),
        }
    }
}

/// What replaying the threads in order `s` against a fresh store yields.
pub open spec fn replay_order(task: VerificationTask, s: Seq<usize>) -> Result<
    StateModel,
    VerifierError,
> {
    spec_run(task.programs@, init_state(task), zero_counters(task.programs@.len()), s)
}

/// What replaying an explicit interleaving yields: the engine's full
/// contract, including the defensive rejection of malformed input.
pub open spec fn spec_replay(task: VerificationTask, p: Seq<(usize, usize)>) -> Result<
    StateModel,
    VerifierError,
> {
    if valid_interleaving(p, task.spec_counts()) {
        replay_order(task, threads_of(p))
    } else {
        Err(VerifierError::MalformedInterleaving)
    }
}

/// Decides whether `il` is a valid shuffle of programs with the given
/// per-thread operation counts: thread identities in range, each operation
/// index the one its position implies, and every operation scheduled.
pub fn check_interleaving(il: &Interleaving, counts: &Vec<usize>) -> (r: bool)
    ensures
        r == valid_interleaving(il@, counts@),
{
    let ghost tops = threads_of(il@);
    let nthreads = counts.len();
    let n = il.steps.len();
    let mut next: Vec<usize> = Vec::new();
    let mut z: usize = 0;
    while z < nthreads
        invariant
            z <= nthreads,
            next@.len() == z,
            forall|t: int| 0 <= t < z ==> next@[t] == 0,
        decreases nthreads - z,
    {
        next.push(0);
        z = z + 1;
    }
    proof {
        assert(tops.len() == n);
        assert(forall|j: int| 0 <= j < n ==> tops[j] == il@[j].0);
    }
    let mut k: usize = 0;
    while k < n
        invariant
            k <= n,
            n == il@.len(),
            tops == threads_of(il@),
            tops.len() == n,
            forall|j: int| 0 <= j < n ==> tops[j] == il@[j].0,
            nthreads == counts@.len(),
            next@.len() == nthreads,
            forall|t: int| 0 <= t < nthreads ==> #[trigger] next@[t] == occ(tops.take(k as int), t),
            forall|t: int| 0 <= t < nthreads ==> #[trigger] next@[t] <= counts@[t],
            forall|j: int|
                0 <= j < k ==> (#[trigger] il@[j]).0 < nthreads && il@[j] == pairs_of(tops)[j],
        decreases n - k,
    {
        let step = il.steps[k];
        let t = step.0;
        let i = step.1;
        if t >= nthreads {
            proof {
                assert(tops[k as int] == t);
                assert(!is_shuffle(tops, counts@));
            }
            return false;
        }
        proof {
            lemma_occ_nonneg(tops.take(k as int), t as int);
            lemma_occ_take_skip(tops, k as int, t as int);
            assert(tops.skip(k as int)[0] == tops[k as int]);
            assert(tops.skip(k as int) =~= seq![tops[k as int]] + tops.skip(k as int + 1));
            lemma_occ_cons(tops[k as int], tops.skip(k as int + 1), t as int);
            lemma_occ_nonneg(tops.skip(k as int + 1), t as int);
            // so occ(tops, t) >= occ(tops.take(k), t) + 1
        }
        if i != next[t] {
            proof {
                assert(pairs_of(tops)[k as int].1 == occ(tops.take(k as int), t as int) as usize);
                assert(il@[k as int].1 != pairs_of(tops)[k as int].1);
                assert(il@ != pairs_of(tops));
            }
            return false;
        }
        if next[t] >= counts[t] {
            proof {
                assert(occ(tops, t as int) > counts@[t as int]);
                assert(!is_shuffle(tops, counts@));
            }
            return false;
        }
        next[t] = i + 1;
        proof {
            assert(tops.take(k as int + 1) =~= tops.take(k as int).push(tops[k as int]));
            assert forall|tt: int| 0 <= tt < nthreads implies #[trigger] next@[tt] == occ(
                tops.take(k as int + 1),
                tt,
            ) by {
                lemma_occ_push(tops.take(k as int), tops[k as int], tt);
            }
            assert(il@[k as int] == pairs_of(tops)[k as int]);
        }
        k = k + 1;
    }
    proof {
        assert(tops.take(n as int) =~= tops);
    }
    let mut t: usize = 0;
    while t < nthreads
        invariant
            t <= nthreads,
            n == il@.len(),
            tops == threads_of(il@),
            tops.len() == n,
            nthreads == counts@.len(),
            next@.len() == nthreads,
            forall|tt: int| 0 <= tt < nthreads ==> #[trigger] next@[tt] == occ(tops, tt),
            forall|tt: int| 0 <= tt < t ==> #[trigger] next@[tt] == counts@[tt],
            forall|j: int|
                0 <= j < n ==> (#[trigger] il@[j]).0 < nthreads && il@[j] == pairs_of(tops)[j],
        decreases nthreads - t,
    {
        if next[t] != counts[t] {
            proof {
                assert(occ(tops, t as int) != counts@[t as int]);
                assert(!is_shuffle(tops, counts@));
            }
            return false;
        }
        t = t + 1;
    }
    proof {
        assert(il@ =~= pairs_of(tops));
        assert forall|j: int| 0 <= j < tops.len() implies (#[trigger] tops[j]) < counts@.len() by {
            assert(il@[j].0 < nthreads);
        }
        assert forall|tt: int| 0 <= tt < counts@.len() implies #[trigger] occ(tops, tt)
            == counts@[tt] by {
            assert(next@[tt] == occ(tops, tt));
            assert(next@[tt] == counts@[tt]);
        }
        assert(is_shuffle(tops, counts@));
        assert(valid_interleaving(il@, counts@));
    }
    true
}

/// The freshly initialized execution state for one replay of the task.
fn build_initial(task: &VerificationTask) -> (st: ExecutionState)
    ensures
        st@ == init_state(*task),
        st.store.wf(),
{
    let mut store = Store::new();
    let ncells = task.cells.len();
    let mut c: usize = 0;
    while c < ncells
        invariant
            c <= ncells,
            ncells == task.cells@.len(),
            store.wf(),
            store@ == init_cells(task.cells@.take(c as int)),
        decreases ncells - c,
    {
        let ci = task.cells[c];
        store.create(ci.width, ci.initial);
        proof {
            assert(task.cells@.take(c as int + 1) =~= task.cells@.take(c as int).push(
                task.cells@[c as int],
            ));
            assert(store@ =~= init_cells(task.cells@.take(c as int + 1)));
        }
        c = c + 1;
    }
    proof {
        assert(task.cells@.take(ncells as int) =~= task.cells@);
    }
    let mut bindings: Vec<Vec<OpResult>> = Vec::new();
    let nthreads = task.programs.len();
    let mut t: usize = 0;
    while t < nthreads
        invariant
            t <= nthreads,
            nthreads == task.programs@.len(),
            bindings@.len() == t,
            forall|j: int|
                0 <= j < t ==> (#[trigger] bindings@[j])@ == init_bindings(task.programs@)[j],
        decreases nthreads - t,
    {
        let len = task.programs[t].ops.len();
        let mut row: Vec<OpResult> = Vec::new();
        let mut i: usize = 0;
        while i < len
            invariant
                i <= len,
                row@.len() == i,
                forall|j: int| 0 <= j < i ==> #[trigger] row@[j] == OpResult::NoValue,
            decreases len - i,
        {
            row.push(OpResult::NoValue);
            i = i + 1;
        }
        proof {
            assert(row@ =~= Seq::new(task.programs@[t as int].ops@.len(), |i: int| OpResult::NoValue));
        }
        bindings.push(row);
        t = t + 1;
    }
    let st = ExecutionState { store, bindings };
    proof {
        assert(st@.bindings =~~= init_bindings(task.programs@));
        assert(st@ =~~= init_state(*task));
    }
    st
}

/// Replays one interleaving against a freshly initialized store, recording
/// each operation's return value into its issuing thread's bindings.  The
/// result is exactly [`spec_replay`] of the task and the interleaving:
/// deterministic, with `MalformedInterleaving` exactly on invalid input and
/// `UnknownCell` exactly when the first out-of-range operation strikes.
pub fn replay(task: &VerificationTask, il: &Interleaving) -> (r: Result<
    ExecutionState,
    VerifierError,
>)
    ensures
        match r {
            Ok(st) => spec_replay(*task, il@) == Ok::<StateModel, VerifierError>(st@)
                && st.store.wf(),
            Err(e) => spec_replay(*task, il@) == Err::<StateModel, VerifierError>(e),
        },
{
    let counts = task.counts();
    if !check_interleaving(il, &counts) {
        return Err(VerifierError::MalformedInterleaving);
    }
    let ghost tops = threads_of(il@);
    let ghost progs = task.programs@;
    let ghost init = init_state(*task);
    let mut st = build_initial(task);
    let ghost mut nextg = zero_counters(progs.len());
    let n = il.steps.len();
    let nthreads = task.programs.len();
    proof {
        assert(tops.skip(0) =~= tops);
        assert forall|t: int| 0 <= t < nthreads implies #[trigger] nextg[t] == occ(
            tops.take(0),
            t,
        ) by {
            assert(tops.take(0) =~= Seq::<usize>::empty());
            assert(occ(Seq::<usize>::empty(), t) == 0);
        }
        assert(st@.bindings.len() == st.bindings@.len());
        assert(init_bindings(progs).len() == progs.len());
        assert forall|t: int| 0 <= t < nthreads implies #[trigger] st.bindings@[t]@.len()
            == progs[t].ops@.len() by {
            assert(st@.bindings[t] == st.bindings@[t]@);
            assert(init.bindings[t] == init_bindings(progs)[t]);
            assert(init_bindings(progs)[t] == Seq::new(
                progs[t].ops@.len(),
                |i: int| OpResult::NoValue,
            ));
        }
    }
    let mut k: usize = 0;
    while k < n
        invariant
            k <= n,
            n == il@.len(),
            tops == threads_of(il@),
            tops.len() == n,
            il@ == pairs_of(tops),
            is_shuffle(tops, counts@),
            counts@ == task.spec_counts(),
            counts@.len() == nthreads,
            nthreads == progs.len(),
            progs == task.programs@,
            init == init_state(*task),
            st.store.wf(),
            st.bindings@.len() == nthreads,
            forall|t: int|
                0 <= t < nthreads ==> #[trigger] st.bindings@[t]@.len() == progs[t].ops@.len(),
            nextg.len() == nthreads,
            forall|t: int| 0 <= t < nthreads ==> #[trigger] nextg[t] == occ(tops.take(k as int), t),
            spec_run(progs, init, zero_counters(progs.len()), tops) == spec_run(
                progs,
                st@,
                nextg,
                tops.skip(k as int),
            ),
        decreases n - k,
    {
        let step = il.steps[k];
        let t = step.0;
        let i = step.1;
        proof {
            assert(il@[k as int] == pairs_of(tops)[k as int]);
            assert(t == tops[k as int]);
            assert((t as int) < counts@.len());
        }
        let oplen = task.programs[t].ops.len();
        proof {
            assert(oplen == progs[t as int].ops@.len());
            assert(counts@[t as int] == task.spec_counts()[t as int]);
            lemma_occ_nonneg(tops.take(k as int), t as int);
            lemma_occ_take_skip(tops, k as int, t as int);
            assert(tops.skip(k as int)[0] == tops[k as int]);
            assert(tops.skip(k as int) =~= seq![tops[k as int]] + tops.skip(k as int + 1));
            lemma_occ_cons(tops[k as int], tops.skip(k as int + 1), t as int);
            lemma_occ_nonneg(tops.skip(k as int + 1), t as int);
            assert(occ(tops, t as int) == counts@[t as int]);
            assert(i == occ(tops.take(k as int), t as int));
            assert(i == nextg[t as int]);
            assert((i as int) < counts@[t as int]);
            assert(counts@[t as int] == progs[t as int].ops@.len());
        }
        let op = task.programs[t].ops[i];
        let ghost pre = st@;
        let ghost rest = tops.skip(k as int);
        match st.store.apply(&op) {
            Err(e) => {
                proof {
                    assert(rest.len() > 0);
                    assert(rest[0] == t);
                    assert(progs[t as int].ops@[nextg[t as int] as int] == op);
                    assert(spec_apply(pre.cells, op) is None);
                    assert(spec_run(progs, pre, nextg, rest) == Err::<StateModel, VerifierError>(
                        VerifierError::UnknownCell,
                    ));
                    assert(valid_interleaving(il@, task.spec_counts()));
                }
                return Err(e);
            },
            Ok((_value, res)) => {
                let ghost mid_cells = st.store@;
                proof {
                    assert(spec_apply(pre.cells, op) == Some((mid_cells, res)));
                }
                st.bindings[t][i] = res;
                proof {
                    let t_ = t as int;
                    let i_ = i as int;
                    assert(st@.bindings =~~= pre.bindings.update(
                        t_,
                        pre.bindings[t_].update(i_, res),
                    ));
                    let stepped = StateModel {
                        cells: mid_cells,
                        bindings: pre.bindings.update(t_, pre.bindings[t_].update(i_, res)),
                    };
                    assert(st@ =~~= stepped);
                    assert(rest.drop_first() =~= tops.skip(k as int + 1));
                    assert(spec_run(progs, pre, nextg, rest) == spec_run(
                        progs,
                        stepped,
                        nextg.update(t_, (nextg[t_] + 1) as usize),
                        tops.skip(k as int + 1),
                    ));
                    nextg = nextg.update(t_, (i + 1) as usize);
                    assert(tops.take(k as int + 1) =~= tops.take(k as int).push(tops[k as int]));
                    assert forall|tt: int| 0 <= tt < nthreads implies #[trigger] nextg[tt] == occ(
                        tops.take(k as int + 1),
                        tt,
                    ) by {
                        lemma_occ_push(tops.take(k as int), tops[k as int], tt);
                    }
                }
                k = k + 1;
            },
        }
    }
    proof {
        assert(tops.skip(n as int) =~= Seq::<usize>::empty());
        assert(spec_run(progs, st@, nextg, tops.skip(n as int)) == Ok::<
            StateModel,
            VerifierError,
        >(st@));
        assert(valid_interleaving(il@, task.spec_counts()));
    }
    Ok(st)
}

} // verus!
