//! Driver behaviour: exhaustive proof, counterexamples, early exit, budgets.

use interleaver::checker::{check_assertion, Assertion, Expr};
use interleaver::driver::{verify, verify_with_budget, VerificationResult};
use interleaver::errors::VerifierError;
use interleaver::ops::{Operation, Width};
use interleaver::program::VerificationTask;
use interleaver::replay::replay;
use interleaver::scenarios::fetch_add_task;
use interleaver::store::CellInit;

/// Two threads, each doing a read followed by a write of its own constant:
/// non-atomically composed, so the naive "final value equals the sum of the
/// writes" invariant is racy.
fn racy_read_write_task() -> VerificationTask {
    let mut task = VerificationTask::new(
        vec![CellInit { width: Width::W16, initial: 0 }],
        Assertion::Eq(Expr::CellValue(0), Expr::Const(3)),
    );
    task.add_thread(vec![
        Operation::Read { cell: 0 },
        Operation::Write { cell: 0, value: 1 },
    ]);
    task.add_thread(vec![
        Operation::Read { cell: 0 },
        Operation::Write { cell: 0, value: 2 },
    ]);
    task
}

/// Two threads race a compare-and-swap from 0; the assertion claims the
/// first thread's swap always wins, which only some interleavings satisfy.
fn cas_race_task(expected: u64) -> VerificationTask {
    let mut task = VerificationTask::new(
        vec![CellInit { width: Width::W16, initial: 0 }],
        Assertion::Eq(Expr::CellValue(0), Expr::Const(expected)),
    );
    task.add_thread(vec![Operation::CompareAndSwap { cell: 0, expected: 0, new: 1 }]);
    task.add_thread(vec![Operation::CompareAndSwap { cell: 0, expected: 0, new: 2 }]);
    task
}

#[test]
fn fetch_add_three_threads_proven() {
    // deltas 0, 1, 2 against a zero-initialized cell: 3 = 3*(3-1)/2
    let task = fetch_add_task(&vec![0, 1, 2], Width::W16, 0, 3);
    let (outcome, replays) = verify_with_budget(&task, usize::MAX);
    assert!(matches!(outcome, Ok(VerificationResult::Proven)));
    assert_eq!(replays, 6); // 3! interleavings, all checked
}

#[test]
fn fetch_add_four_threads_proven() {
    // deltas 0..4: expected total 6 = 4*(4-1)/2
    let task = fetch_add_task(&vec![0, 1, 2, 3], Width::W16, 0, 6);
    let (outcome, replays) = verify_with_budget(&task, usize::MAX);
    assert!(matches!(outcome, Ok(VerificationResult::Proven)));
    assert_eq!(replays, 24); // 4! interleavings, all checked
}

#[test]
fn fetch_add_total_wraps_at_the_cell_width() {
    // 200 + 100 wraps at the 8-bit width: (300 mod 256) = 44, in every order
    let task = fetch_add_task(&vec![200, 100], Width::W8, 0, 44);
    assert!(matches!(verify(&task), Ok(VerificationResult::Proven)));
}

#[test]
fn fetch_add_wrong_total_violated() {
    let task = fetch_add_task(&vec![0, 1, 2], Width::W16, 0, 4);
    let outcome = verify(&task);
    assert!(matches!(outcome, Ok(VerificationResult::Violated { .. })));
}

#[test]
fn racy_read_write_finds_counterexample() {
    let task = racy_read_write_task();
    match verify(&task) {
        Ok(VerificationResult::Violated { interleaving, state }) => {
            // the returned interleaving reproduces the violation when
            // replayed independently against a fresh store
            let replayed = replay(&task, &interleaving).expect("counterexample must replay");
            assert_eq!(replayed, state);
            assert_eq!(check_assertion(&task.assertion, &replayed), Ok(false));
        },
        other => panic!("expected a counterexample, got {:?}", other),
    }
}

#[test]
fn cas_race_counterexample_replays() {
    let task = cas_race_task(1);
    match verify(&task) {
        Ok(VerificationResult::Violated { interleaving, state }) => {
            // the second thread went first: its swap won
            assert_eq!(interleaving.steps, vec![(1, 0), (0, 0)]);
            let replayed = replay(&task, &interleaving).expect("counterexample must replay");
            assert_eq!(replayed, state);
            assert_eq!(replayed.store.cells[0].value, 2);
        },
        other => panic!("expected a counterexample, got {:?}", other),
    }
}

#[test]
fn driver_stops_at_first_failure() {
    // with expected == 2 the very first interleaving (thread 0 first) fails,
    // so exactly one replay happens although two interleavings exist
    let task = cas_race_task(2);
    let (outcome, replays) = verify_with_budget(&task, usize::MAX);
    assert!(matches!(outcome, Ok(VerificationResult::Violated { .. })));
    assert_eq!(replays, 1);
}

#[test]
fn driver_counts_replays_up_to_first_failure() {
    // with expected == 1 the first interleaving passes and the second fails:
    // replays performed == index of first failure + 1
    let task = cas_race_task(1);
    let (outcome, replays) = verify_with_budget(&task, usize::MAX);
    assert!(matches!(outcome, Ok(VerificationResult::Violated { .. })));
    assert_eq!(replays, 2);
}

#[test]
fn budget_smaller_than_total_is_inconclusive() {
    let task = fetch_add_task(&vec![0, 1, 2], Width::W16, 0, 3);
    // 6 interleavings in total; a budget of 3 must not be reported as proven
    let (outcome, replays) = verify_with_budget(&task, 3);
    match outcome {
        Ok(VerificationResult::Inconclusive { explored }) => {
            assert_eq!(explored, 3);
            assert_eq!(replays, 3);
        },
        other => panic!("expected an inconclusive outcome, got {:?}", other),
    }
}

#[test]
fn budget_zero_is_inconclusive() {
    let task = fetch_add_task(&vec![0, 1], Width::W16, 0, 1);
    let (outcome, replays) = verify_with_budget(&task, 0);
    assert!(matches!(outcome, Ok(VerificationResult::Inconclusive { explored: 0 })));
    assert_eq!(replays, 0);
}

#[test]
fn budget_exactly_total_is_proven() {
    let task = fetch_add_task(&vec![0, 1], Width::W16, 0, 1);
    let (outcome, replays) = verify_with_budget(&task, 2);
    assert!(matches!(outcome, Ok(VerificationResult::Proven)));
    assert_eq!(replays, 2);
}

#[test]
fn unknown_cell_is_reported() {
    let mut task = VerificationTask::new(
        vec![CellInit { width: Width::W16, initial: 0 }],
        Assertion::Eq(Expr::CellValue(0), Expr::Const(0)),
    );
    task.add_thread(vec![Operation::FetchAdd { cell: 7, delta: 1 }]);
    assert_eq!(verify(&task).unwrap_err(), VerifierError::UnknownCell);
}

#[test]
fn unbound_binding_is_reported() {
    // the assertion references what a write returned, but writes return
    // nothing: a checker failure, not an assertion violation
    let mut task = VerificationTask::new(
        vec![CellInit { width: Width::W16, initial: 0 }],
        Assertion::Eq(Expr::Binding { thread: 0, index: 0 }, Expr::Const(0)),
    );
    task.add_thread(vec![Operation::Write { cell: 0, value: 5 }]);
    assert_eq!(verify(&task).unwrap_err(), VerifierError::UnboundBinding);
}

#[test]
fn bindings_observe_fetch_add_order() {
    // one fetch-add per thread: some interleaving lets thread 1 observe 0,
    // so asserting "thread 1 observed a pre-value of at least 1" fails
    let mut task = VerificationTask::new(
        vec![CellInit { width: Width::W16, initial: 0 }],
        Assertion::Le(Expr::Const(1), Expr::Binding { thread: 1, index: 0 }),
    );
    task.add_thread(vec![Operation::FetchAdd { cell: 0, delta: 5 }]);
    task.add_thread(vec![Operation::FetchAdd { cell: 0, delta: 3 }]);
    assert!(matches!(verify(&task), Ok(VerificationResult::Violated { .. })));
}

#[test]
fn cas_succeeded_can_be_asserted() {
    // a single thread's compare-and-swap from the initial value always swaps
    let mut task = VerificationTask::new(
        vec![CellInit { width: Width::W16, initial: 0 }],
        Assertion::CasSucceeded { thread: 0, index: 0 },
    );
    task.add_thread(vec![Operation::CompareAndSwap { cell: 0, expected: 0, new: 9 }]);
    assert!(matches!(verify(&task), Ok(VerificationResult::Proven)));
}

#[test]
fn negated_assertion_flips_the_outcome() {
    let mut task = VerificationTask::new(
        vec![CellInit { width: Width::W16, initial: 0 }],
        Assertion::Not(Box::new(Assertion::Eq(Expr::CellValue(0), Expr::Const(1)))),
    );
    task.add_thread(vec![Operation::Write { cell: 0, value: 1 }]);
    assert!(matches!(verify(&task), Ok(VerificationResult::Violated { .. })));
}

#[test]
fn conjunction_requires_both_parts() {
    let mut task = VerificationTask::new(
        vec![CellInit { width: Width::W16, initial: 0 }],
        Assertion::And(
            Box::new(Assertion::Eq(Expr::CellValue(0), Expr::Const(4))),
            Box::new(Assertion::Le(Expr::Const(5), Expr::CellValue(0))),
        ),
    );
    task.add_thread(vec![Operation::Write { cell: 0, value: 4 }]);
    assert!(matches!(verify(&task), Ok(VerificationResult::Violated { .. })));
}
