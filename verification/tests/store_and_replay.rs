//! Store semantics, replay determinism, and the shared-handle reading demo.

use interleaver::crux_test;
use interleaver::errors::VerifierError;
use interleaver::interleave::{interleaving_of_order, Interleaving};
use interleaver::ops::{OpResult, Operation, Width};
use interleaver::replay::replay;
use interleaver::scenarios::fetch_add_task;
use interleaver::store::Store;

#[test]
fn shared_handles_read_the_same_value() {
    assert_eq!(crux_test(), 2);
}

#[test]
fn read_returns_current_value() {
    let mut store = Store::new();
    let id = store.create(Width::W16, 42);
    let (new_value, returned) = store.apply(&Operation::Read { cell: id }).unwrap();
    assert_eq!(new_value, 42);
    assert_eq!(returned, OpResult::Value(42));
}

#[test]
fn write_sets_and_returns_no_value() {
    let mut store = Store::new();
    let id = store.create(Width::W16, 0);
    let (new_value, returned) = store.apply(&Operation::Write { cell: id, value: 7 }).unwrap();
    assert_eq!(new_value, 7);
    assert_eq!(returned, OpResult::NoValue);
}

#[test]
fn fetch_add_returns_the_pre_update_value() {
    let mut store = Store::new();
    let id = store.create(Width::W16, 10);
    let (new_value, returned) = store.apply(&Operation::FetchAdd { cell: id, delta: 5 }).unwrap();
    assert_eq!(new_value, 15);
    assert_eq!(returned, OpResult::Value(10));
}

#[test]
fn fetch_add_wraps_at_the_declared_width() {
    let mut store = Store::new();
    let id = store.create(Width::W16, 65535);
    let (new_value, returned) = store.apply(&Operation::FetchAdd { cell: id, delta: 1 }).unwrap();
    assert_eq!(new_value, 0);
    assert_eq!(returned, OpResult::Value(65535));

    let narrow = store.create(Width::W8, 250);
    let (wrapped, observed) = store
        .apply(&Operation::FetchAdd { cell: narrow, delta: 10 })
        .unwrap();
    assert_eq!(wrapped, 4); // (250 + 10) mod 256
    assert_eq!(observed, OpResult::Value(250));
}

#[test]
fn compare_and_swap_swaps_only_on_match() {
    let mut store = Store::new();
    let id = store.create(Width::W32, 5);
    let (v1, r1) = store
        .apply(&Operation::CompareAndSwap { cell: id, expected: 4, new: 9 })
        .unwrap();
    assert_eq!(v1, 5);
    assert_eq!(r1, OpResult::CasOutcome { swapped: false, previous: 5 });
    let (v2, r2) = store
        .apply(&Operation::CompareAndSwap { cell: id, expected: 5, new: 9 })
        .unwrap();
    assert_eq!(v2, 9);
    assert_eq!(r2, OpResult::CasOutcome { swapped: true, previous: 5 });
}

#[test]
fn errors_describe_themselves() {
    assert_eq!(
        VerifierError::UnknownCell.describe(),
        "operation references a cell never created"
    );
    assert_eq!(
        VerifierError::MalformedInterleaving.describe(),
        "interleaving breaks program order"
    );
    assert_eq!(
        VerifierError::UnboundBinding.describe(),
        "assertion references an unbound value"
    );
}

#[test]
fn unknown_cell_fails_apply() {
    let mut store = Store::new();
    store.create(Width::W16, 0);
    assert_eq!(
        store.apply(&Operation::Read { cell: 3 }),
        Err(VerifierError::UnknownCell)
    );
}

#[test]
fn replaying_the_same_interleaving_twice_gives_identical_states() {
    let task = fetch_add_task(&vec![4, 9, 1], Width::W16, 2, 16);
    let il = interleaving_of_order(&vec![2, 0, 1], 3);
    let first = replay(&task, &il).unwrap();
    let second = replay(&task, &il).unwrap();
    assert_eq!(first, second);
    assert_eq!(first.store.cells[0].value, 16);
}

#[test]
fn replay_records_bindings_in_program_order() {
    let task = fetch_add_task(&vec![4, 9], Width::W16, 0, 13);
    let il = interleaving_of_order(&vec![1, 0], 2);
    let state = replay(&task, &il).unwrap();
    // thread 1 went first and observed 0; thread 0 then observed 9
    assert_eq!(state.bindings[1][0], OpResult::Value(0));
    assert_eq!(state.bindings[0][0], OpResult::Value(9));
}

#[test]
fn malformed_interleaving_is_rejected() {
    let task = fetch_add_task(&vec![1, 2], Width::W16, 0, 3);
    // wrong operation index for the second step of thread 0
    let il = Interleaving { steps: vec![(0, 0), (1, 1)] };
    assert_eq!(replay(&task, &il), Err(VerifierError::MalformedInterleaving));
    // a thread scheduled more often than it has operations
    let il2 = Interleaving { steps: vec![(0, 0), (0, 1)] };
    assert_eq!(replay(&task, &il2), Err(VerifierError::MalformedInterleaving));
    // an unknown thread identity
    let il3 = Interleaving { steps: vec![(2, 0), (0, 0)] };
    assert_eq!(replay(&task, &il3), Err(VerifierError::MalformedInterleaving));
    // not every operation scheduled
    let il4 = Interleaving { steps: vec![(0, 0)] };
    assert_eq!(replay(&task, &il4), Err(VerifierError::MalformedInterleaving));
}

#[test]
fn replay_resets_cells_to_their_initial_values() {
    let task = fetch_add_task(&vec![3], Width::W16, 70000, 4);
    // the initial value itself is reduced to the declared width:
    // 70000 mod 65536 = 4464, then + 3
    let il = interleaving_of_order(&vec![0], 1);
    let state = replay(&task, &il).unwrap();
    assert_eq!(state.store.cells[0].value, 4467);
}
