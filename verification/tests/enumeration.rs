//! The enumerator produces every program-order-respecting interleaving
//! exactly once.

use interleaver::enumerate::enumerate_orders;
use interleaver::interleave::interleaving_of_order;

fn factorial(n: usize) -> usize {
    let mut r: usize = 1;
    for k in 2..=n {
        r *= k;
    }
    r
}

fn assert_all_distinct(orders: &Vec<Vec<usize>>) {
    for i in 0..orders.len() {
        for j in (i + 1)..orders.len() {
            assert_ne!(orders[i], orders[j], "orders {} and {} coincide", i, j);
        }
    }
}

#[test]
fn two_singleton_threads_yield_two_interleavings() {
    let orders = enumerate_orders(&vec![1, 1]);
    assert_eq!(orders.len(), 2);
    assert_all_distinct(&orders);
    assert!(orders.contains(&vec![0, 1]));
    assert!(orders.contains(&vec![1, 0]));
}

#[test]
fn counts_two_one_yield_three_interleavings() {
    // (2 + 1)! / (2! * 1!) = 3
    let orders = enumerate_orders(&vec![2, 1]);
    assert_eq!(orders.len(), 3);
    assert_all_distinct(&orders);
    assert!(orders.contains(&vec![0, 0, 1]));
    assert!(orders.contains(&vec![0, 1, 0]));
    assert!(orders.contains(&vec![1, 0, 0]));
}

#[test]
fn three_singleton_threads_yield_all_permutations() {
    let orders = enumerate_orders(&vec![1, 1, 1]);
    assert_eq!(orders.len(), factorial(3));
    assert_all_distinct(&orders);
}

#[test]
fn four_singleton_threads_yield_all_permutations() {
    let orders = enumerate_orders(&vec![1, 1, 1, 1]);
    assert_eq!(orders.len(), factorial(4));
    assert_all_distinct(&orders);
}

#[test]
fn multinomial_count_for_mixed_lengths() {
    // (2 + 2)! / (2! * 2!) = 6
    let orders = enumerate_orders(&vec![2, 2]);
    assert_eq!(orders.len(), 6);
    assert_all_distinct(&orders);
    // every order schedules each thread exactly its count of times
    for o in &orders {
        assert_eq!(o.iter().filter(|&&t| t == 0).count(), 2);
        assert_eq!(o.iter().filter(|&&t| t == 1).count(), 2);
    }
}

#[test]
fn one_thread_has_one_interleaving() {
    let orders = enumerate_orders(&vec![3]);
    assert_eq!(orders.len(), 1);
    assert_eq!(orders[0], vec![0, 0, 0]);
}

#[test]
fn no_threads_have_the_empty_interleaving() {
    let orders = enumerate_orders(&vec![]);
    assert_eq!(orders.len(), 1);
    assert_eq!(orders[0], Vec::<usize>::new());
}

#[test]
fn pairs_carry_per_thread_operation_indices() {
    let il = interleaving_of_order(&vec![0, 1, 0, 1], 2);
    assert_eq!(il.steps, vec![(0, 0), (1, 0), (0, 1), (1, 1)]);
}
