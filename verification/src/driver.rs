//! The verifier driver: enumerate, replay, check, aggregate.
//!
//! The driver replays the enumerated interleavings one at a time and stops
//! at the first that fails the assertion, returning it together with the
//! offending state as a counterexample.  `Proven` is returned only after
//! every interleaving has been checked; a budget that runs out first yields
//! `Inconclusive`, never `Proven`.

use vstd::prelude::*;
use crate::checker::{check_assertion, eval_assertion};
use crate::enumerate::{
    enumerate_orders, interleavings_of, lemma_enumeration_sound, order_views,
};
use crate::errors::VerifierError;
use crate::interleave::{
    interleaving_of_order, is_shuffle, lemma_pairs_of_valid, pairs_of, threads_of,
    valid_interleaving, Interleaving,
};
use crate::program::VerificationTask;
use crate::replay::{replay, replay_order, spec_replay};
use crate::state::{ExecutionState, StateModel};

verus! {

/// The outcome of one driver invocation.
#[derive(Debug)]
pub enum VerificationResult {
    /// Every interleaving satisfied the assertion.
    Proven,
    /// The first interleaving, in enumeration order, whose final state
    /// falsifies the assertion, together with that state.
    Violated { interleaving: Interleaving, state: ExecutionState },
    /// The budget ran out after `explored` replays with no failure found.
    /// Not a pass: the remaining interleavings were never checked.
    Inconclusive { explored: usize },
}

/// The interleaving `s` replays without error and satisfies the assertion.
pub open spec fn passes(task: VerificationTask, s: Seq<usize>) -> bool {
    match replay_order(task, s) {
        Ok(st) => eval_assertion(task.assertion, st) == Some(true),
        Err(_) => false,
    }
}

/// Replays every interleaving of the task's programs, up to `budget` of
/// them, checking the task's assertion against each final state.
///
/// Returns the outcome together with the number of replays performed.  On
/// `Violated` the counterexample is the first failing interleaving in
/// enumeration order and exactly `failure index + 1` replays were made; on
/// `Proven` every interleaving was checked.  An error is reported from the
/// first interleaving whose replay or check fails, never downgraded.
pub fn verify_with_budget(task: &VerificationTask, budget: usize) -> (r: (
    Result<VerificationResult, VerifierError>,
    usize,
))
    ensures
        interleavings_of(task.spec_counts()).len() <= usize::MAX,
        ({
            let ils = interleavings_of(task.spec_counts());
            let limit = if budget < ils.len() {
                budget as int
            } else {
                ils.len() as int
            };
            match r.0 {
                Ok(VerificationResult::Proven) => {
                    &&& budget >= ils.len()
                    &&& r.1 == ils.len()
                    &&& forall|k: int| 0 <= k < ils.len() ==> #[trigger] passes(*task, ils[k])
                },
                Ok(VerificationResult::Violated { interleaving, state }) => {
                    let k = r.1 - 1;
                    &&& 0 <= k < limit
                    &&& forall|j: int| 0 <= j < k ==> #[trigger] passes(*task, ils[j])
                    &&& interleaving@ == pairs_of(ils[k])
                    &&& valid_interleaving(interleaving@, task.spec_counts())
                    &&& replay_order(*task, ils[k]) == Ok::<StateModel, VerifierError>(state@)
                    &&& eval_assertion(task.assertion, state@) == Some(false)
                },
                Ok(VerificationResult::Inconclusive { explored }) => {
                    &&& budget < ils.len()
                    &&& explored == budget
                    &&& r.1 == budget
                    &&& forall|j: int| 0 <= j < budget ==> #[trigger] passes(*task, ils[j])
                },
                Err(e) => {
                    let k = r.1 - 1;
                    &&& 0 <= k < limit
                    &&& forall|j: int| 0 <= j < k ==> #[trigger] passes(*task, ils[j])
                    &&& match replay_order(*task, ils[k]) {
                        Err(e2) => e == e2,
                        Ok(st) => eval_assertion(task.assertion, st) is None && e
                            == VerifierError::UnboundBinding,
                    }
                },
            }
        }),
{
    let counts = task.counts();
    let orders = enumerate_orders(&counts);
    let ghost ils = interleavings_of(task.spec_counts());
    proof {
        lemma_enumeration_sound(counts@);
        assert(order_views(orders@).len() == ils.len());
    }
    let total = orders.len();
    let nthreads = counts.len();
    let limit = if budget < total {
        budget
    } else {
        total
    };
    let mut k: usize = 0;
    while k < limit
        invariant
            k <= limit,
            limit == if budget < total {
                budget as int
            } else {
                total as int
            },
            total == orders@.len(),
            order_views(orders@) == ils,
            ils == interleavings_of(task.spec_counts()),
            counts@ == task.spec_counts(),
            nthreads == counts@.len(),
            forall|x: Seq<usize>| #[trigger] ils.contains(x) ==> is_shuffle(x, counts@),
            forall|j: int| 0 <= j < k ==> #[trigger] passes(*task, ils[j]),
        decreases limit - k,
    {
        proof {
            assert(ils[k as int] == orders@[k as int]@);
            assert(ils.contains(ils[k as int]));
            assert(is_shuffle(orders@[k as int]@, counts@));
        }
        let il = interleaving_of_order(&orders[k], nthreads);
        proof {
            lemma_pairs_of_valid(orders@[k as int]@, counts@);
            assert(threads_of(il@) == orders@[k as int]@);
        }
        match replay(task, &il) {
            Err(e) => {
                proof {
                    assert(spec_replay(*task, il@) == Err::<StateModel, VerifierError>(e));
                    assert(replay_order(*task, ils[k as int]) == Err::<
                        StateModel,
                        VerifierError,
                    >(e));
                }
                return (Err(e), k + 1);
            },
            Ok(st) => {
                proof {
                    assert(spec_replay(*task, il@) == Ok::<StateModel, VerifierError>(st@));
                    assert(replay_order(*task, ils[k as int]) == Ok::<
                        StateModel,
                        VerifierError,
                    >(st@));
                }
                match check_assertion(&task.assertion, &st) {
                    Err(e) => {
                        return (Err(e), k + 1);
                    },
                    Ok(holds) => {
                        if !holds {
                            return (
                                (Ok(VerificationResult::Violated { interleaving: il, state: st })),
                                k + 1,
                            );
                        }
                    },
                }
            },
        }
        k = k + 1;
    }
    if budget >= total {
        (Ok(VerificationResult::Proven), total)
    } else {
        (Ok(VerificationResult::Inconclusive { explored: budget }), budget)
    }
}

/// Replays every interleaving of the task's programs with no budget,
/// checking the task's assertion against each final state: `Proven` exactly
/// when every interleaving passes, otherwise the first counterexample or the
/// first error, exactly as [`verify_with_budget`] reports them.
pub fn verify(task: &VerificationTask) -> (r: Result<VerificationResult, VerifierError>)
    ensures
        ({
            let ils = interleavings_of(task.spec_counts());
            match r {
                Ok(VerificationResult::Proven) => forall|k: int|
                    0 <= k < ils.len() ==> #[trigger] passes(*task, ils[k]),
                Ok(VerificationResult::Violated { interleaving, state }) => {
                    &&& exists|k: int|
                        {
                            &&& 0 <= k < ils.len()
                            &&& (forall|j: int| 0 <= j < k ==> #[trigger] passes(*task, ils[j]))
                            &&& interleaving@ == pairs_of(#[trigger] ils[k])
                            &&& replay_order(*task, ils[k]) == Ok::<StateModel, VerifierError>(
                                state@,
                            )
                        }
                    &&& valid_interleaving(interleaving@, task.spec_counts())
                    &&& eval_assertion(task.assertion, state@) == Some(false)
                },
                Ok(VerificationResult::Inconclusive { .. }) => false,
                Err(e) => exists|k: int|
                    {
                        &&& 0 <= k < ils.len()
                        &&& (forall|j: int| 0 <= j < k ==> #[trigger] passes(*task, ils[j]))
                        &&& match replay_order(*task, #[trigger] ils[k]) {
                            Err(e2) => e == e2,
                            Ok(st) => eval_assertion(task.assertion, st) is None && e
                                == VerifierError::UnboundBinding,
                        }
                    },
            }
        }),
{
    let (outcome, replays) = verify_with_budget(task, usize::MAX);
    proof {
        let ils = interleavings_of(task.spec_counts());
        match &outcome {
            Ok(VerificationResult::Violated { interleaving, state }) => {
                let k = replays - 1;
                assert(0 <= k < ils.len());
                assert({
                    &&& (forall|j: int| 0 <= j < k ==> #[trigger] passes(*task, ils[j]))
                    &&& interleaving@ == pairs_of(ils[k])
                    &&& replay_order(*task, ils[k]) == Ok::<StateModel, VerifierError>(state@)
                });
            },
            Err(e) => {
                let k = replays - 1;
                assert(0 <= k < ils.len());
            },
            _ => {},
        }
    }
    outcome
}

} // verus!
