//! The assertion checker: a pure predicate over a replay's final state.

use vstd::prelude::*;
use crate::errors::VerifierError;
use crate::ops::OpResult;
use crate::state::{ExecutionState, StateModel};

verus! {

/// A value read out of an execution state.
#[derive(Clone, Copy, Debug, PartialEq, Eq, Structural)]
pub enum Expr {
    /// A constant.
    Const(u64),
    /// The final value of the named cell.
    CellValue(usize),
    /// What operation `index` of thread `thread` handed back: the value a
    /// read or fetch-add returned, or the pre-swap value of a
    /// compare-and-swap.  Unbound if the operation produced no value.
    Binding { thread: usize, index: usize },
}

/// A predicate over a final execution state.  Evaluation is side-effect
/// free; referencing a value no operation produced is reported as an
/// unbound-binding failure, distinct from the predicate being false.
#[derive(Debug, PartialEq, Eq)]
pub enum Assertion {
    /// The two values are equal.
    Eq(Expr, Expr),
    /// The left value is at most the right value.
    Le(Expr, Expr),
    /// The inner predicate is false.
    Not(Box<Assertion>),
    /// Both predicates hold.
    And(Box<Assertion>, Box<Assertion>),
    /// The named compare-and-swap operation performed its swap.
    CasSucceeded { thread: usize, index: usize },
}

/// What an expression evaluates to, or nothing when it references a value
/// no operation produced.
pub open spec fn eval_expr(e: Expr, st: StateModel) -> Option<u64> {
    match e {
        Expr::Const(v) => Some(v),
        Expr::CellValue(c) => {
            if c < st.cells.len() {
                Some(st.cells[c as int].value)
            } else {
                None
            }
        },
        Expr::Binding { thread, index } => {
            if thread < st.bindings.len() && index < st.bindings[thread as int].len() {
                match st.bindings[thread as int][index as int] {
                    OpResult::NoValue => None,
                    OpResult::Value(v) => Some(v),
                    OpResult::CasOutcome { previous, .. } => Some(previous),
                }
            } else {
                None
            }
        },
    }
}

/// What an assertion evaluates to, or nothing when any part of it
/// references a value no operation produced.
pub open spec fn eval_assertion(a: Assertion, st: StateModel) -> Option<bool>
    decreases a,
{
    match a {
        Assertion::Eq(x, y) => {
            match (eval_expr(x, st), eval_expr(y, st)) {
                (Some(u), Some(v)) => Some(u == v),
                _ => None,
            }
        },
        Assertion::Le(x, y) => {
            match (eval_expr(x, st), eval_expr(y, st)) {
                (Some(u), Some(v)) => Some(u <= v),
                _ => None,
            }
        },
        Assertion::Not(inner) => {
            match eval_assertion(*inner, st) {
                Some(b) => Some(!b),
                None => None,
            }
        },
        Assertion::And(x, y) => {
            match (eval_assertion(*x, st), eval_assertion(*y, st)) {
                (Some(u), Some(v)) => Some(u && v),
                _ => None,
            }
        },
        Assertion::CasSucceeded { thread, index } => {
            if thread < st.bindings.len() && index < st.bindings[thread as int].len() {
                match st.bindings[thread as int][index as int] {
                    OpResult::CasOutcome { swapped, .. } => Some(swapped),
                    _ => None,
                }
            } else {
                None
            }
        },
    }
}

/// Evaluates an expression against a state.
fn run_expr(e: &Expr, st: &ExecutionState) -> (r: Result<u64, VerifierError>)
    ensures
        match eval_expr(*e, st@) {
            Some(v) => r == Ok::<u64, VerifierError>(v),
            None => r == Err::<u64, VerifierError>(VerifierError::UnboundBinding),
        },
{
    match e {
        Expr::Const(v) => Ok(*v),
        Expr::CellValue(c) => {
            if *c < st.store.cells.len() {
                Ok(st.store.cells[*c].value)
            } else {
                Err(VerifierError::UnboundBinding)
            }
        },
        Expr::Binding { thread, index } => {
            if *thread < st.bindings.len() && *index < st.bindings[*thread].len() {
                match st.bindings[*thread][*index] {
                    OpResult::NoValue => Err(VerifierError::UnboundBinding),
                    OpResult::Value(v) => Ok(v),
                    OpResult::CasOutcome { previous, .. } => Ok(previous),
                }
            } else {
                Err(VerifierError::UnboundBinding)
            }
        },
    }
}

/// Evaluates the target predicate against a final execution state.  Returns
/// exactly what the predicate's mathematical evaluation yields, and reports
/// `UnboundBinding` exactly when that evaluation hits a value no operation
/// produced.
pub fn check_assertion(a: &Assertion, st: &ExecutionState) -> (r: Result<bool, VerifierError>)
    ensures
        match eval_assertion(*a, st@) {
            Some(b) => r == Ok::<bool, VerifierError>(b),
            None => r == Err::<bool, VerifierError>(VerifierError::UnboundBinding),
        },
    decreases *a,
{
    match a {
        Assertion::Eq(x, y) => {
            let u = run_expr(x, st)?;
            let v = run_expr(y, st)?;
            Ok(u == v)
        },
        Assertion::Le(x, y) => {
            let u = run_expr(x, st)?;
            let v = run_expr(y, st)?;
            Ok(u <= v)
        },
        Assertion::Not(inner) => {
            let b = check_assertion(inner, st)?;
            Ok(!b)
        },
        Assertion::And(x, y) => {
            let u = check_assertion(x, st)?;
            let v = check_assertion(y, st)?;
            Ok(u && v)
        },
        Assertion::CasSucceeded { thread, index } => {
            if *thread < st.bindings.len() && *index < st.bindings[*thread].len() {
                match st.bindings[*thread][*index] {
                    OpResult::CasOutcome { swapped, .. } => Ok(swapped),
                    _ => Err(VerifierError::UnboundBinding),
                }
            } else {
                Err(VerifierError::UnboundBinding)
            }
        },
    }
}

} // verus!
