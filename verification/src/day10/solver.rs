//! The calls into the `z3` crate that the joltage solver makes.
//!
//! Nothing here is proved. The values are opaque, and no contract states what
//! a term means or what the optimizer found: what comes back is tested by
//! verified code before it is used.

use vstd::prelude::*;

verus! {

/// `z3::Optimize`, an optimizing solver. Opaque.
#[verifier::external_type_specification]
#[verifier::external_body]
pub struct ExOptimize(z3::Optimize);

/// `z3::Model`, the values that a solver found. Opaque.
#[verifier::external_type_specification]
#[verifier::external_body]
pub struct ExModel(z3::Model);

/// `z3::Params`, a set of parameters for a solver. Opaque.
#[verifier::external_type_specification]
#[verifier::external_body]
pub struct ExParams(z3::Params);

/// Holds a `z3::ast::Int`, an integer term. Opaque: Verus does not take the declaration of
/// the type itself, whose comparison impls it cannot resolve.
#[verifier::external_body]
pub(crate) struct IntTerm {
    inner: z3::ast::Int,
}

/// Holds a `z3::ast::Bool`, a boolean term. Opaque, for the same reason.
#[verifier::external_body]
pub(crate) struct BoolTerm {
    inner: z3::ast::Bool,
}

/// How a check of the optimizer ended.
#[derive(Debug, Clone, Copy, PartialEq, Eq, Structural)]
pub enum SolverStatus {
    /// No values meet the constraints.
    Unsat,
    /// The solver was interrupted, ran out of time or failed otherwise.
    Unknown,
    /// Values that meet the constraints were found.
    Sat,
}

/// Calls `z3::Optimize::new`. Nothing is claimed of the optimizer that it makes.
#[verifier::external_body]
pub(crate) fn new_optimizer() -> z3::Optimize {
    z3::Optimize::new()
}

/// Calls `z3::Params::new`. Nothing is claimed of the parameters that it makes.
#[verifier::external_body]
pub(crate) fn new_params() -> z3::Params {
    z3::Params::new()
}

/// Calls `z3::Params::set_u32` with the key `timeout`, which Z3 reads as a number of
/// milliseconds.
#[verifier::external_body]
pub(crate) fn set_timeout(params: &mut z3::Params, millis: u32) {
    params.set_u32("timeout", millis)
}

/// Calls `z3::Optimize::set_params`.
#[verifier::external_body]
pub(crate) fn apply_params(optimizer: &z3::Optimize, params: &z3::Params) {
    optimizer.set_params(params)
}

/// Calls `z3::ast::Int::fresh_const` with a prefix made of `idx`. Nothing is claimed of the
/// term that it makes.
#[verifier::external_body]
pub(crate) fn fresh_unknown(idx: usize) -> IntTerm {
    IntTerm { inner: z3::ast::Int::fresh_const(&format!("presses_{idx}")) }
}

/// Calls `z3::ast::Int::from_u64`. Nothing is claimed of the term that it makes.
#[verifier::external_body]
pub(crate) fn int_const(value: u64) -> IntTerm {
    IntTerm { inner: z3::ast::Int::from_u64(value) }
}

/// Calls `z3::ast::Int::add` on `terms`. The crate asserts that there are at most
/// 0xffff_ffff terms, and Z3 wants one at least: both are asked of the caller. Nothing is
/// claimed of the term that it makes.
#[verifier::external_body]
pub(crate) fn int_sum(terms: &Vec<&IntTerm>) -> IntTerm
    requires
        0 < terms.len() <= 0xffff_ffff,
{
    let inner: Vec<&z3::ast::Int> = terms.iter().map(|t| &t.inner).collect();
    IntTerm { inner: z3::ast::Int::add(&inner) }
}

/// Calls `z3::ast::Int::ge` with a number on the right. Nothing is claimed of the term that
/// it makes.
#[verifier::external_body]
pub(crate) fn int_at_least(term: &IntTerm, bound: u64) -> BoolTerm {
    BoolTerm { inner: term.inner.ge(bound) }
}

/// Calls `z3::ast::Int::eq`, which builds an equation of two integer terms and fails on no
/// such pair. Nothing is claimed of the term that it makes.
#[verifier::external_body]
pub(crate) fn int_equals(left: &IntTerm, right: &IntTerm) -> BoolTerm {
    BoolTerm { inner: left.inner.eq(&right.inner) }
}

/// Calls `z3::Optimize::assert`.
#[verifier::external_body]
pub(crate) fn add_constraint(optimizer: &z3::Optimize, constraint: &BoolTerm) {
    optimizer.assert(&constraint.inner)
}

/// Calls `z3::Optimize::minimize`, which accepts any integer term.
#[verifier::external_body]
pub(crate) fn set_objective(optimizer: &z3::Optimize, objective: &IntTerm) {
    optimizer.minimize(&objective.inner)
}

/// Calls `z3::Optimize::check` without assumptions and hands its verdict on. Nothing is
/// claimed of which verdict comes.
#[verifier::external_body]
pub(crate) fn run_check(optimizer: &z3::Optimize) -> SolverStatus {
    match optimizer.check(&[]) {
        z3::SatResult::Unsat => SolverStatus::Unsat,
        z3::SatResult::Unknown => SolverStatus::Unknown,
        z3::SatResult::Sat => SolverStatus::Sat,
    }
}

/// Calls `z3::Optimize::get_model`. Nothing is claimed of whether there is a model.
#[verifier::external_body]
pub(crate) fn read_model(optimizer: &z3::Optimize) -> Option<z3::Model> {
    optimizer.get_model()
}

/// Calls `z3::Model::eval` with model completion. Nothing is claimed of the result.
#[verifier::external_body]
pub(crate) fn evaluate(model: &z3::Model, term: &IntTerm) -> Option<IntTerm> {
    model.eval(&term.inner, true).map(|inner| IntTerm { inner })
}

/// Calls `z3::ast::Int::as_u64`. Nothing is claimed of the result.
#[verifier::external_body]
pub(crate) fn int_value(term: &IntTerm) -> Option<u64> {
    term.inner.as_u64()
}

} // verus!
