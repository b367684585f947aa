//! What to make of a solver's answers.
//!
//! The solver itself runs elsewhere. This module decides what happens to a
//! cycle after an attempt to solve it failed, and keeps the settings that an
//! attempt is bounded by.

use vstd::prelude::*;
use crate::pool::ArbError;

verus! {

/// Why a solver returned no solution.
#[derive(Clone, Copy, Debug, PartialEq, Eq, Structural)]
pub enum SolverFailure {
    /// No vector satisfies the constraints.
    Infeasible,
    /// The objective has no upper bound over the constraints.
    Unbounded,
    /// The solver broke down numerically.
    NumericalFailure,
    /// The solver reached its iteration cap before its tolerance.
    IterationLimitExceeded,
}

/// What bounds one attempt to solve: an iteration cap, and a tolerance of
/// ten to the power of minus `tolerance_digits`.
#[derive(Clone, Copy, Debug, PartialEq, Eq, Structural)]
pub struct SolverSettings {
    pub max_iterations: u64,
    pub tolerance_digits: u8,
}

/// What happens to a cycle after a failed attempt.
#[derive(Clone, Copy, Debug, PartialEq, Eq, Structural)]
pub enum Step {
    /// Solve once more, with the given settings.
    Retry(SolverSettings),
    /// Leave the cycle out and report the error.
    Skip(ArbError),
}

/// By how many digits a retry relaxes the tolerance.
pub const RELAXED_DIGITS: u8 = 3;

/// The error under which a solver failure is reported: an infeasible system
/// means that the cycle holds no arbitrage; everything else counts as not
/// having converged.
pub open spec fn reported_as(failure: SolverFailure) -> ArbError {
    match failure {
        SolverFailure::Infeasible => ArbError::InfeasibleConstraints,
        _ => ArbError::NumericalNonConvergence,
    }
}

/// The settings of a retry: the same iteration cap and a tolerance that is
/// three digits coarser, but never coarser than one.
pub open spec fn relaxed(settings: SolverSettings) -> SolverSettings {
    SolverSettings {
        max_iterations: settings.max_iterations,
        tolerance_digits: if settings.tolerance_digits >= RELAXED_DIGITS {
            (settings.tolerance_digits - RELAXED_DIGITS) as u8
        } else {
            0
        },
    }
}

/// A failure that a coarser tolerance may cure.
pub open spec fn curable(failure: SolverFailure) -> bool {
    failure is NumericalFailure || failure is IterationLimitExceeded
}

/// Decides what happens to a cycle whose solve failed. A numerical failure
/// or an exhausted iteration cap is retried with relaxed settings if retries
/// are allowed and this was the first attempt; every other failure, and
/// every failure of a retry, leaves the cycle out under the error that the
/// failure is reported as. The search as a whole goes on either way.
pub fn after_failure(
    failure: SolverFailure,
    settings: SolverSettings,
    attempts: u32,
    allow_retry: bool,
) -> (step: Step)
    ensures
        step == (if curable(failure) && allow_retry && attempts <= 1 {
            Step::Retry(relaxed(settings))
        } else {
            Step::Skip(reported_as(failure))
        }),
{
    let curable = match failure {
        SolverFailure::NumericalFailure => true,
        SolverFailure::IterationLimitExceeded => true,
        _ => false,
    };
    if curable && allow_retry && attempts <= 1 {
        let digits = if settings.tolerance_digits >= RELAXED_DIGITS {
            settings.tolerance_digits - RELAXED_DIGITS
        } else {
            0
        };
        Step::Retry(
            SolverSettings { max_iterations: settings.max_iterations, tolerance_digits: digits },
        )
    } else {
        match failure {
            SolverFailure::Infeasible => Step::Skip(ArbError::InfeasibleConstraints),
            _ => Step::Skip(ArbError::NumericalNonConvergence),
        }
    }
}

} // verus!
