use pool_arbitrage::pool::ArbError;
use pool_arbitrage::solver::after_failure;
use pool_arbitrage::solver::SolverFailure;
use pool_arbitrage::solver::SolverSettings;
use pool_arbitrage::solver::Step;

fn settings(digits: u8) -> SolverSettings {
    SolverSettings { max_iterations: 100_000, tolerance_digits: digits }
}

#[test]
fn infeasible_cycle_is_skipped_without_retry() {
    assert_eq!(
        after_failure(SolverFailure::Infeasible, settings(9), 1, true),
        Step::Skip(ArbError::InfeasibleConstraints)
    );
}

#[test]
fn unbounded_cycle_is_skipped_without_retry() {
    assert_eq!(
        after_failure(SolverFailure::Unbounded, settings(9), 1, true),
        Step::Skip(ArbError::NumericalNonConvergence)
    );
}

#[test]
fn non_convergence_is_retried_once_with_coarser_tolerance() {
    for failure in [SolverFailure::NumericalFailure, SolverFailure::IterationLimitExceeded] {
        assert_eq!(after_failure(failure, settings(9), 1, true), Step::Retry(settings(6)));
        assert_eq!(
            after_failure(failure, settings(6), 2, true),
            Step::Skip(ArbError::NumericalNonConvergence)
        );
        assert_eq!(
            after_failure(failure, settings(9), 1, false),
            Step::Skip(ArbError::NumericalNonConvergence)
        );
    }
}

#[test]
fn relaxed_tolerance_stops_at_zero_digits() {
    assert_eq!(
        after_failure(SolverFailure::NumericalFailure, settings(2), 1, true),
        Step::Retry(settings(0))
    );
    assert_eq!(
        after_failure(SolverFailure::NumericalFailure, settings(3), 0, true),
        Step::Retry(settings(0))
    );
}
