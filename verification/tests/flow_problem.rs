use pool_arbitrage::constraints::BuildConfig;
use pool_arbitrage::constraints::Formulation;
use pool_arbitrage::flow::find_arbitrage;
use pool_arbitrage::flow::prepare_lp_data;
use pool_arbitrage::flow::ArbitragePath;
use pool_arbitrage::pool::ArbError;
use pool_arbitrage::pool::UniV2Pool;
use pool_arbitrage::system::ConeKind;
use pool_arbitrage::system::Ratio;
use pool_arbitrage::system::Row;
use pool_arbitrage::system::Term;
use pool_arbitrage::token::Token;

fn token(n: u128) -> Token {
    Token::new(0, n)
}

fn pool(a: u128, b: u128, reserve0: u128, reserve1: u128) -> UniV2Pool {
    UniV2Pool {
        address: Token::new(1, 10 * a + b),
        token0: token(a),
        token1: token(b),
        reserve0,
        reserve1,
        router_fee: 30,
        fees0: 0,
        fees1: 0,
    }
}

fn tangent() -> BuildConfig {
    BuildConfig { formulation: Formulation::Tangent, trade_cap: None }
}

fn cone() -> BuildConfig {
    BuildConfig { formulation: Formulation::SecondOrderCone, trade_cap: None }
}

/// Two pools between tokens 0 and 1 whose prices differ, in millionths.
fn gap() -> Vec<UniV2Pool> {
    vec![pool(0, 1, 90_000_000, 20_000_000), pool(0, 1, 100_000_000, 10_000_000)]
}

fn weighted(negative: bool, num: u128) -> Ratio {
    Ratio::new(negative, num, 1, 1, 1)
}

#[test]
fn flow_problem_has_the_rows_of_every_pool_and_one_row_per_asset() {
    let pools = gap();
    let problem = prepare_lp_data(&pools, &[token(1)], token(0), tangent()).unwrap();
    assert_eq!(problem.pools, vec![pools[0].to_pool(0), pools[1].to_pool(1)]);
    let system = &problem.system;
    assert_eq!(system.n_vars, 8);
    assert_eq!(system.inequalities.len(), 2 * 7 + 1);
    for (k, own) in problem.pools.iter().enumerate() {
        let values: [u128; 2] = [1, 0];
        let parts = own.build_constraints(4 * k, &values, tangent()).unwrap();
        assert_eq!(system.inequalities[7 * k..7 * k + 7].to_vec(), parts.rows);
        assert_eq!(system.objective[4 * k..4 * k + 4].to_vec(), parts.objective);
    }
    // Token 1: paid in (variables 3 and 7) less taken out (2 and 6) is at
    // most nothing.
    assert_eq!(
        system.inequalities[14],
        Row {
            terms: vec![
                Term { var: 0, coeff: weighted(true, 0) },
                Term { var: 1, coeff: weighted(false, 0) },
                Term { var: 2, coeff: weighted(true, 1) },
                Term { var: 3, coeff: weighted(false, 1) },
                Term { var: 4, coeff: weighted(true, 0) },
                Term { var: 5, coeff: weighted(false, 0) },
                Term { var: 6, coeff: weighted(true, 1) },
                Term { var: 7, coeff: weighted(false, 1) },
            ],
            bound: Ratio::whole(0),
        }
    );
    assert!(system.equalities.is_empty());
    assert!(system.cones.is_empty());
    assert_eq!(system.cone_kind(), ConeKind::NonNegativeOrthant);
}

#[test]
fn flow_problem_in_cone_form_bounds_every_pool() {
    let pools = gap();
    let problem = prepare_lp_data(&pools, &[token(1)], token(0), cone()).unwrap();
    assert_eq!(problem.system.cones.len(), 2);
    assert_eq!(problem.system.inequalities.len(), 2 * 6 + 1);
    assert_eq!(problem.system.cone_kind(), ConeKind::SecondOrder);
    for (k, own) in problem.pools.iter().enumerate() {
        let values: [u128; 2] = [1, 0];
        let parts = own.build_constraints(4 * k, &values, cone()).unwrap();
        assert_eq!(problem.system.cones[k], parts.cones[0]);
    }
}

#[test]
fn flow_problem_rejects_what_cannot_be_built() {
    assert_eq!(
        prepare_lp_data(&Vec::new(), &[], token(0), tangent()),
        Err(ArbError::MalformedConfiguration)
    );
    assert_eq!(
        prepare_lp_data(&vec![pool(0, 1, 0, 5)], &[token(1)], token(0), tangent()),
        Err(ArbError::InvalidPoolInvariant)
    );
    assert_eq!(
        prepare_lp_data(&vec![pool(0, 1, 5, 0)], &[token(0)], token(0), tangent()),
        Err(ArbError::InvalidPoolInvariant)
    );
    // The start token is not to be balanced.
    assert_eq!(
        prepare_lp_data(&gap(), &[token(1), token(0)], token(0), tangent()),
        Err(ArbError::MalformedConfiguration)
    );
    let capped = BuildConfig { formulation: Formulation::Tangent, trade_cap: Some(10001) };
    assert_eq!(
        prepare_lp_data(&gap(), &[token(1)], token(0), capped),
        Err(ArbError::MalformedConfiguration)
    );
}

#[test]
fn find_arbitrage_reports_sound_trades_with_their_profit() {
    // 10 of token 0 into the first pool gives at most 1.994598 of token 1,
    // which into the second pool gives at most 16.587523 of token 0.
    let amounts = [0, 10_000_000, 1_994_598, 0, 16_587_523, 0, 0, 1_994_598];
    let found = find_arbitrage(&gap(), token(0), &amounts, 0);
    assert_eq!(
        found,
        Some(ArbitragePath {
            pools: vec![(token(0), token(1)), (token(1), token(0))],
            amounts: vec![10_000_000, 1_994_598],
            profit: 6_587_523,
        })
    );
}

#[test]
fn find_arbitrage_holds_back_a_trade_that_lowers_a_product() {
    // One unit more out of the first pool than the swap formula pays.
    let greedy = [0, 10_000_000, 1_994_599, 0, 16_587_523, 0, 0, 1_994_598];
    assert_eq!(find_arbitrage(&gap(), token(0), &greedy, 0), None);
    let greedy = [0, 10_000_000, 1_994_598, 0, 16_587_524, 0, 0, 1_994_598];
    assert_eq!(find_arbitrage(&gap(), token(0), &greedy, 0), None);
    // Taking out without paying in.
    assert_eq!(find_arbitrage(&gap(), token(0), &[0, 0, 1, 0, 0, 0, 0, 0], 0), None);
    // Both ways at once through one pool.
    assert_eq!(find_arbitrage(&gap(), token(0), &[0, 5, 0, 5, 0, 0, 0, 0], 0), None);
}

#[test]
fn find_arbitrage_holds_back_what_gains_too_little() {
    let amounts = [0, 10_000_000, 1_994_598, 0, 16_587_523, 0, 0, 1_994_598];
    assert!(find_arbitrage(&gap(), token(0), &amounts, 6_587_522).is_some());
    assert_eq!(find_arbitrage(&gap(), token(0), &amounts, 6_587_523), None);
    // Only the first pool is paid more than the threshold.
    let partly = find_arbitrage(&gap(), token(0), &amounts, 2_000_000).unwrap();
    assert_eq!(partly.pools, vec![(token(0), token(1))]);
    assert_eq!(partly.amounts, vec![10_000_000]);
    assert_eq!(partly.profit, 6_587_523);
    // A loss, nothing at all, a short solution.
    let loss = [0, 10_000_000, 1_994_598, 0, 9_000_000, 0, 0, 1_994_598];
    assert_eq!(find_arbitrage(&gap(), token(0), &loss, 0), None);
    assert_eq!(find_arbitrage(&gap(), token(0), &[0; 8], 0), None);
    assert_eq!(find_arbitrage(&gap(), token(0), &[0; 7], 0), None);
    assert_eq!(find_arbitrage(&Vec::new(), token(0), &[], 0), None);
}
