use pool_arbitrage::assemble::assemble;
use pool_arbitrage::assemble::read_solution;
use pool_arbitrage::constraints::BuildConfig;
use pool_arbitrage::constraints::Formulation;
use pool_arbitrage::constraints::Pool;
use pool_arbitrage::constraints::PoolKind;
use pool_arbitrage::graph::PoolGraph;
use pool_arbitrage::pool::UniV2Pool;
use pool_arbitrage::pool::ArbError;
use pool_arbitrage::select::CycleOutcome;
use pool_arbitrage::system::ConeKind;
use pool_arbitrage::system::Ratio;
use pool_arbitrage::system::Row;
use pool_arbitrage::system::Term;
use pool_arbitrage::token::Token;

fn token(n: u128) -> Token {
    Token::new(0, n)
}

fn pool(id: u64, a: u128, b: u128, reserve_a: u128, reserve_b: u128) -> Pool {
    Pool {
        id,
        tokens: vec![token(a), token(b)],
        reserves: vec![reserve_a, reserve_b],
        fee: 30,
        kind: PoolKind::ConstantProduct,
    }
}

fn tangent() -> BuildConfig {
    BuildConfig { formulation: Formulation::Tangent, trade_cap: None }
}

fn cone() -> BuildConfig {
    BuildConfig { formulation: Formulation::SecondOrderCone, trade_cap: None }
}

fn one(var: usize) -> Term {
    Term { var, coeff: Ratio::whole(1) }
}

fn none(var: usize) -> Term {
    Term { var, coeff: Ratio::whole(0) }
}

fn minus_one(var: usize) -> Term {
    Term { var, coeff: Ratio::new(true, 1, 1, 1, 1) }
}

/// Tokens 0 -> 1 -> 2 -> 0; the middle pool lists its tokens the other way
/// round.
fn triangle() -> (Vec<Token>, Vec<Pool>) {
    (
        vec![token(0), token(1), token(2), token(0)],
        vec![pool(1, 0, 1, 1000, 2000), pool(2, 2, 1, 2500, 1500), pool(3, 2, 0, 3000, 1000)],
    )
}

#[test]
fn triangle_system_has_the_rows_of_its_pools_then_the_links() {
    let (cycle, pools) = triangle();
    let system = assemble(&cycle, &pools, tangent()).unwrap();
    assert_eq!(system.n_vars, 12);
    // Per pool: one tangent row, two reserve rows, four sign rows.
    assert_eq!(system.inequalities.len(), 3 * 7 + 2);
    for (k, pool) in pools.iter().enumerate() {
        let own = pool.build_constraints(4 * k, &[0, 0], tangent()).unwrap();
        assert_eq!(system.inequalities[7 * k..7 * k + 7].to_vec(), own.rows);
    }
    // Token 1 leaves pool 0 at variable 2 and enters pool 1, where it is the
    // second token, at variable 4 + 3.
    assert_eq!(
        system.inequalities[21],
        Row { terms: vec![one(7), minus_one(2)], bound: Ratio::whole(0) }
    );
    // Token 2 leaves pool 1 at variable 4 + 0 and enters pool 2 at 8 + 1.
    assert_eq!(
        system.inequalities[22],
        Row { terms: vec![one(9), minus_one(4)], bound: Ratio::whole(0) }
    );
    assert!(system.cones.is_empty());
    assert_eq!(system.cone_kind(), ConeKind::NonNegativeOrthant);
}

#[test]
fn triangle_objective_counts_the_start_token_only() {
    let (cycle, pools) = triangle();
    let system = assemble(&cycle, &pools, tangent()).unwrap();
    let plus = |var: usize, n: u128| Term { var, coeff: Ratio::new(false, n, 1, 1, 1) };
    let minus = |var: usize, n: u128| Term { var, coeff: Ratio::new(true, n, 1, 1, 1) };
    assert_eq!(
        system.objective,
        vec![
            plus(0, 1),
            minus(1, 1),
            plus(2, 0),
            minus(3, 0),
            plus(4, 0),
            minus(5, 0),
            plus(6, 0),
            minus(7, 0),
            plus(8, 0),
            minus(9, 0),
            plus(10, 1),
            minus(11, 1),
        ]
    );
}

#[test]
fn each_pool_is_kept_to_the_way_the_cycle_crosses_it() {
    let (cycle, pools) = triangle();
    let system = assemble(&cycle, &pools, tangent()).unwrap();
    assert_eq!(
        system.equalities,
        vec![
            // Pool 0 takes token 0 in (variable 1) and gives token 1 out (2).
            Row { terms: vec![one(0), none(1), none(2), one(3)], bound: Ratio::whole(0) },
            // Pool 1 takes token 1 in (7) and gives token 2 out (4).
            Row { terms: vec![none(4), one(5), one(6), none(7)], bound: Ratio::whole(0) },
            // Pool 2 takes token 2 in (9) and gives token 0 out (10).
            Row { terms: vec![one(8), none(9), none(10), one(11)], bound: Ratio::whole(0) },
        ]
    );
}

#[test]
fn cone_formulation_is_announced_to_the_solver() {
    let (cycle, pools) = triangle();
    let system = assemble(&cycle, &pools, cone()).unwrap();
    assert_eq!(system.cones.len(), 3);
    assert_eq!(system.inequalities.len(), 3 * 6 + 2);
    assert_eq!(system.cone_kind(), ConeKind::SecondOrder);
    for (k, pool) in pools.iter().enumerate() {
        let own = pool.build_constraints(4 * k, &[0, 0], cone()).unwrap();
        assert_eq!(system.cones[k], own.cones[0]);
    }
}

#[test]
fn pools_of_different_sizes_get_their_own_offsets() {
    let wide = Pool {
        id: 7,
        tokens: vec![token(5), token(1), token(2), token(6)],
        reserves: vec![40, 40, 40, 40],
        fee: 20,
        kind: PoolKind::WeightedGeometricMean(vec![2500, 2500, 2500, 2500]),
    };
    let cycle = vec![token(0), token(1), token(2), token(0)];
    let pools = vec![pool(1, 0, 1, 1000, 2000), wide, pool(3, 2, 0, 3000, 1000)];
    let system = assemble(&cycle, &pools, tangent()).unwrap();
    assert_eq!(system.n_vars, 4 + 8 + 4);
    let links = system.inequalities[system.inequalities.len() - 2..].to_vec();
    assert_eq!(
        links,
        vec![
            // Into the wide pool at its second token, out of pool 0 at token 1.
            Row { terms: vec![one(4 + 3), minus_one(2)], bound: Ratio::whole(0) },
            // Into pool 2 at token 2, out of the wide pool at its third token.
            Row { terms: vec![one(12 + 1), minus_one(4 + 4)], bound: Ratio::whole(0) },
        ]
    );
    assert_eq!(
        system.equalities[1],
        Row {
            terms: vec![one(4), one(5), one(6), none(7), none(8), one(9), one(10), one(11)],
            bound: Ratio::whole(0),
        }
    );
}

#[test]
fn cycle_that_uses_a_pool_twice_is_degenerate() {
    let cycle = vec![token(0), token(1), token(0)];
    let pools = vec![pool(1, 0, 1, 100, 10), pool(1, 0, 1, 100, 10)];
    assert_eq!(assemble(&cycle, &pools, tangent()), Err(ArbError::DegenerateCycle));
    let (cycle, mut pools) = triangle();
    pools[2].id = 1;
    assert_eq!(assemble(&cycle, &pools, tangent()), Err(ArbError::DegenerateCycle));
}

#[test]
fn pool_with_an_empty_reserve_is_rejected_before_assembly() {
    let (cycle, mut pools) = triangle();
    pools[1].reserves[0] = 0;
    assert_eq!(assemble(&cycle, &pools, tangent()), Err(ArbError::InvalidPoolInvariant));
    assert_eq!(assemble(&cycle, &pools, cone()), Err(ArbError::InvalidPoolInvariant));
}

#[test]
fn malformed_cycles_are_rejected() {
    let (cycle, pools) = triangle();
    // No pools, one pool.
    assert_eq!(assemble(&[token(0)], &Vec::new(), tangent()), Err(ArbError::MalformedConfiguration));
    assert_eq!(
        assemble(&[token(0), token(1)], &pools[..1].to_vec(), tangent()),
        Err(ArbError::MalformedConfiguration)
    );
    // One token short, one too many.
    assert_eq!(assemble(&cycle[..3], &pools, tangent()), Err(ArbError::MalformedConfiguration));
    let mut longer = cycle.clone();
    longer.push(token(0));
    assert_eq!(assemble(&longer, &pools, tangent()), Err(ArbError::MalformedConfiguration));
    // Does not end where it starts.
    let open = vec![token(0), token(1), token(2), token(1)];
    assert_eq!(assemble(&open, &pools, tangent()), Err(ArbError::MalformedConfiguration));
    // The second pool does not trade token 3.
    let off = vec![token(0), token(1), token(3), token(0)];
    assert_eq!(assemble(&off, &pools, tangent()), Err(ArbError::MalformedConfiguration));
    let capped = BuildConfig { formulation: Formulation::Tangent, trade_cap: Some(0) };
    assert_eq!(assemble(&cycle, &pools, capped), Err(ArbError::MalformedConfiguration));
}

#[test]
fn degenerate_comes_before_invalid_and_invalid_before_misfit() {
    let (cycle, mut pools) = triangle();
    pools[1].reserves[0] = 0;
    pools[2].id = 2;
    assert_eq!(assemble(&cycle, &pools, tangent()), Err(ArbError::DegenerateCycle));
    pools[2].id = 3;
    let off = vec![token(0), token(1), token(3), token(0)];
    assert_eq!(assemble(&off, &pools, tangent()), Err(ArbError::InvalidPoolInvariant));
}

#[test]
fn solution_is_read_at_the_start_token() {
    let (cycle, pools) = triangle();
    let amounts: Vec<u128> = (100..112).collect();
    // Paid into pool 0 of token 0: variable 1. Taken out of pool 2 of token
    // 0, its second token: variable 8 + 2.
    assert_eq!(
        read_solution(&cycle, &pools, tangent(), &amounts),
        Ok(CycleOutcome { input: 101, output: 110 })
    );
}

#[test]
fn solution_of_the_wrong_length_is_malformed() {
    let (cycle, pools) = triangle();
    let short: Vec<u128> = (0..11).collect();
    assert_eq!(
        read_solution(&cycle, &pools, tangent(), &short),
        Err(ArbError::MalformedConfiguration)
    );
    let mut broken = pools.clone();
    broken[0].reserves[1] = 0;
    let amounts: Vec<u128> = (0..12).collect();
    assert_eq!(
        read_solution(&cycle, &broken, tangent(), &amounts),
        Err(ArbError::InvalidPoolInvariant)
    );
}

#[test]
fn every_term_names_a_variable_and_no_denominator_is_zero() {
    let (cycle, pools) = triangle();
    for config in [tangent(), cone()] {
        let system = assemble(&cycle, &pools, config).unwrap();
        let mut terms: Vec<Term> = system.objective.clone();
        let mut ratios: Vec<Ratio> = Vec::new();
        for row in system.inequalities.iter().chain(system.equalities.iter()) {
            terms.extend(row.terms.iter().copied());
            ratios.push(row.bound);
        }
        for block in &system.cones {
            for form in block.rows.iter().chain(std::iter::once(&block.bound)) {
                terms.extend(form.terms.iter().copied());
                ratios.push(form.offset);
            }
        }
        ratios.extend(terms.iter().map(|t| t.coeff));
        assert!(terms.iter().all(|t| t.var < system.n_vars));
        assert!(ratios.iter().all(|r| r.den > 0 && r.den_scale > 0));
    }
}

#[test]
fn loop_over_two_parallel_pools_goes_from_the_search_to_a_system() {
    let univ2 = |address: u128, reserve0: u128, reserve1: u128| UniV2Pool {
        address: token(address),
        token0: token(0),
        token1: token(1),
        reserve0,
        reserve1,
        router_fee: 30,
        fees0: 0,
        fees1: 0,
    };
    let pools = vec![univ2(10, 100, 10), univ2(11, 90, 20)];
    let graph = PoolGraph::new(&pools);
    let routes = graph.detect_routes(token(0));
    assert_eq!(routes.len(), 2);
    for route in &routes {
        let crossed = graph.route_pools(route).unwrap();
        let own: Vec<Pool> = crossed
            .iter()
            .zip(route.pools.iter())
            .map(|(pool, &index)| pool.to_pool(index as u64))
            .collect();
        let system = assemble(&route.tokens, &own, cone()).unwrap();
        assert_eq!(system.n_vars, 8);
        assert_eq!(system.cones.len(), 2);
        // The pools that the cycle converts to are the same two, each once.
        let listed = graph.convert_cycle_to_pools(&route.tokens).unwrap();
        assert_eq!(listed, vec![pools[0], pools[1]]);
    }
    // One pool alone gives the search nothing to assemble.
    assert!(PoolGraph::new(&pools[..1].to_vec()).detect_routes(token(0)).is_empty());
}
