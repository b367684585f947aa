use pool_arbitrage::assemble::assemble;
use pool_arbitrage::assemble::read_solution;
use pool_arbitrage::constraints::BuildConfig;
use pool_arbitrage::constraints::Formulation;
use pool_arbitrage::constraints::Pool;
use pool_arbitrage::constraints::PoolKind;
use pool_arbitrage::pool::Pools;
use pool_arbitrage::pool::UniV2Pool;
use pool_arbitrage::select::select;
use pool_arbitrage::system::Affine;
use pool_arbitrage::system::ConstraintSystem;
use pool_arbitrage::system::Ratio;
use pool_arbitrage::system::Term;
use pool_arbitrage::token::Token;
use totsu::prelude::FloatGeneric;
use totsu::prelude::MatType;
use totsu::prelude::Solver;
use totsu::MatBuild;
use totsu::ProbSOCP;

type La = FloatGeneric<f64>;

fn token(n: u128) -> Token {
    Token::new(0, n)
}

fn value(ratio: &Ratio) -> f64 {
    let magnitude =
        (ratio.num as f64 * ratio.num_scale as f64) / (ratio.den as f64 * ratio.den_scale as f64);
    if ratio.negative {
        -magnitude
    } else {
        magnitude
    }
}

fn vector(terms: &[Term], n: usize, sign: f64) -> MatBuild<La> {
    let mut column = MatBuild::new(MatType::General(n, 1));
    for term in terms {
        column[(term.var, 0)] += sign * value(&term.coeff);
    }
    column
}

fn rows(forms: &[Affine], n: usize) -> (MatBuild<La>, MatBuild<La>) {
    let mut g = MatBuild::new(MatType::General(forms.len(), n));
    let mut h = MatBuild::new(MatType::General(forms.len(), 1));
    for (r, form) in forms.iter().enumerate() {
        for term in &form.terms {
            g[(r, term.var)] += value(&term.coeff);
        }
        h[(r, 0)] = value(&form.offset);
    }
    (g, h)
}

/// Hands the system to the solver as a second-order cone programme and
/// returns the solution.
fn solve(system: &ConstraintSystem) -> Vec<f64> {
    let n = system.n_vars;
    let mut mats_g = Vec::new();
    let mut vecs_h = Vec::new();
    let mut vecs_c = Vec::new();
    let mut scls_d = Vec::new();
    for row in &system.inequalities {
        // 0 <= h - g x
        mats_g.push(MatBuild::new(MatType::General(1, n)));
        vecs_h.push(MatBuild::new(MatType::General(1, 1)));
        vecs_c.push(vector(&row.terms, n, -1.0));
        scls_d.push(value(&row.bound));
    }
    for block in &system.cones {
        let (g, h) = rows(&block.rows, n);
        mats_g.push(g);
        vecs_h.push(h);
        vecs_c.push(vector(&block.bound.terms, n, 1.0));
        scls_d.push(value(&block.bound.offset));
    }
    let mut mat_a = MatBuild::new(MatType::General(system.equalities.len(), n));
    let mut vec_b = MatBuild::new(MatType::General(system.equalities.len(), 1));
    for (r, row) in system.equalities.iter().enumerate() {
        for term in &row.terms {
            mat_a[(r, term.var)] += value(&term.coeff);
        }
        vec_b[(r, 0)] = value(&row.bound);
    }
    // The solver minimises.
    let vec_f = vector(&system.objective, n, -1.0);
    let mut problem = ProbSOCP::new(vec_f, mats_g, vecs_h, vecs_c, scls_d, mat_a, vec_b);
    let solver = Solver::<La>::new().par(|p| {
        p.eps_acc = 1e-7;
        p.eps_inf = 1e-7;
        p.max_iter = Some(400_000);
    });
    let (x, _y) = solver.solve(problem.problem()).unwrap();
    x.to_vec()
}

fn objective(system: &ConstraintSystem, x: &[f64]) -> f64 {
    system.objective.iter().map(|t| value(&t.coeff) * x[t.var]).sum()
}

/// Token 0 into the second pool for token 1, token 1 into the first pool
/// for token 0.
fn two_pool_loop(second_pool_token1: u128) -> (Vec<Token>, Vec<Pool>) {
    let first = Pool {
        id: 1,
        tokens: vec![token(0), token(1)],
        reserves: vec![100, 10],
        fee: 30,
        kind: PoolKind::ConstantProduct,
    };
    let second = Pool {
        id: 2,
        tokens: vec![token(0), token(1)],
        reserves: vec![90, second_pool_token1],
        fee: 30,
        kind: PoolKind::ConstantProduct,
    };
    (vec![token(0), token(1), token(0)], vec![second, first])
}

fn cone() -> BuildConfig {
    BuildConfig { formulation: Formulation::SecondOrderCone, trade_cap: None }
}

/// The constant-product round trip by hand.
fn round_trip(x: f64, second_pool_token1: f64) -> f64 {
    let token1 = second_pool_token1 * 0.997 * x / (90.0 + 0.997 * x);
    100.0 * 0.997 * token1 / (10.0 + 0.997 * token1)
}

#[test]
fn no_profit_at_the_no_arbitrage_price() {
    // Both pools price token 1 at ten of token 0.
    let (cycle, pools) = two_pool_loop(9);
    let system = assemble(&cycle, &pools, cone()).unwrap();
    let x = solve(&system);
    assert!(objective(&system, &x) <= 1e-4);
    assert!(objective(&system, &x) >= -1e-4);
}

#[test]
fn profit_when_the_prices_differ() {
    let (cycle, pools) = two_pool_loop(20);
    let system = assemble(&cycle, &pools, cone()).unwrap();
    let x = solve(&system);
    let profit = objective(&system, &x);
    assert!(profit > 1.0);
    // Variable 1 is token 0 paid into the second pool, variable 4 is token 0
    // taken out of the first.
    let paid = x[1];
    let back = x[4];
    assert!((profit - (back - paid)).abs() < 1e-3);
    assert!((back - round_trip(paid, 20.0)).abs() < 1e-2);
    // By hand the best input is where the marginal return falls to 1.
    let mut best = 0.0;
    let mut best_profit = 0.0;
    let mut input = 0.0;
    while input < 90.0 {
        let gain = round_trip(input, 20.0) - input;
        if gain > best_profit {
            best_profit = gain;
            best = input;
        }
        input += 0.001;
    }
    assert!((profit - best_profit).abs() < 1e-2, "{profit} against {best_profit}");
    assert!((paid - best).abs() < 0.5, "{paid} against {best}");
}

#[test]
fn solver_answer_in_whole_units_is_selected_and_matches_the_exact_trade() {
    // The solver works in whole tokens; the pools count millionths.
    let scale = 1_000_000u128;
    let (cycle, whole) = two_pool_loop(20);
    let system = assemble(&cycle, &whole, cone()).unwrap();
    let x = solve(&system);
    let amounts: Vec<u128> = x
        .iter()
        .map(|v| if *v > 0.0 { (v * scale as f64).floor() as u128 } else { 0 })
        .collect();
    let mut pools = whole.clone();
    for pool in pools.iter_mut() {
        for reserve in pool.reserves.iter_mut() {
            *reserve *= scale;
        }
    }
    let outcome = read_solution(&cycle, &pools, cone(), &amounts).unwrap();
    assert!(outcome.output > outcome.input);
    let picked = select(&vec![outcome], 100 * scale).unwrap();
    assert_eq!(picked.index, 0);
    assert_eq!(picked.input, outcome.input);
    // Traded pool by pool, the input returns what the solver said, up to
    // what the solver's tolerance and rounding allow.
    let chain = Pools::new(vec![
        UniV2Pool {
            address: token(102),
            token0: token(0),
            token1: token(1),
            reserve0: 90 * scale,
            reserve1: 20 * scale,
            router_fee: 30,
            fees0: 0,
            fees1: 0,
        },
        UniV2Pool {
            address: token(101),
            token0: token(0),
            token1: token(1),
            reserve0: 100 * scale,
            reserve1: 10 * scale,
            router_fee: 30,
            fees0: 0,
            fees1: 0,
        },
    ]);
    let (end, exact) = chain.follow(token(0), outcome.input).unwrap();
    assert_eq!(end, token(0));
    let gap = if exact > outcome.output { exact - outcome.output } else { outcome.output - exact };
    assert!(gap < scale / 100, "{exact} against {}", outcome.output);
}

#[test]
fn widening_the_price_gap_raises_the_best_profit() {
    let mut profits = Vec::new();
    for second_pool_token1 in [15, 20] {
        let (cycle, pools) = two_pool_loop(second_pool_token1);
        let system = assemble(&cycle, &pools, cone()).unwrap();
        let x = solve(&system);
        profits.push(objective(&system, &x));
    }
    // By hand the best round trips gain about 2.98 and 7.13.
    assert!((profits[0] - 2.98).abs() < 0.02, "{}", profits[0]);
    assert!((profits[1] - 7.13).abs() < 0.02, "{}", profits[1]);
    assert!(profits[1] > profits[0] && profits[0] > 0.0);
}
