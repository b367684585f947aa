use pool_arbitrage::constraints::BuildConfig;
use pool_arbitrage::constraints::Formulation;
use pool_arbitrage::constraints::Pool;
use pool_arbitrage::constraints::PoolKind;
use pool_arbitrage::pool::ArbError;
use pool_arbitrage::pool::UniV2Pool;
use pool_arbitrage::system::Affine;
use pool_arbitrage::system::ConeBlock;
use pool_arbitrage::system::Ratio;
use pool_arbitrage::system::Row;
use pool_arbitrage::system::Term;
use pool_arbitrage::token::Token;

fn token(n: u128) -> Token {
    Token::new(0, n)
}

fn plus(num: u128, num_scale: u128, den: u128, den_scale: u128) -> Ratio {
    Ratio::new(false, num, num_scale, den, den_scale)
}

fn minus(num: u128, num_scale: u128, den: u128, den_scale: u128) -> Ratio {
    Ratio::new(true, num, num_scale, den, den_scale)
}

fn term(var: usize, coeff: Ratio) -> Term {
    Term { var, coeff }
}

fn row(terms: Vec<Term>, bound: Ratio) -> Row {
    Row { terms, bound }
}

fn product_pool(reserve0: u128, reserve1: u128) -> Pool {
    Pool {
        id: 1,
        tokens: vec![token(0), token(1)],
        reserves: vec![reserve0, reserve1],
        fee: 30,
        kind: PoolKind::ConstantProduct,
    }
}

fn tangent() -> BuildConfig {
    BuildConfig { formulation: Formulation::Tangent, trade_cap: None }
}

fn cone() -> BuildConfig {
    BuildConfig { formulation: Formulation::SecondOrderCone, trade_cap: None }
}

fn value(ratio: &Ratio) -> f64 {
    let magnitude =
        (ratio.num as f64 * ratio.num_scale as f64) / (ratio.den as f64 * ratio.den_scale as f64);
    if ratio.negative {
        -magnitude
    } else {
        magnitude
    }
}

fn form(terms: &[Term], x: &[f64]) -> f64 {
    terms.iter().map(|t| value(&t.coeff) * x[t.var]).sum()
}

fn row_holds(row: &Row, x: &[f64]) -> bool {
    form(&row.terms, x) <= value(&row.bound) + 1e-12
}

fn affine(a: &Affine, x: &[f64]) -> f64 {
    form(&a.terms, x) + value(&a.offset)
}

fn cone_holds(block: &ConeBlock, x: &[f64]) -> bool {
    let bound = affine(&block.bound, x);
    let squares: f64 = block.rows.iter().map(|r| affine(r, x) * affine(r, x)).sum();
    bound >= 0.0 && squares <= bound * bound + 1e-12
}

fn sign_rows(offset: usize, count: usize) -> Vec<Row> {
    (0..count).map(|v| row(vec![term(offset + v, minus(1, 1, 1, 1))], Ratio::whole(0))).collect()
}

#[test]
fn ratio_constructors() {
    assert_eq!(
        Ratio::whole(7),
        Ratio { negative: false, num: 7, num_scale: 1, den: 1, den_scale: 1 }
    );
    assert_eq!(
        Ratio::new(true, 1, 2, 3, 4),
        Ratio { negative: true, num: 1, num_scale: 2, den: 3, den_scale: 4 }
    );
}

#[test]
fn constant_product_tangent_rows() {
    let pool = product_pool(100, 10);
    let built = pool.build_constraints(0, &[1, 0], tangent()).unwrap();
    let mut expected = vec![
        // 10 lambda_0 - 10 * 0.997 delta_0 + 100 lambda_1 - 100 * 0.997 delta_1 <= 0
        row(
            vec![
                term(0, plus(10, 1, 1, 1)),
                term(1, minus(10, 9970, 1, 10000)),
                term(2, plus(100, 1, 1, 1)),
                term(3, minus(100, 9970, 1, 10000)),
            ],
            Ratio::whole(0),
        ),
        // lambda_j - 0.997 delta_j <= reserve_j
        row(vec![term(0, Ratio::whole(1)), term(1, minus(9970, 1, 1, 10000))], Ratio::whole(100)),
        row(vec![term(2, Ratio::whole(1)), term(3, minus(9970, 1, 1, 10000))], Ratio::whole(10)),
    ];
    expected.extend(sign_rows(0, 4));
    assert_eq!(built.rows, expected);
    assert!(built.cones.is_empty());
    assert_eq!(
        built.objective,
        vec![
            term(0, plus(1, 1, 1, 1)),
            term(1, minus(1, 1, 1, 1)),
            term(2, plus(0, 1, 1, 1)),
            term(3, minus(0, 1, 1, 1)),
        ]
    );
    assert!(!built.exact);
}

#[test]
fn constant_product_cone_block() {
    let pool = product_pool(100, 10);
    let built = pool.build_constraints(4, &[3, 7], cone()).unwrap();
    let up0 = vec![term(4, minus(1, 1, 100, 1)), term(5, plus(9970, 1, 100, 10000))];
    let up1 = vec![term(6, minus(1, 1, 10, 1)), term(7, plus(9970, 1, 10, 10000))];
    let down1 = vec![term(6, plus(1, 1, 10, 1)), term(7, minus(9970, 1, 10, 10000))];
    let block = ConeBlock {
        rows: vec![
            Affine { terms: vec![], offset: Ratio::whole(2) },
            Affine { terms: [up0.clone(), down1].concat(), offset: Ratio::whole(0) },
        ],
        bound: Affine { terms: [up0, up1].concat(), offset: Ratio::whole(2) },
    };
    assert_eq!(built.cones, vec![block]);
    // No tangent row: the reserve rows come first.
    assert_eq!(built.rows.len(), 2 + 4);
    assert_eq!(
        built.rows[0],
        row(vec![term(4, Ratio::whole(1)), term(5, minus(9970, 1, 1, 10000))], Ratio::whole(100))
    );
    assert_eq!(built.rows[2..].to_vec(), sign_rows(4, 4));
    assert_eq!(
        built.objective,
        vec![
            term(4, plus(3, 1, 1, 1)),
            term(5, minus(3, 1, 1, 1)),
            term(6, plus(7, 1, 1, 1)),
            term(7, minus(7, 1, 1, 1)),
        ]
    );
    assert!(built.exact);
}

#[test]
fn weighted_pool_rows_divide_by_count_and_reserve() {
    let pool = Pool {
        id: 2,
        tokens: vec![token(0), token(1), token(2)],
        reserves: vec![40, 50, 60],
        fee: 20,
        kind: PoolKind::WeightedGeometricMean(vec![5000, 2500, 2500]),
    };
    let built = pool.build_constraints(0, &[1, 1, 1], cone()).unwrap();
    // sum_j (lambda_j - 0.998 delta_j) / (3 reserve_j) <= 0
    assert_eq!(
        built.rows[0],
        row(
            vec![
                term(0, plus(1, 1, 40, 3)),
                term(1, minus(9980, 1, 40, 30000)),
                term(2, plus(1, 1, 50, 3)),
                term(3, minus(9980, 1, 50, 30000)),
                term(4, plus(1, 1, 60, 3)),
                term(5, minus(9980, 1, 60, 30000)),
            ],
            Ratio::whole(0),
        )
    );
    assert_eq!(built.rows.len(), 1 + 3 + 6);
    assert!(built.cones.is_empty());
    assert!(!built.exact);
}

#[test]
fn constant_sum_rows_are_exact() {
    let pool = Pool {
        id: 3,
        tokens: vec![token(2), token(3)],
        reserves: vec![100, 100],
        fee: 10,
        kind: PoolKind::ConstantSum,
    };
    let built = pool.build_constraints(2, &[0, 0], tangent()).unwrap();
    assert_eq!(
        built.rows[0],
        row(
            vec![
                term(2, plus(1, 1, 1, 1)),
                term(3, minus(9990, 1, 1, 10000)),
                term(4, plus(1, 1, 1, 1)),
                term(5, minus(9990, 1, 1, 10000)),
            ],
            Ratio::whole(0),
        )
    );
    assert!(built.exact);
}

#[test]
fn trade_cap_adds_one_row_per_variable() {
    let pool = product_pool(100, 10);
    let capped = BuildConfig { formulation: Formulation::Tangent, trade_cap: Some(1000) };
    let built = pool.build_constraints(0, &[1, 0], capped).unwrap();
    assert_eq!(built.rows.len(), 1 + 2 + 4 + 4);
    let caps = built.rows[7..].to_vec();
    assert_eq!(
        caps,
        vec![
            row(vec![term(0, Ratio::whole(1))], plus(100, 1000, 1, 10000)),
            row(vec![term(1, Ratio::whole(1))], plus(100, 1000, 1, 10000)),
            row(vec![term(2, Ratio::whole(1))], plus(10, 1000, 1, 10000)),
            row(vec![term(3, Ratio::whole(1))], plus(10, 1000, 1, 10000)),
        ]
    );
}

#[test]
fn pool_with_an_empty_reserve_gets_no_constraints() {
    for reserves in [vec![0, 10], vec![100, 0], vec![0, 0]] {
        let pool = Pool {
            id: 1,
            tokens: vec![token(0), token(1)],
            reserves,
            fee: 30,
            kind: PoolKind::ConstantProduct,
        };
        assert_eq!(pool.validate(), Err(ArbError::InvalidPoolInvariant));
        assert_eq!(
            pool.build_constraints(0, &[1, 0], tangent()),
            Err(ArbError::InvalidPoolInvariant)
        );
        assert_eq!(pool.build_constraints(0, &[1, 0], cone()), Err(ArbError::InvalidPoolInvariant));
    }
}

#[test]
fn pool_invariant_by_kind() {
    let mut pool = product_pool(100, 10);
    assert_eq!(pool.validate(), Ok(()));
    pool.fee = 10001;
    assert_eq!(pool.validate(), Err(ArbError::InvalidPoolInvariant));
    pool.fee = 30;
    pool.tokens.push(token(2));
    assert_eq!(pool.validate(), Err(ArbError::InvalidPoolInvariant));
    pool.reserves.push(5);
    // A constant product has two tokens.
    assert_eq!(pool.validate(), Err(ArbError::InvalidPoolInvariant));
    pool.kind = PoolKind::ConstantSum;
    assert_eq!(pool.validate(), Ok(()));
    pool.kind = PoolKind::WeightedGeometricMean(vec![5000, 2500, 2500]);
    assert_eq!(pool.validate(), Ok(()));
    pool.kind = PoolKind::WeightedGeometricMean(vec![5000, 2500, 2499]);
    assert_eq!(pool.validate(), Err(ArbError::InvalidPoolInvariant));
    pool.kind = PoolKind::WeightedGeometricMean(vec![5000, 5000]);
    assert_eq!(pool.validate(), Err(ArbError::InvalidPoolInvariant));
    let single = Pool {
        id: 1,
        tokens: vec![token(0)],
        reserves: vec![5],
        fee: 0,
        kind: PoolKind::ConstantSum,
    };
    assert_eq!(single.validate(), Err(ArbError::InvalidPoolInvariant));
}

#[test]
fn malformed_build_requests() {
    let pool = product_pool(100, 10);
    assert_eq!(
        pool.build_constraints(0, &[1], tangent()),
        Err(ArbError::MalformedConfiguration)
    );
    for cap in [0, 10001] {
        let config = BuildConfig { formulation: Formulation::Tangent, trade_cap: Some(cap) };
        assert_eq!(
            pool.build_constraints(0, &[1, 0], config),
            Err(ArbError::MalformedConfiguration)
        );
    }
    assert_eq!(
        pool.build_constraints(usize::MAX - 3, &[1, 0], tangent()),
        Err(ArbError::Overflow)
    );
    assert!(pool.build_constraints(usize::MAX - 4, &[1, 0], tangent()).is_ok());
}

#[test]
fn univ2_pool_becomes_a_constant_product_pool() {
    let source = UniV2Pool {
        address: token(9),
        token0: token(4),
        token1: token(5),
        reserve0: 11,
        reserve1: 22,
        router_fee: 25,
        fees0: 1,
        fees1: 2,
    };
    assert_eq!(
        source.to_pool(17),
        Pool {
            id: 17,
            tokens: vec![token(4), token(5)],
            reserves: vec![11, 22],
            fee: 25,
            kind: PoolKind::ConstantProduct,
        }
    );
}

#[test]
fn cone_rejects_every_trade_that_lowers_the_product() {
    let pool = product_pool(100, 10);
    let built = pool.build_constraints(0, &[1, 0], cone()).unwrap();
    let block = &built.cones[0];
    // Pay delta_0 of token 0 in, take lambda_1 of token 1 out.
    for delta in [0.0, 1.0, 10.0, 50.0, 200.0] {
        let largest = 10.0 * 0.997 * delta / (100.0 + 0.997 * delta);
        for factor in [0.0, 0.5, 0.999999, 1.000001, 1.5] {
            let lambda = largest * factor;
            let x = [0.0, delta, lambda, 0.0];
            let product = (100.0 + 0.997 * delta) * (10.0 - lambda);
            let kept = product >= 1000.0 - 1e-9;
            if delta > 0.0 {
                assert_eq!(cone_holds(block, &x), kept, "delta {delta} lambda {lambda}");
            }
        }
    }
    // Taking out without paying in lowers the product.
    assert!(!cone_holds(block, &[0.0, 0.0, 1.0, 0.0]));
    assert!(cone_holds(block, &[0.0, 0.0, 0.0, 0.0]));
}

#[test]
fn tangent_admits_what_the_cone_admits_and_more() {
    let pool = product_pool(100, 10);
    let linear = pool.build_constraints(0, &[1, 0], tangent()).unwrap();
    let exact = pool.build_constraints(0, &[1, 0], cone()).unwrap();
    let tangent_row = &linear.rows[0];
    let block = &exact.cones[0];
    for delta in [1.0, 10.0, 50.0, 200.0] {
        for lambda in [0.0, 0.05, 0.5, 2.0, 5.0, 9.0] {
            let x = [0.0, delta, lambda, 0.0];
            if cone_holds(block, &x) {
                assert!(row_holds(tangent_row, &x));
            }
        }
    }
    // 10 * 0.997 * 100 - 100 * 9 >= 0, yet (100 + 99.7) * (10 - 9) < 1000.
    let x = [0.0, 100.0, 9.0, 0.0];
    assert!(row_holds(tangent_row, &x));
    assert!(!cone_holds(block, &x));
}
