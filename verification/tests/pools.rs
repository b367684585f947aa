use pool_arbitrage::pool::valid_pools;
use pool_arbitrage::pool::ArbError;
use pool_arbitrage::pool::Pools;
use pool_arbitrage::pool::UniV2Pool;
use pool_arbitrage::system::Ratio;
use pool_arbitrage::token::Token;

fn token(n: u128) -> Token {
    Token::new(0, n)
}

fn pool(a: u128, b: u128, reserve0: u128, reserve1: u128, router_fee: u64) -> UniV2Pool {
    UniV2Pool {
        address: Token::new(1, a * 100 + b),
        token0: token(a),
        token1: token(b),
        reserve0,
        reserve1,
        router_fee,
        fees0: 0,
        fees1: 0,
    }
}

#[test]
fn tokens_are_equal_when_both_parts_agree() {
    assert_eq!(Token::new(1, 2), Token { high: 1, low: 2 });
    assert_ne!(Token::new(1, 2), Token::new(2, 2));
    assert_ne!(Token::new(1, 2), Token::new(1, 3));
}

#[test]
fn pool_with_an_empty_reserve_is_rejected() {
    assert_eq!(pool(0, 1, 0, 10, 30).validate(), Err(ArbError::InvalidPoolInvariant));
    assert_eq!(pool(0, 1, 10, 0, 30).validate(), Err(ArbError::InvalidPoolInvariant));
    assert_eq!(pool(0, 1, 0, 0, 30).validate(), Err(ArbError::InvalidPoolInvariant));
    assert_eq!(pool(0, 1, 1, 1, 30).validate(), Ok(()));
}

#[test]
fn fee_above_the_whole_deposit_is_rejected() {
    assert_eq!(pool(0, 1, 10, 10, 10001).validate(), Err(ArbError::InvalidPoolInvariant));
    assert_eq!(pool(0, 1, 10, 10, 10000).validate(), Ok(()));
    assert_eq!(pool(0, 1, 10, 10, 0).validate(), Ok(()));
}

#[test]
fn connects_ignores_direction() {
    let p = pool(3, 7, 10, 10, 30);
    assert!(p.connects(token(3), token(7)));
    assert!(p.connects(token(7), token(3)));
    assert!(!p.connects(token(3), token(3)));
    assert!(!p.connects(token(3), token(8)));
}

#[test]
fn swap_output_follows_the_constant_product_formula() {
    let p = pool(0, 1, 1000, 2000, 30);
    // 2000 * 100 * 0.997 / (1000 + 100 * 0.997) = 181.32...
    assert_eq!(p.swap_output(100, true), Ok(181));
    // 1000 * 100 * 0.997 / (2000 + 100 * 0.997) = 47.48...
    assert_eq!(p.swap_output(100, false), Ok(47));
    assert_eq!(p.swap_output(0, true), Ok(0));
}

#[test]
fn swap_output_without_fee_and_with_full_fee() {
    // 10 * 100 / (100 + 100) = 5
    assert_eq!(pool(0, 1, 100, 10, 0).swap_output(100, true), Ok(5));
    assert_eq!(pool(0, 1, 100, 10, 10000).swap_output(100, true), Ok(0));
}

#[test]
fn swap_output_never_reaches_the_reserve() {
    let p = pool(0, 1, 1000, 2000, 30);
    assert_eq!(p.swap_output(1_000_000_000_000, true), Ok(1999));
}

#[test]
fn swap_output_of_an_invalid_pool_is_an_error() {
    assert_eq!(pool(0, 1, 0, 10, 30).swap_output(5, true), Err(ArbError::InvalidPoolInvariant));
    assert_eq!(pool(0, 1, 10, 10, 20000).swap_output(5, false), Err(ArbError::InvalidPoolInvariant));
}

#[test]
fn swap_output_reports_overflow() {
    // What is left of the input after the fee does not fit.
    let p = pool(0, 1, 1000, 2000, 30);
    assert_eq!(p.swap_output(u128::MAX, true), Err(ArbError::Overflow));
    // The reserve paid into, times 10000, does not fit.
    let big = pool(0, 1, u128::MAX, 1, 30);
    assert_eq!(big.swap_output(1, true), Err(ArbError::Overflow));
    // The largest input whose denominator still fits.
    let wide = pool(0, 1, 1, 1, 0);
    assert_eq!(wide.swap_output(u128::MAX / 10000 - 1, true), Ok(0));
    assert_eq!(wide.swap_output(u128::MAX / 10000, true), Err(ArbError::Overflow));
}

#[test]
fn swap_output_does_not_need_the_product_to_fit() {
    // reserve_out * amount * 9970 is far beyond 128 bits.
    let big_out = pool(0, 1, 1, u128::MAX, 30);
    assert_eq!(
        big_out.swap_output(2, true),
        Ok(226627601750284334050089835410469543634)
    );
    // A pool of 10^24 and 2 * 10^24 units, an input of 10^18.
    let deep = pool(0, 1, 1_000_000_000_000_000_000_000_000, 2_000_000_000_000_000_000_000_000, 30);
    assert_eq!(deep.swap_output(1_000_000_000_000_000_000, true), Ok(1_993_998_011_983_982_051));
}

#[test]
fn calculate_profit_chains_the_pools_first_token_to_second() {
    let chain = Pools::new(vec![
        pool(0, 1, 1000, 2000, 30),
        pool(1, 2, 1500, 2500, 30),
        pool(2, 0, 3000, 1000, 30),
    ]);
    // 100 -> 181 -> 268 -> 81
    assert_eq!(chain.calculate_profit(100), Ok(81));
    assert_eq!(Pools::new(Vec::new()).calculate_profit(77), Ok(77));
}

#[test]
fn calculate_profit_stops_at_the_first_failure() {
    let chain = Pools::new(vec![
        pool(0, 1, 1000, 2000, 30),
        pool(1, 2, 0, 2500, 30),
        pool(2, 0, 3000, 1000, 30),
    ]);
    assert_eq!(chain.calculate_profit(100), Err(ArbError::InvalidPoolInvariant));
    let overflowing = Pools::new(vec![pool(0, 1, 1000, 2000, 30), pool(1, 2, u128::MAX, 1, 30)]);
    assert_eq!(overflowing.calculate_profit(100), Err(ArbError::Overflow));
}

#[test]
fn follow_crosses_each_pool_from_the_token_in_hand() {
    // The middle pool lists its tokens the other way round.
    let chain = Pools::new(vec![
        pool(0, 1, 1000, 2000, 30),
        pool(2, 1, 2500, 1500, 30),
        pool(2, 0, 3000, 1000, 30),
    ]);
    assert_eq!(chain.follow(token(0), 100), Ok((token(0), 81)));
    // The first pool does not trade token 2.
    assert_eq!(chain.follow(token(2), 100), Err(ArbError::MalformedConfiguration));
    assert_eq!(Pools::new(Vec::new()).follow(token(5), 9), Ok((token(5), 9)));
}

#[test]
fn follow_differs_from_calculate_profit_on_a_reversed_pool() {
    let chain = Pools::new(vec![pool(1, 0, 2000, 1000, 30)]);
    // From token 0 the pool is crossed second token to first.
    assert_eq!(chain.follow(token(0), 100), Ok((token(1), 181)));
    assert_eq!(chain.calculate_profit(100), Ok(47));
}

#[test]
fn the_formula_gives_the_largest_output_that_keeps_the_product() {
    let p = pool(0, 1, 1000, 2000, 30);
    let out = p.swap_output(100, true).unwrap();
    // With the fee taken off the deposit: (1000 + 99.7) * (2000 - out) >= 1000 * 2000.
    let kept = |taken: u128| (1000 * 10000 + 100 * 9970) * (2000 - taken) >= 1000 * 10000 * 2000;
    assert!(kept(out));
    assert!(!kept(out + 1));
}

#[test]
fn effective_price_is_the_reserve_ratio_after_the_fee() {
    let p = pool(0, 1, 1000, 2000, 30);
    assert_eq!(p.effective_price(true), Ok(Ratio::new(false, 2000, 9970, 1000, 10000)));
    assert_eq!(p.effective_price(false), Ok(Ratio::new(false, 1000, 9970, 2000, 10000)));
    assert_eq!(pool(0, 1, 0, 5, 30).effective_price(true), Err(ArbError::InvalidPoolInvariant));
}

#[test]
fn spot_price_is_the_reserve_ratio() {
    let p = pool(0, 1, 1000, 2050, 30);
    assert_eq!(p.get_spot_price(true), Ok(Ratio::new(false, 2050, 1, 1000, 1)));
    assert_eq!(p.get_spot_price(false), Ok(Ratio::new(false, 1000, 1, 2050, 1)));
    assert_eq!(pool(0, 1, 10, 0, 30).get_spot_price(true), Err(ArbError::InvalidPoolInvariant));
}

#[test]
fn valid_pools_keeps_what_keeps_the_invariant() {
    let good = pool(0, 1, 1000, 2000, 30);
    let other = pool(1, 2, 5, 7, 0);
    let pools = vec![pool(0, 1, 0, 10, 30), good, pool(2, 3, 10, 0, 30), other, pool(3, 4, 1, 1, 10001)];
    assert_eq!(valid_pools(pools), vec![good, other]);
    assert_eq!(valid_pools(Vec::new()), Vec::new());
    assert_eq!(valid_pools(vec![good, good]), vec![good, good]);
}

#[test]
fn chain_at_par_returns_less_than_it_takes() {
    // 10 of the second token for 100 of the first, then 90 for 9: the
    // prices multiply to one before fees.
    let chain = Pools::new(vec![pool(0, 1, 100_000, 10_000, 30), pool(1, 0, 9_000, 90_000, 30)]);
    for amount in [1u128, 10, 1_000, 50_000, 10_000_000] {
        assert!(chain.calculate_profit(amount).unwrap() < amount);
    }
    // With a gap between the prices a small trade gains.
    let gap = Pools::new(vec![pool(0, 1, 90_000, 20_000, 30), pool(1, 0, 10_000, 100_000, 30)]);
    assert!(gap.calculate_profit(1_000).unwrap() > 1_000);
}
