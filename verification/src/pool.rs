//! Two-token constant-product pools and chains of them.

use vstd::prelude::*;
use crate::system::Ratio;
use crate::token::Token;

verus! {

/// The denominator of a fee given in basis points.
pub const FEE_DENOMINATOR: u64 = 10000;

/// What can go wrong while pools are checked, routes are assembled and
/// solver answers are read.
#[derive(Clone, Copy, Debug, PartialEq, Eq, Structural)]
pub enum ArbError {
    /// A token is not part of the graph.
    GraphLookupMiss,
    /// A route uses the same pool more than once.
    DegenerateCycle,
    /// The solver found the constraints of a route infeasible.
    InfeasibleConstraints,
    /// The solver gave up before it converged.
    NumericalNonConvergence,
    /// A pool's reserves, fee or weights break the pool invariant.
    InvalidPoolInvariant,
    /// A route and the pools handed in for it do not fit together, or there
    /// are none.
    MalformedConfiguration,
    /// A quantity does not fit the machine integers.
    Overflow,
}

/// A two-token constant-product pool.
///
/// `router_fee` is the trading fee in basis points; `fees0` and `fees1` are
/// the transfer taxes of the two tokens in basis points.
#[derive(Clone, Copy, Debug, PartialEq, Eq, Structural)]
pub struct UniV2Pool {
    pub address: Token,
    pub token0: Token,
    pub token1: Token,
    pub reserve0: u128,
    pub reserve1: u128,
    pub router_fee: u64,
    pub fees0: u64,
    pub fees1: u64,
}

impl UniV2Pool {
    /// Both reserves are positive and the fee does not exceed the whole
    /// deposit.
    pub open spec fn valid(&self) -> bool {
        &&& self.reserve0 > 0
        &&& self.reserve1 > 0
        &&& self.router_fee <= FEE_DENOMINATOR
    }

    /// The pool trades between `a` and `b`, in either direction.
    pub open spec fn joins(&self, a: Token, b: Token) -> bool {
        (self.token0 == a && self.token1 == b) || (self.token1 == a && self.token0 == b)
    }

    /// What is left of a deposit of 10000 after the trading fee.
    pub open spec fn keep(&self) -> int {
        FEE_DENOMINATOR - self.router_fee
    }

    /// The reserve of the token that is paid in.
    pub open spec fn reserve_in(&self, zero_for_one: bool) -> int {
        if zero_for_one {
            self.reserve0 as int
        } else {
            self.reserve1 as int
        }
    }

    /// The reserve of the token that is paid out.
    pub open spec fn reserve_out(&self, zero_for_one: bool) -> int {
        if zero_for_one {
            self.reserve1 as int
        } else {
            self.reserve0 as int
        }
    }

    /// The numerator of the swap formula, scaled by the fee denominator.
    pub open spec fn quote_numerator(&self, amount: int, zero_for_one: bool) -> int {
        self.reserve_out(zero_for_one) * (amount * self.keep())
    }

    /// The denominator of the swap formula, scaled by the fee denominator.
    pub open spec fn quote_denominator(&self, amount: int, zero_for_one: bool) -> int {
        self.reserve_in(zero_for_one) * FEE_DENOMINATOR + amount * self.keep()
    }

    /// What the pool pays out for `amount` paid in: with `f` the share of a
    /// deposit that the fee leaves, `reserve_out * amount * f / (reserve_in +
    /// amount * f)`, rounded down.
    ///
    /// An invalid pool pays nothing out, and the formula's denominator,
    /// `reserve_in * 10000 + amount * (10000 - fee)`, must fit into 128
    /// bits; the numerator need not.
    pub open spec fn quote(&self, amount: u128, zero_for_one: bool) -> Result<u128, ArbError> {
        if !self.valid() {
            Err(ArbError::InvalidPoolInvariant)
        } else if self.quote_denominator(amount as int, zero_for_one) > u128::MAX {
            Err(ArbError::Overflow)
        } else {
            Ok(
                (self.quote_numerator(amount as int, zero_for_one) / self.quote_denominator(
                    amount as int,
                    zero_for_one,
                )) as u128,
            )
        }
    }

    /// The price of a vanishing trade with the fee taken off: what the pool
    /// pays out per unit paid in, `reserve_out / reserve_in * f`.
    pub open spec fn marginal_price(&self, zero_for_one: bool) -> Ratio {
        Ratio {
            negative: false,
            num: self.reserve_out(zero_for_one) as u128,
            num_scale: self.keep() as u128,
            den: self.reserve_in(zero_for_one) as u128,
            den_scale: FEE_DENOMINATOR as u128,
        }
    }

    /// The price at the current reserves, before the fee: `reserve_out /
    /// reserve_in`.
    pub open spec fn spot_price(&self, zero_for_one: bool) -> Ratio {
        Ratio {
            negative: false,
            num: self.reserve_out(zero_for_one) as u128,
            num_scale: 1,
            den: self.reserve_in(zero_for_one) as u128,
            den_scale: 1,
        }
    }

    /// The trade that pays `amount_in` in and takes `amount_out` out leaves
    /// the product of the reserves, with the fee taken off the deposit, no
    /// smaller than it was.
    pub open spec fn keeps_product(&self, amount_in: int, amount_out: int, zero_for_one: bool) -> bool {
        &&& amount_out <= self.reserve_out(zero_for_one)
        &&& (self.reserve_in(zero_for_one) * FEE_DENOMINATOR + amount_in * self.keep()) * (
        self.reserve_out(zero_for_one) - amount_out) >= self.reserve_in(zero_for_one)
            * FEE_DENOMINATOR * self.reserve_out(zero_for_one)
    }

    /// Checks the pool invariant.
    pub fn validate(&self) -> (checked: Result<(), ArbError>)
        ensures
            checked is Ok <==> self.valid(),
            checked is Err ==> checked == Err::<(), ArbError>(ArbError::InvalidPoolInvariant),
    {
        if self.reserve0 > 0 && self.reserve1 > 0 && self.router_fee <= FEE_DENOMINATOR {
            Ok(())
        } else {
            Err(ArbError::InvalidPoolInvariant)
        }
    }

    /// The amount that the pool pays out when `amount_in` of its first token
    /// (`zero_for_one`) or of its second token is paid in.
    pub fn swap_output(&self, amount_in: u128, zero_for_one: bool) -> (out: Result<u128, ArbError>)
        ensures
            out == self.quote(amount_in, zero_for_one),
    {
        if self.validate().is_err() {
            return Err(ArbError::InvalidPoolInvariant);
        }
        let keep: u128 = (FEE_DENOMINATOR - self.router_fee) as u128;
        let (reserve_in, reserve_out) = if zero_for_one {
            (self.reserve0, self.reserve1)
        } else {
            (self.reserve1, self.reserve0)
        };
        let ghost denominator = self.quote_denominator(amount_in as int, zero_for_one);
        let kept = match amount_in.checked_mul(keep) {
            Some(kept) => kept,
            None => {
                assert(denominator > u128::MAX) by (nonlinear_arith)
                    requires
                        denominator == reserve_in * FEE_DENOMINATOR + amount_in * keep,
                        amount_in * keep > u128::MAX,
                ;
                return Err(ArbError::Overflow);
            },
        };
        let scaled = match reserve_in.checked_mul(FEE_DENOMINATOR as u128) {
            Some(scaled) => scaled,
            None => {
                assert(denominator > u128::MAX) by (nonlinear_arith)
                    requires
                        denominator == reserve_in * FEE_DENOMINATOR + amount_in * keep,
                        reserve_in * FEE_DENOMINATOR > u128::MAX,
                        amount_in >= 0,
                        keep >= 0,
                ;
                return Err(ArbError::Overflow);
            },
        };
        let bottom = match scaled.checked_add(kept) {
            Some(bottom) => bottom,
            None => {
                return Err(ArbError::Overflow);
            },
        };
        assert(bottom > 0) by (nonlinear_arith)
            requires
                bottom == reserve_in * FEE_DENOMINATOR + kept,
                reserve_in > 0,
                kept >= 0,
        ;
        proof {
            lemma_quote_within_reserve(*self, amount_in as nat, zero_for_one);
        }
        Ok(mul_div(reserve_out, kept, bottom))
    }

    /// The price at the current reserves, one way or the other, before the
    /// fee.
    pub fn get_spot_price(&self, zero_for_one: bool) -> (price: Result<Ratio, ArbError>)
        ensures
            price == (if self.valid() {
                Ok::<Ratio, ArbError>(self.spot_price(zero_for_one))
            } else {
                Err::<Ratio, ArbError>(ArbError::InvalidPoolInvariant)
            }),
            price matches Ok(ratio) ==> ratio.wf(),
    {
        if self.validate().is_err() {
            return Err(ArbError::InvalidPoolInvariant);
        }
        if zero_for_one {
            Ok(Ratio::new(false, self.reserve1, 1, self.reserve0, 1))
        } else {
            Ok(Ratio::new(false, self.reserve0, 1, self.reserve1, 1))
        }
    }

    /// What the pool pays out per unit paid in while the trade is small
    /// against the reserves, as an exact ratio. The product of these prices
    /// along a chain says whether the chain returns more than it takes at
    /// the margin.
    pub fn effective_price(&self, zero_for_one: bool) -> (price: Result<Ratio, ArbError>)
        ensures
            price == (if self.valid() {
                Ok::<Ratio, ArbError>(self.marginal_price(zero_for_one))
            } else {
                Err::<Ratio, ArbError>(ArbError::InvalidPoolInvariant)
            }),
            price matches Ok(ratio) ==> ratio.wf(),
    {
        if self.validate().is_err() {
            return Err(ArbError::InvalidPoolInvariant);
        }
        let keep = (FEE_DENOMINATOR - self.router_fee) as u128;
        let (reserve_in, reserve_out) = if zero_for_one {
            (self.reserve0, self.reserve1)
        } else {
            (self.reserve1, self.reserve0)
        };
        Ok(Ratio::new(false, reserve_out, keep, reserve_in, FEE_DENOMINATOR as u128))
    }

    /// Whether the pool trades between `a` and `b`, in either direction.
    pub fn connects(&self, a: Token, b: Token) -> (yes: bool)
        ensures
            yes == self.joins(a, b),
    {
        (self.token0 == a && self.token1 == b) || (self.token1 == a && self.token0 == b)
    }
}

/// A whole number times the divisor is at most the dividend only if it is at
/// most the quotient.
proof fn lemma_under_quotient(t: int, m: int, total: int)
    requires
        m > 0,
        t >= 0,
        t * m <= total,
    ensures
        t <= total / m,
{
    vstd::arithmetic::div_mod::lemma_fundamental_div_mod(total, m);
    vstd::arithmetic::div_mod::lemma_mod_bound(total, m);
    let q = total / m;
    let r = total % m;
    assert(t <= q) by (nonlinear_arith)
        requires
            total == m * q + r,
            0 <= r < m,
            t * m <= total,
    ;
}

/// `x * y / m`, rounded down, where the quotient fits 128 bits though the
/// product need not. The product is built up from the bits of `y`, as
/// quotient and remainder by `m` throughout.
fn mul_div(x: u128, y: u128, m: u128) -> (quotient: u128)
    requires
        m > 0,
        (x as int * y as int) / (m as int) <= u128::MAX,
    ensures
        quotient == (x as int * y as int) / (m as int),
{
    let ghost total = x as int * y as int;
    // x * low == q * m + r
    let mut q: u128 = 0;
    let mut r: u128 = 0;
    // x * w == qa * m + ra
    let mut qa: u128 = x / m;
    let mut ra: u128 = x % m;
    let mut rest = y;
    let ghost mut w: int = 1;
    let ghost mut low: int = 0;
    proof {
        vstd::arithmetic::div_mod::lemma_fundamental_div_mod(x as int, m as int);
        assert(x * 1 == qa * m + ra) by (nonlinear_arith)
            requires
                x == m * qa + ra,
        ;
        assert(x * 0 == 0 * m + 0) by (nonlinear_arith);
    }
    while rest > 0
        invariant
            m > 0,
            total == x as int * y as int,
            total / (m as int) <= u128::MAX,
            w >= 1,
            0 <= low,
            y == rest * w + low,
            x * w == qa * m + ra,
            ra < m,
            x * low == q * m + r,
            r < m,
        decreases rest,
    {
        let ghost step = w;
        let ghost low_before = low;
        assert(rest * step >= step) by (nonlinear_arith)
            requires
                rest >= 1,
                step >= 1,
        ;
        if rest % 2 == 1 {
            let carry = ra >= m - r;
            let sum: u128 = if carry {
                ra - (m - r)
            } else {
                r + ra
            };
            let ghost more: int = q + qa + if carry {
                1int
            } else {
                0int
            };
            proof {
                assert(x * (low + step) == more * m + sum) by (nonlinear_arith)
                    requires
                        x * step == qa * m + ra,
                        x * low == q * m + r,
                        more == q + qa + if carry {
                            1int
                        } else {
                            0int
                        },
                        sum == if carry {
                            ra - (m - r)
                        } else {
                            r + ra
                        },
                ;
                assert(x * (low + step) <= total) by (nonlinear_arith)
                    requires
                        total == x * y,
                        low + step <= y,
                        x >= 0,
                ;
                lemma_under_quotient(more, m as int, total);
            }
            q = if carry {
                q + qa + 1
            } else {
                q + qa
            };
            r = sum;
            proof {
                low = low + step;
            }
        }
        let ghost was = rest;
        rest = rest / 2;
        if rest > 0 {
            let carry = ra >= m - ra;
            let twice: u128 = if carry {
                ra - (m - ra)
            } else {
                ra + ra
            };
            let ghost more: int = 2 * qa + if carry {
                1int
            } else {
                0int
            };
            proof {
                assert(x * (2 * step) == more * m + twice) by (nonlinear_arith)
                    requires
                        x * step == qa * m + ra,
                        more == 2 * qa + if carry {
                            1int
                        } else {
                            0int
                        },
                        twice == if carry {
                            ra - (m - ra)
                        } else {
                            ra + ra
                        },
                ;
                assert(2 * step <= y) by (nonlinear_arith)
                    requires
                        y >= was * step,
                        was >= 2,
                        step >= 1,
                ;
                assert(x * (2 * step) <= total) by (nonlinear_arith)
                    requires
                        total == x * y,
                        2 * step <= y,
                        x >= 0,
                ;
                lemma_under_quotient(more, m as int, total);
            }
            qa = if carry {
                2 * qa + 1
            } else {
                2 * qa
            };
            ra = twice;
            proof {
                w = 2 * step;
            }
        }
        proof {
            let bit = (was % 2) as int;
            assert(was * step == rest * (2 * step) + bit * step) by (nonlinear_arith)
                requires
                    was == 2 * rest + bit,
            ;
            assert(bit * step == if bit == 1 {
                step
            } else {
                0int
            }) by (nonlinear_arith)
                requires
                    bit == 0 || bit == 1,
            ;
            assert(low == low_before + bit * step);
            assert(y == was * step + low_before);
            if rest == 0 {
                assert(was == 1);
                assert(rest * w == 0) by (nonlinear_arith)
                    requires
                        rest == 0,
                ;
                assert(was * step == step) by (nonlinear_arith)
                    requires
                        was == 1,
                ;
            }
        }
    }
    proof {
        assert(low == y);
        vstd::arithmetic::div_mod::lemma_fundamental_div_mod_converse_div(
            total,
            m as int,
            q as int,
            r as int,
        );
    }
    q
}

/// The amount that comes out of the last pool when `amount` is paid into
/// the first and each pool's output is paid into the next, every pool taken
/// from its first token to its second. The first failure ends the chain.
pub open spec fn chain_output(pools: Seq<UniV2Pool>, amount: u128) -> Result<u128, ArbError>
    decreases pools.len(),
{
    if pools.len() == 0 {
        Ok(amount)
    } else {
        match chain_output(pools.drop_last(), amount) {
            Ok(carried) => pools.last().quote(carried, true),
            Err(e) => Err(e),
        }
    }
}

/// Where a trade ends and with how much, when `amount` of `start` is paid
/// into the first pool and each pool is crossed from the token in hand to
/// its other token. A pool that does not trade the token in hand makes the
/// chain malformed; the first failure ends it.
pub open spec fn flow_output(pools: Seq<UniV2Pool>, start: Token, amount: u128) -> Result<
    (Token, u128),
    ArbError,
>
    decreases pools.len(),
{
    if pools.len() == 0 {
        Ok((start, amount))
    } else {
        match flow_output(pools.drop_last(), start, amount) {
            Ok((token, carried)) => pools.last().cross(token, carried),
            Err(e) => Err(e),
        }
    }
}

impl UniV2Pool {
    /// One step of a flow: `amount` of `token` crosses the pool to its other
    /// token.
    pub open spec fn cross(&self, token: Token, amount: u128) -> Result<(Token, u128), ArbError> {
        if self.token0 == token {
            match self.quote(amount, true) {
                Ok(out) => Ok((self.token1, out)),
                Err(e) => Err(e),
            }
        } else if self.token1 == token {
            match self.quote(amount, false) {
                Ok(out) => Ok((self.token0, out)),
                Err(e) => Err(e),
            }
        } else {
            Err(ArbError::MalformedConfiguration)
        }
    }
}

/// The prices at which a vanishing trade that starts with `start` crosses
/// the pools, each from the token in hand to the pool's other token and with
/// the fee taken off, and the token that it ends with. Their product says
/// whether the chain gains at the margin.
pub open spec fn flow_prices(pools: Seq<UniV2Pool>, start: Token) -> Result<
    (Token, Seq<Ratio>),
    ArbError,
>
    decreases pools.len(),
{
    if pools.len() == 0 {
        Ok((start, Seq::empty()))
    } else {
        match flow_prices(pools.drop_last(), start) {
            Ok((token, prices)) => {
                let pool = pools.last();
                if pool.token0 != token && pool.token1 != token {
                    Err(ArbError::MalformedConfiguration)
                } else if !pool.valid() {
                    Err(ArbError::InvalidPoolInvariant)
                } else if pool.token0 == token {
                    Ok((pool.token1, prices.push(pool.marginal_price(true))))
                } else {
                    Ok((pool.token0, prices.push(pool.marginal_price(false))))
                }
            },
            Err(e) => Err(e),
        }
    }
}

/// Once the prices of a chain have failed they stay failed, with the same
/// error, however many pools follow.
pub proof fn lemma_price_error_sticks(pools: Seq<UniV2Pool>, start: Token, upto: int)
    requires
        0 <= upto <= pools.len(),
        flow_prices(pools.take(upto), start) is Err,
    ensures
        flow_prices(pools, start) == flow_prices(pools.take(upto), start),
    decreases pools.len(),
{
    if upto < pools.len() {
        assert(pools.drop_last().take(upto) == pools.take(upto));
        lemma_price_error_sticks(pools.drop_last(), start, upto);
    } else {
        assert(pools.take(upto) == pools);
    }
}

/// A chain of pools that a trade passes through in order.
#[derive(Clone, Debug, PartialEq, Eq)]
pub struct Pools {
    pub pools: Vec<UniV2Pool>,
}

impl Pools {
    /// The chain of the given pools.
    pub fn new(pools: Vec<UniV2Pool>) -> (chain: Pools)
        ensures
            chain.pools@ == pools@,
    {
        Pools { pools }
    }

    /// The amount that leaves the chain when `input_amount` enters it and
    /// every pool is crossed from its first token to its second.
    pub fn calculate_profit(&self, input_amount: u128) -> (out: Result<u128, ArbError>)
        ensures
            out == chain_output(self.pools@, input_amount),
    {
        let mut amount = input_amount;
        let mut i: usize = 0;
        while i < self.pools.len()
            invariant
                i <= self.pools.len(),
                chain_output(self.pools@.take(i as int), input_amount) == Ok::<u128, ArbError>(amount),
            decreases self.pools.len() - i,
        {
            assert(self.pools@.take(i + 1).drop_last() == self.pools@.take(i as int));
            match self.pools[i].swap_output(amount, true) {
                Ok(out) => {
                    amount = out;
                },
                Err(e) => {
                    proof {
                        lemma_chain_error_sticks(self.pools@, input_amount, i + 1);
                    }
                    return Err(e);
                },
            }
            i += 1;
        }
        assert(self.pools@.take(self.pools@.len() as int) == self.pools@);
        Ok(amount)
    }

    /// The price of each pool of the chain for a vanishing trade that starts
    /// with `start`, in the direction in which the trade crosses the pool.
    pub fn marginal_prices(&self, start: Token) -> (out: Result<Vec<Ratio>, ArbError>)
        ensures
            match out {
                Ok(prices) => flow_prices(self.pools@, start) matches Ok((_, listed)) && listed
                    == prices@,
                Err(e) => flow_prices(self.pools@, start) == Err::<(Token, Seq<Ratio>), ArbError>(e),
            },
    {
        let mut token = start;
        let mut prices: Vec<Ratio> = Vec::new();
        let mut i: usize = 0;
        while i < self.pools.len()
            invariant
                i <= self.pools.len(),
                flow_prices(self.pools@.take(i as int), start) == Ok::<
                    (Token, Seq<Ratio>),
                    ArbError,
                >((token, prices@)),
            decreases self.pools.len() - i,
        {
            assert(self.pools@.take(i + 1).drop_last() == self.pools@.take(i as int));
            let pool = self.pools[i];
            if pool.token0 != token && pool.token1 != token {
                proof {
                    lemma_price_error_sticks(self.pools@, start, i + 1);
                }
                return Err(ArbError::MalformedConfiguration);
            }
            let forth = pool.token0 == token;
            match pool.effective_price(forth) {
                Ok(price) => {
                    prices.push(price);
                    token = if forth {
                        pool.token1
                    } else {
                        pool.token0
                    };
                },
                Err(e) => {
                    proof {
                        lemma_price_error_sticks(self.pools@, start, i + 1);
                    }
                    return Err(e);
                },
            }
            i += 1;
        }
        assert(self.pools@.take(self.pools@.len() as int) == self.pools@);
        Ok(prices)
    }

    /// The token and the amount that leave the chain when `amount` of
    /// `start` enters it and every pool is crossed from the token in hand to
    /// its other token.
    pub fn follow(&self, start: Token, amount: u128) -> (out: Result<(Token, u128), ArbError>)
        ensures
            out == flow_output(self.pools@, start, amount),
    {
        let mut token = start;
        let mut carried = amount;
        let mut i: usize = 0;
        while i < self.pools.len()
            invariant
                i <= self.pools.len(),
                flow_output(self.pools@.take(i as int), start, amount) == Ok::<
                    (Token, u128),
                    ArbError,
                >((token, carried)),
            decreases self.pools.len() - i,
        {
            assert(self.pools@.take(i + 1).drop_last() == self.pools@.take(i as int));
            let pool = self.pools[i];
            let step = if pool.token0 == token {
                match pool.swap_output(carried, true) {
                    Ok(out) => Ok((pool.token1, out)),
                    Err(e) => Err(e),
                }
            } else if pool.token1 == token {
                match pool.swap_output(carried, false) {
                    Ok(out) => Ok((pool.token0, out)),
                    Err(e) => Err(e),
                }
            } else {
                Err(ArbError::MalformedConfiguration)
            };
            match step {
                Ok((next, out)) => {
                    token = next;
                    carried = out;
                },
                Err(e) => {
                    proof {
                        lemma_flow_error_sticks(self.pools@, start, amount, i + 1);
                    }
                    return Err(e);
                },
            }
            i += 1;
        }
        assert(self.pools@.take(self.pools@.len() as int) == self.pools@);
        Ok((token, carried))
    }
}

/// The pools that keep the pool invariant, in their order: what a loader
/// hands on, so that no pool with an empty reserve reaches the graph or the
/// constraint builder.
pub fn valid_pools(pools: Vec<UniV2Pool>) -> (kept: Vec<UniV2Pool>)
    ensures
        kept@ == pools@.filter(|p: UniV2Pool| p.valid()),
{
    let ghost keeps = |p: UniV2Pool| p.valid();
    let mut kept: Vec<UniV2Pool> = Vec::new();
    let mut i: usize = 0;
    assert(pools@.take(0).filter(keeps) =~= Seq::empty());
    while i < pools.len()
        invariant
            i <= pools.len(),
            keeps == |p: UniV2Pool| p.valid(),
            kept@ == pools@.take(i as int).filter(keeps),
        decreases pools.len() - i,
    {
        let ghost longer = pools@.take(i + 1);
        assert(longer.drop_last() == pools@.take(i as int));
        assert(longer.last() == pools@[i as int]);
        assert(longer.filter(keeps) == if keeps(longer.last()) {
            longer.drop_last().filter(keeps).push(longer.last())
        } else {
            longer.drop_last().filter(keeps)
        }) by {
            reveal_with_fuel(Seq::filter, 2);
        }
        if pools[i].validate().is_ok() {
            kept.push(pools[i]);
        }
        i += 1;
    }
    assert(pools@.take(pools@.len() as int) == pools@);
    kept
}

/// Once a chain has failed it stays failed, with the same error, however
/// many pools follow.
pub proof fn lemma_chain_error_sticks(pools: Seq<UniV2Pool>, amount: u128, upto: int)
    requires
        0 <= upto <= pools.len(),
        chain_output(pools.take(upto), amount) is Err,
    ensures
        chain_output(pools, amount) == chain_output(pools.take(upto), amount),
    decreases pools.len(),
{
    if upto < pools.len() {
        assert(pools.drop_last().take(upto) == pools.take(upto));
        lemma_chain_error_sticks(pools.drop_last(), amount, upto);
    } else {
        assert(pools.take(upto) == pools);
    }
}

/// Once a flow has failed it stays failed, with the same error, however many
/// pools follow.
pub proof fn lemma_flow_error_sticks(pools: Seq<UniV2Pool>, start: Token, amount: u128, upto: int)
    requires
        0 <= upto <= pools.len(),
        flow_output(pools.take(upto), start, amount) is Err,
    ensures
        flow_output(pools, start, amount) == flow_output(pools.take(upto), start, amount),
    decreases pools.len(),
{
    if upto < pools.len() {
        assert(pools.drop_last().take(upto) == pools.take(upto));
        lemma_flow_error_sticks(pools.drop_last(), start, amount, upto);
    } else {
        assert(pools.take(upto) == pools);
    }
}

/// The swap formula gives the largest output that keeps the product of the
/// reserves: a valid pool's trade keeps the product exactly when it takes out
/// no more than the formula, before rounding, allows.
pub proof fn lemma_quote_is_largest_output(
    pool: UniV2Pool,
    amount_in: nat,
    amount_out: nat,
    zero_for_one: bool,
)
    requires
        pool.valid(),
    ensures
        pool.keeps_product(amount_in as int, amount_out as int, zero_for_one) <==> amount_out
            <= pool.quote_numerator(amount_in as int, zero_for_one) / pool.quote_denominator(
            amount_in as int,
            zero_for_one,
        ),
{
    let r_in = pool.reserve_in(zero_for_one);
    let r_out = pool.reserve_out(zero_for_one);
    let keep = pool.keep();
    let top = pool.quote_numerator(amount_in as int, zero_for_one);
    let bottom = pool.quote_denominator(amount_in as int, zero_for_one);
    let d = FEE_DENOMINATOR as int;
    let kept = amount_in * keep;
    assert(kept >= 0) by (nonlinear_arith)
        requires
            kept == amount_in * keep,
            keep >= 0,
    ;
    assert(bottom > 0 && bottom == r_in * d + kept) by (nonlinear_arith)
        requires
            bottom == r_in * 10000 + kept,
            d == 10000,
            r_in > 0,
            kept >= 0,
    ;
    assert(top == r_out * kept);
    vstd::arithmetic::div_mod::lemma_fundamental_div_mod(top, bottom);
    vstd::arithmetic::div_mod::lemma_mod_bound(top, bottom);
    let q = top / bottom;
    let r = top % bottom;
    // Keeping the product comes to `amount_out * bottom <= top`.
    assert((bottom * (r_out - amount_out) >= r_in * d * r_out) <==> (amount_out * bottom <= top))
        by (nonlinear_arith)
        requires
            bottom == r_in * d + kept,
            top == r_out * kept,
    ;
    assert((amount_out * bottom <= top) <==> amount_out <= q) by (nonlinear_arith)
        requires
            top == bottom * q + r,
            0 <= r < bottom,
            amount_out >= 0,
    ;
    assert(q <= r_out) by (nonlinear_arith)
        requires
            top == bottom * q + r,
            0 <= r < bottom,
            bottom == r_in * d + kept,
            top == r_out * kept,
            r_in > 0,
            d > 0,
            r_out > 0,
            kept >= 0,
    ;
}

/// The product of the pools' marginal prices, as its numerator: every
/// pool's second reserve times what the fee leaves of 10000.
pub open spec fn gain_product(pools: Seq<UniV2Pool>) -> int
    decreases pools.len(),
{
    if pools.len() == 0 {
        1
    } else {
        gain_product(pools.drop_last()) * (pools.last().reserve1 * pools.last().keep())
    }
}

/// The product of the pools' marginal prices, as its denominator: every
/// pool's first reserve times 10000.
pub open spec fn cost_product(pools: Seq<UniV2Pool>) -> int
    decreases pools.len(),
{
    if pools.len() == 0 {
        1
    } else {
        cost_product(pools.drop_last()) * (pools.last().reserve0 * FEE_DENOMINATOR)
    }
}

/// The swap formula never pays out more than the reserve that it pays from.
pub proof fn lemma_quote_within_reserve(pool: UniV2Pool, amount: nat, zero_for_one: bool)
    requires
        pool.valid(),
    ensures
        0 <= pool.quote_numerator(amount as int, zero_for_one) / pool.quote_denominator(
            amount as int,
            zero_for_one,
        ) <= pool.reserve_out(zero_for_one),
{
    let out = pool.reserve_out(zero_for_one);
    let kept = amount * pool.keep();
    let bottom = pool.quote_denominator(amount as int, zero_for_one);
    assert(kept >= 0) by (nonlinear_arith)
        requires
            kept == amount * pool.keep(),
            pool.keep() >= 0,
    ;
    assert(bottom > 0 && kept <= bottom) by (nonlinear_arith)
        requires
            bottom == pool.reserve_in(zero_for_one) * 10000 + kept,
            pool.reserve_in(zero_for_one) > 0,
            kept >= 0,
    ;
    assert(out * kept <= out * bottom) by (nonlinear_arith)
        requires
            kept <= bottom,
            out >= 0,
    ;
    assert(out * kept >= 0) by (nonlinear_arith)
        requires
            out >= 0,
            kept >= 0,
    ;
    vstd::arithmetic::div_mod::lemma_div_is_ordered(out * kept, out * bottom, bottom);
    vstd::arithmetic::div_mod::lemma_div_multiples_vanish(out, bottom);
    assert(out * bottom == bottom * out) by (nonlinear_arith);
    vstd::arithmetic::div_mod::lemma_div_pos_is_pos(out * kept, bottom);
}

/// One swap carries the bound on: if `x` is at most `a * gain / cost`, then
/// what the swap pays for `x` is at most `a` times the longer gain over the
/// longer cost, and less than that unless it pays nothing.
proof fn lemma_swap_carries_bound(
    r0: int,
    r1: int,
    keep: int,
    x: int,
    y: int,
    cost: int,
    gain: int,
    a: int,
)
    requires
        r0 > 0,
        r1 > 0,
        0 <= keep <= 10000,
        x >= 0,
        y == (r1 * (x * keep)) / (r0 * 10000 + x * keep),
        cost > 0,
        gain >= 0,
        a >= 0,
        x * cost <= a * gain,
    ensures
        y >= 0,
        cost * (r0 * 10000) > 0,
        gain * (r1 * keep) >= 0,
        y * (cost * (r0 * 10000)) <= a * (gain * (r1 * keep)),
        y > 0 ==> y * (cost * (r0 * 10000)) < a * (gain * (r1 * keep)),
{
    let kept = x * keep;
    let top = r1 * kept;
    let bottom = r0 * 10000 + kept;
    assert(kept >= 0) by (nonlinear_arith)
        requires
            kept == x * keep,
            x >= 0,
            keep >= 0,
    ;
    assert(top >= 0) by (nonlinear_arith)
        requires
            top == r1 * kept,
            r1 > 0,
            kept >= 0,
    ;
    assert(bottom > 0);
    vstd::arithmetic::div_mod::lemma_fundamental_div_mod(top, bottom);
    vstd::arithmetic::div_mod::lemma_mod_bound(top, bottom);
    vstd::arithmetic::div_mod::lemma_div_pos_is_pos(top, bottom);
    let base = r0 * 10000;
    let rate = r1 * keep;
    assert(rate >= 0) by (nonlinear_arith)
        requires
            rate == r1 * keep,
            r1 > 0,
            keep >= 0,
    ;
    // y * bottom <= top, so y * base <= rate * x - y * kept.
    assert(y * bottom <= top) by (nonlinear_arith)
        requires
            top == bottom * y + top % bottom,
            0 <= top % bottom,
    ;
    assert(top == rate * x) by (nonlinear_arith)
        requires
            top == r1 * kept,
            kept == x * keep,
            rate == r1 * keep,
    ;
    let spare = y * kept;
    assert(spare >= 0) by (nonlinear_arith)
        requires
            spare == y * kept,
            y >= 0,
            kept >= 0,
    ;
    assert(y * base + spare <= rate * x) by (nonlinear_arith)
        requires
            y * bottom <= top,
            bottom == base + kept,
            spare == y * kept,
            top == rate * x,
    ;
    let left = y * base;
    assert(left * cost <= (rate * x) * cost - spare * cost) by (nonlinear_arith)
        requires
            left + spare <= rate * x,
            cost > 0,
    ;
    assert((rate * x) * cost <= rate * (a * gain)) by (nonlinear_arith)
        requires
            x * cost <= a * gain,
            rate >= 0,
    ;
    assert(spare * cost >= 0) by (nonlinear_arith)
        requires
            spare >= 0,
            cost > 0,
    ;
    assert(y * (cost * base) == left * cost) by (nonlinear_arith)
        requires
            left == y * base,
    ;
    assert(a * (gain * rate) == rate * (a * gain)) by (nonlinear_arith);
    assert(cost * base > 0) by (nonlinear_arith)
        requires
            cost > 0,
            base > 0,
    ;
    assert(gain * rate >= 0) by (nonlinear_arith)
        requires
            gain >= 0,
            rate >= 0,
    ;
    if y > 0 {
        // Something is paid out only for something paid in.
        if kept == 0 {
            assert(top == 0) by (nonlinear_arith)
                requires
                    top == r1 * kept,
                    kept == 0,
            ;
            assert(false);
        }
        assert(spare * cost > 0) by (nonlinear_arith)
            requires
                spare == y * kept,
                y > 0,
                kept > 0,
                cost > 0,
        ;
    }
}

/// What a chain pays out is bounded by its marginal prices: the output times
/// the cost product is at most the input times the gain product, and less
/// unless the chain is empty or pays nothing.
pub proof fn lemma_chain_bound(pools: Seq<UniV2Pool>, amount: u128)
    requires
        chain_output(pools, amount) is Ok,
    ensures
        cost_product(pools) > 0,
        gain_product(pools) >= 0,
        chain_output(pools, amount)->Ok_0 * cost_product(pools) <= amount * gain_product(pools),
        pools.len() > 0 && chain_output(pools, amount)->Ok_0 > 0 ==> chain_output(
            pools,
            amount,
        )->Ok_0 * cost_product(pools) < amount * gain_product(pools),
    decreases pools.len(),
{
    if pools.len() == 0 {
        assert(amount * 1 == amount) by (nonlinear_arith);
    } else {
        let before = pools.drop_last();
        let pool = pools.last();
        lemma_chain_bound(before, amount);
        let x = chain_output(before, amount)->Ok_0;
        let y = chain_output(pools, amount)->Ok_0;
        assert(pool.quote(x, true) == Ok::<u128, ArbError>(y));
        assert(pool.valid());
        lemma_quote_within_reserve(pool, x as nat, true);
        lemma_swap_carries_bound(
            pool.reserve0 as int,
            pool.reserve1 as int,
            pool.keep(),
            x as int,
            y as int,
            cost_product(before),
            gain_product(before),
            amount as int,
        );
    }
}

/// At the no-arbitrage price there is nothing to gain: a chain whose
/// marginal prices multiply to at most one returns less than what is paid
/// in, whatever the amount.
pub proof fn lemma_no_gain_at_par(pools: Seq<UniV2Pool>, amount: u128)
    requires
        pools.len() > 0,
        amount > 0,
        chain_output(pools, amount) is Ok,
        gain_product(pools) <= cost_product(pools),
    ensures
        chain_output(pools, amount)->Ok_0 < amount,
{
    lemma_chain_bound(pools, amount);
    let out = chain_output(pools, amount)->Ok_0 as int;
    let cost = cost_product(pools);
    let gain = gain_product(pools);
    if out > 0 {
        assert(out < amount) by (nonlinear_arith)
            requires
                out * cost < amount * gain,
                gain <= cost,
                cost > 0,
                amount > 0,
                out > 0,
        ;
    }
}

} // verus!
