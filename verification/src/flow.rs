//! Arbitrage as a flow problem over a whole set of pools: every pool gets
//! the rows of its own invariant, and one row per asset keeps the pools from
//! being paid more of the asset than they give out.

use vstd::prelude::*;
use crate::assemble::lay_out;
use crate::assemble::pool_cones;
use crate::assemble::pool_objectives;
use crate::assemble::pool_parts;
use crate::assemble::pool_rows;
use crate::assemble::var_offset;
use crate::assemble_laws::lemma_offset_step;
use crate::assemble_laws::lemma_pool_rows_are_kept;
use crate::assemble_laws::lemma_pools_wf;
use crate::assemble_laws::lemma_sign_row;
use crate::assemble_laws::lemma_sign_row_is_built;
use crate::assemble_laws::lemma_var_offset_grows;
use crate::constraint_laws::lemma_cone_keeps_product;
use crate::constraints::BuildConfig;
use crate::constraints::Formulation;
use crate::constraints::Pool;
use crate::pool::ArbError;
use crate::pool::FEE_DENOMINATOR;
use crate::pool::UniV2Pool;
use crate::pool::lemma_quote_is_largest_output;
use crate::system::ConstraintSystem;
use crate::system::LinearRow;
use crate::system::Ratio;
use crate::system::Row;
use crate::system::Term;
use crate::system::cone_holds;
use crate::system::cone_wf;
use crate::system::cones_view;
use crate::system::row_holds;
use crate::system::row_wf;
use crate::system::rows_view;
use crate::system::term_wf;
use crate::token::Token;

verus! {

/// A flow problem: the pools as the constraint builder takes them, and the
/// system over their trade variables.
#[derive(Debug, PartialEq, Eq)]
pub struct FlowProblem {
    pub pools: Vec<Pool>,
    pub system: ConstraintSystem,
}

/// The pools that carry flow in a solution, each as the token paid in and
/// the token taken out, with the amount paid in, and the profit in the start
/// token.
#[derive(Clone, Debug, PartialEq, Eq)]
pub struct ArbitragePath {
    pub pools: Vec<(Token, Token)>,
    pub amounts: Vec<u128>,
    pub profit: u128,
}

/// `pool` is the constant-product pool `source` under the identifier `k`.
pub open spec fn stands_for(pool: Pool, source: UniV2Pool, k: int) -> bool {
    &&& pool.id == k
    &&& pool.tokens@ == seq![source.token0, source.token1]
    &&& pool.reserves@ == seq![source.reserve0, source.reserve1]
    &&& pool.fee == source.router_fee
    &&& pool.kind is ConstantProduct
}

/// A pool's terms in the row of `asset`: plus what is paid in of the asset,
/// minus what is taken out of it, nothing for the pool's other tokens.
pub open spec fn balance_terms_of(pool: Pool, offset: int, asset: Token) -> Seq<Term> {
    Seq::new(
        2 * pool.size(),
        |v: int|
            Term {
                var: (offset + v) as usize,
                coeff: Ratio {
                    negative: v % 2 == 0,
                    num: if pool.tokens@[v / 2] == asset {
                        1
                    } else {
                        0
                    },
                    num_scale: 1,
                    den: 1,
                    den_scale: 1,
                },
            },
    )
}

/// The terms of the first `k` pools in the row of `asset`.
pub open spec fn balance_terms(pools: Seq<Pool>, asset: Token, k: int) -> Seq<Term>
    decreases k,
{
    if k <= 0 {
        Seq::empty()
    } else {
        balance_terms(pools, asset, k - 1) + balance_terms_of(
            pools[k - 1],
            var_offset(pools, k - 1),
            asset,
        )
    }
}

/// The row of `asset`: over all pools, what is paid in of the asset is at
/// most what is taken out of it, so that none of it comes from nowhere.
pub open spec fn balance_row(pools: Seq<Pool>, asset: Token) -> LinearRow {
    LinearRow {
        terms: balance_terms(pools, asset, pools.len() as int),
        bound: Ratio { negative: false, num: 0, num_scale: 1, den: 1, den_scale: 1 },
    }
}

/// Why no flow problem can be built, if so. In this order: there are no
/// pools; a pool breaks the pool invariant; the start token is among the
/// assets to balance, or the trade cap is not between 1 and 10000 basis
/// points; the trade variables do not fit the index type.
pub open spec fn flow_error(
    pools: Seq<UniV2Pool>,
    assets: Seq<Token>,
    start: Token,
    config: BuildConfig,
) -> Option<ArbError> {
    if pools.len() == 0 {
        Some(ArbError::MalformedConfiguration)
    } else if exists|p: int| 0 <= p < pools.len() && !(#[trigger] pools[p]).valid() {
        Some(ArbError::InvalidPoolInvariant)
    } else if assets.contains(start) || (config.trade_cap matches Some(cap) && (cap == 0 || cap
        > FEE_DENOMINATOR)) {
        Some(ArbError::MalformedConfiguration)
    } else if 4 * pools.len() > usize::MAX {
        Some(ArbError::Overflow)
    } else {
        None
    }
}

/// `problem` is the flow problem of the pools: its pools stand for them, and
/// its system has every pool's rows, then one balance row per asset, every
/// pool's cone blocks, and the objective that counts what is taken out of
/// the pools of the start token less what is paid in.
pub open spec fn is_flow_problem(
    problem: FlowProblem,
    pools: Seq<UniV2Pool>,
    assets: Seq<Token>,
    start: Token,
    config: BuildConfig,
) -> bool {
    let own = problem.pools@;
    let system = problem.system;
    &&& own.len() == pools.len()
    &&& forall|k: int| 0 <= k < own.len() ==> stands_for(#[trigger] own[k], pools[k], k)
    &&& system.n_vars == 4 * pools.len()
    &&& system.objective@ == pool_objectives(own, start, own.len() as int)
    &&& rows_view(system.inequalities@) == pool_rows(own, config, own.len() as int) + Seq::new(
        assets.len(),
        |a: int| balance_row(own, assets[a]),
    )
    &&& system.equalities@.len() == 0
    &&& cones_view(system.cones@) == pool_cones(own, config, own.len() as int)
}

/// Pools of two tokens each have their variables four apart.
pub proof fn lemma_four_apart(pools: Seq<Pool>, k: int)
    requires
        0 <= k <= pools.len(),
        forall|i: int| 0 <= i < pools.len() ==> (#[trigger] pools[i]).size() == 2,
    ensures
        var_offset(pools, k) == 4 * k,
    decreases k,
{
    if k > 0 {
        lemma_four_apart(pools, k - 1);
        assert(pools[k - 1].size() == 2);
    }
}

/// The balance terms of the first `k` pools name variables of those pools.
proof fn lemma_balance_terms_wf(pools: Seq<Pool>, asset: Token, k: int, n_vars: nat)
    requires
        0 <= k <= pools.len(),
        var_offset(pools, pools.len() as int) <= n_vars <= usize::MAX,
    ensures
        forall|i: int|
            0 <= i < balance_terms(pools, asset, k).len() ==> term_wf(
                #[trigger] balance_terms(pools, asset, k)[i],
                n_vars,
            ),
    decreases k,
{
    if k > 0 {
        lemma_balance_terms_wf(pools, asset, k - 1, n_vars);
        lemma_var_offset_grows(pools, k - 1, pools.len() as int);
        lemma_var_offset_grows(pools, k, pools.len() as int);
        lemma_offset_step(pools, k - 1);
        let before = balance_terms(pools, asset, k - 1);
        let own = balance_terms_of(pools[k - 1], var_offset(pools, k - 1), asset);
        let all = balance_terms(pools, asset, k);
        assert forall|i: int| 0 <= i < all.len() implies term_wf(#[trigger] all[i], n_vars) by {
            if i < before.len() {
                assert(all[i] == before[i]);
            } else {
                assert(all[i] == own[i - before.len()]);
            }
        }
    }
}

/// In cone form every constant-product pool has its one cone block, in the
/// order of the pools.
pub proof fn lemma_cone_of_each_pool(pools: Seq<Pool>, config: BuildConfig, j: int)
    requires
        0 <= j <= pools.len(),
        config.formulation == Formulation::SecondOrderCone,
        forall|i: int| 0 <= i < pools.len() ==> (#[trigger] pools[i]).kind is ConstantProduct,
    ensures
        pool_cones(pools, config, j).len() == j,
        forall|i: int|
            0 <= i < j ==> #[trigger] pool_cones(pools, config, j)[i] == pools[i].product_cone(
                var_offset(pools, i) as usize,
            ),
    decreases j,
{
    if j > 0 {
        lemma_cone_of_each_pool(pools, config, j - 1);
        assert(pools[j - 1].kind is ConstantProduct);
        let before = pool_cones(pools, config, j - 1);
        let own = pools[j - 1].cones(var_offset(pools, j - 1) as usize, config);
        let all = pool_cones(pools, config, j);
        assert(all == before + own);
        assert forall|i: int| 0 <= i < j implies #[trigger] all[i] == pools[i].product_cone(
            var_offset(pools, i) as usize,
        ) by {
            if i < j - 1 {
                assert(all[i] == before[i]);
            } else {
                assert(all[i] == own[0]);
            }
        }
    }
}

/// What a flow problem admits: in every trade that its system admits no
/// trade variable is negative, and in cone form no pool's product of
/// reserves is lowered, nor a reserve left negative.
pub proof fn lemma_flow_admits(
    problem: FlowProblem,
    pools: Seq<UniV2Pool>,
    assets: Seq<Token>,
    start: Token,
    config: BuildConfig,
    x: Seq<real>,
    k: int,
)
    requires
        flow_error(pools, assets, start, config) is None,
        is_flow_problem(problem, pools, assets, start, config),
        problem.system.admits(x),
        0 <= k < pools.len(),
    ensures
        forall|v: int| 0 <= v < 4 ==> #[trigger] x[4 * k + v] >= 0real,
        config.formulation == Formulation::SecondOrderCone ==> problem.pools@[k].product_kept(
            (4 * k) as usize,
            x,
        ),
{
    let own = problem.pools@;
    let system = problem.system;
    let n = own.len() as int;
    assert forall|i: int| 0 <= i < own.len() implies (#[trigger] own[i]).size() == 2 by {
        assert(stands_for(own[i], pools[i], i));
    }
    lemma_four_apart(own, k);
    lemma_four_apart(own, n);
    let offset = (4 * k) as usize;
    let rows = rows_view(system.inequalities@);
    let pool_part = pool_rows(own, config, n);
    assert(rows.len() == system.inequalities@.len());
    assert forall|v: int| 0 <= v < 4 implies #[trigger] x[4 * k + v] >= 0real by {
        let row = own[k].sign_row(offset, v);
        lemma_sign_row_is_built(own[k], offset, config, v);
        lemma_pool_rows_are_kept(own, config, n, k, row);
        let at = choose|at: int| 0 <= at < pool_part.len() && pool_part[at] == row;
        assert(rows[at] == row);
        assert(rows[at] == system.inequalities@[at]@);
        assert(row_holds(system.inequalities@[at]@, x));
        lemma_sign_row(own[k], offset, v, x);
    }
    if config.formulation == Formulation::SecondOrderCone {
        assert forall|i: int| 0 <= i < own.len() implies (#[trigger] own[i]).kind is ConstantProduct by {
            assert(stands_for(own[i], pools[i], i));
        }
        lemma_cone_of_each_pool(own, config, n);
        let cones = cones_view(system.cones@);
        assert(cones.len() == system.cones@.len());
        assert(cones[k] == system.cones@[k]@);
        assert(cone_holds(system.cones@[k]@, x));
        assert(stands_for(own[k], pools[k], k));
        assert(pools[k].valid());
        assert(own[k].valid()) by {
            assert forall|j: int| 0 <= j < own[k].reserves@.len() implies #[trigger] own[k].reserves@[j]
                > 0 by {
                if j == 0 {
                } else {
                    assert(j == 1);
                }
            }
        }
        lemma_cone_keeps_product(own[k], offset, x);
    }
}

/// Builds the flow problem of `pools` with `start` as the token to gain.
///
/// Every pool gets four trade variables and the rows or cone block of its
/// invariant, as `config` says, with the rows that keep its reserves and its
/// trade variables from going negative. Each of the `assets`, which are the
/// tokens other than `start` that the pools trade, gets one balance row. The
/// objective, to be maximised, is what the trade takes out of the pools of
/// `start` less what it pays in.
pub fn prepare_lp_data(
    pools: &Vec<UniV2Pool>,
    assets: &[Token],
    start: Token,
    config: BuildConfig,
) -> (built: Result<FlowProblem, ArbError>)
    ensures
        match built {
            Ok(problem) => {
                &&& flow_error(pools@, assets@, start, config) is None
                &&& is_flow_problem(problem, pools@, assets@, start, config)
                &&& problem.system.wf()
            },
            Err(e) => flow_error(pools@, assets@, start, config) == Some(e),
        },
{
    let n = pools.len();
    if n == 0 {
        return Err(ArbError::MalformedConfiguration);
    }
    let mut p: usize = 0;
    while p < n
        invariant
            p <= n,
            n == pools@.len(),
            forall|i: int| 0 <= i < p ==> (#[trigger] pools@[i]).valid(),
        decreases n - p,
    {
        if pools[p].validate().is_err() {
            return Err(ArbError::InvalidPoolInvariant);
        }
        p += 1;
    }
    let mut a: usize = 0;
    while a < assets.len()
        invariant
            a <= assets@.len(),
            n == pools@.len(),
            n > 0,
            forall|i: int| 0 <= i < n ==> (#[trigger] pools@[i]).valid(),
            forall|i: int| 0 <= i < a ==> assets@[i] != start,
        decreases assets.len() - a,
    {
        if assets[a] == start {
            assert(assets@[a as int] == start);
            return Err(ArbError::MalformedConfiguration);
        }
        a += 1;
    }
    match config.trade_cap {
        Some(cap) => {
            if cap == 0 || cap > FEE_DENOMINATOR {
                return Err(ArbError::MalformedConfiguration);
            }
        },
        None => {},
    }
    if n > usize::MAX / 4 {
        return Err(ArbError::Overflow);
    }
    assert(flow_error(pools@, assets@, start, config) is None);
    let mut own: Vec<Pool> = Vec::new();
    let mut k: usize = 0;
    while k < n
        invariant
            k <= n,
            n == pools@.len(),
            own@.len() == k,
            forall|i: int| 0 <= i < n ==> (#[trigger] pools@[i]).valid(),
            forall|i: int| 0 <= i < k ==> stands_for(#[trigger] own@[i], pools@[i], i),
            forall|i: int| 0 <= i < k ==> (#[trigger] own@[i]).valid(),
        decreases n - k,
    {
        assert(pools@[k as int].valid());
        own.push(pools[k].to_pool(k as u64));
        k += 1;
    }
    proof {
        assert forall|i: int| 0 <= i < own@.len() implies (#[trigger] own@[i]).size() == 2 by {
            assert(stands_for(own@[i], pools@[i], i));
        }
        lemma_four_apart(own@, n as int);
    }
    let (offsets, total) = match lay_out(&own) {
        Some(laid) => laid,
        None => {
            assert(false);
            return Err(ArbError::Overflow);
        },
    };
    let mut system = pool_parts(&own, &offsets, total, start, config);
    let ghost pool_part = rows_view(system.inequalities@);
    let mut a: usize = 0;
    assert(rows_view(system.inequalities@) =~= pool_part + Seq::new(
        0,
        |i: int| balance_row(own@, assets@[i]),
    ));
    while a < assets.len()
        invariant
            a <= assets@.len(),
            n == own@.len(),
            offsets@.len() == n,
            total == var_offset(own@, n as int),
            total == 4 * n,
            forall|i: int| 0 <= i < n ==> #[trigger] offsets@[i] == var_offset(own@, i),
            forall|i: int| 0 <= i < n ==> (#[trigger] own@[i]).valid(),
            system.n_vars == total,
            system.objective@ == pool_objectives(own@, start, n as int),
            system.equalities@.len() == 0,
            cones_view(system.cones@) == pool_cones(own@, config, n as int),
            pool_part == pool_rows(own@, config, n as int),
            rows_view(system.inequalities@) == pool_part + Seq::new(
                a as nat,
                |i: int| balance_row(own@, assets@[i]),
            ),
        decreases assets.len() - a,
    {
        let asset = assets[a];
        let mut terms: Vec<Term> = Vec::new();
        let mut k: usize = 0;
        while k < n
            invariant
                k <= n,
                n == own@.len(),
                offsets@.len() == n,
                total == var_offset(own@, n as int),
                forall|i: int| 0 <= i < n ==> #[trigger] offsets@[i] == var_offset(own@, i),
                forall|i: int| 0 <= i < n ==> (#[trigger] own@[i]).valid(),
                terms@ == balance_terms(own@, asset, k as int),
            decreases n - k,
        {
            let pool = &own[k];
            let size = pool.reserves.len();
            let offset = offsets[k];
            proof {
                lemma_var_offset_grows(own@, k + 1, n as int);
                lemma_offset_step(own@, k as int);
                assert(own@[k as int].valid());
            }
            let ghost before = terms@;
            let mut v: usize = 0;
            while v < 2 * size
                invariant
                    v <= 2 * size,
                    size == pool.size(),
                    size == pool.tokens@.len(),
                    offset == var_offset(own@, k as int),
                    offset + 2 * size <= usize::MAX,
                    terms@ == before + balance_terms_of(*pool, offset as int, asset).take(v as int),
                decreases 2 * size - v,
            {
                assert(v / 2 < size) by (nonlinear_arith)
                    requires
                        v < 2 * size,
                ;
                let weight: u128 = if pool.tokens[v / 2] == asset {
                    1
                } else {
                    0
                };
                terms.push(Term { var: offset + v, coeff: Ratio::new(v % 2 == 0, weight, 1, 1, 1) });
                assert(terms@ =~= before + balance_terms_of(*pool, offset as int, asset).take(
                    v + 1,
                ));
                v += 1;
            }
            assert(balance_terms_of(*pool, offset as int, asset).take(2 * size as int)
                == balance_terms_of(*pool, offset as int, asset));
            k += 1;
        }
        let row = Row { terms, bound: Ratio::whole(0) };
        assert(row@ == balance_row(own@, asset));
        let ghost held = row@;
        let ghost before = rows_view(system.inequalities@);
        system.inequalities.push(row);
        assert(rows_view(system.inequalities@) =~= before.push(held));
        assert(rows_view(system.inequalities@) =~= pool_part + Seq::new(
            (a + 1) as nat,
            |i: int| balance_row(own@, assets@[i]),
        ));
        a += 1;
    }
    proof {
        lemma_pools_wf(start, own@, config, n as int);
        let rows = rows_view(system.inequalities@);
        let balance = Seq::new(assets@.len(), |i: int| balance_row(own@, assets@[i]));
        assert(rows == pool_part + balance);
        assert(rows.len() == system.inequalities@.len());
        assert forall|i: int| 0 <= i < system.inequalities@.len() implies row_wf(
            (#[trigger] system.inequalities@[i])@,
            system.n_vars as nat,
        ) by {
            assert(rows[i] == system.inequalities@[i]@);
            if i < pool_part.len() {
                assert(rows[i] == pool_part[i]);
            } else {
                let at = i - pool_part.len();
                assert(rows[i] == balance[at]);
                lemma_balance_terms_wf(own@, assets@[at], n as int, system.n_vars as nat);
            }
        }
        let cones = cones_view(system.cones@);
        assert forall|i: int| 0 <= i < system.cones@.len() implies cone_wf(
            (#[trigger] system.cones@[i])@,
            system.n_vars as nat,
        ) by {
            assert(cones[i] == system.cones@[i]@);
        }
    }
    Ok(FlowProblem { pools: own, system })
}

/// The four trade variables of pool `k` in a solution: taken out and paid in
/// of its first token, taken out and paid in of its second.
pub open spec fn pool_trade(amounts: Seq<u128>, k: int) -> (u128, u128, u128, u128) {
    (amounts[4 * k], amounts[4 * k + 1], amounts[4 * k + 2], amounts[4 * k + 3])
}

/// The one way in which a trade crosses its pool, if it is one way: whether
/// it pays the first token in, how much it pays in and how much it takes
/// out. A trade that pays in or takes out on both sides has none.
pub open spec fn crossing(trade: (u128, u128, u128, u128)) -> Option<(bool, u128, u128)> {
    if trade.0 == 0 && trade.3 == 0 {
        Some((true, trade.1, trade.2))
    } else if trade.2 == 0 && trade.1 == 0 {
        Some((false, trade.3, trade.0))
    } else {
        None
    }
}

/// The trade crosses the pool one way and takes out no more than the swap
/// formula pays for what it pays in.
pub open spec fn sound_trade(pool: UniV2Pool, trade: (u128, u128, u128, u128)) -> bool {
    crossing(trade) matches Some((forth, paid, taken)) && (pool.quote(paid, forth) matches Ok(most)
        && taken <= most)
}

/// What the first `k` pools give out of `start`, all told.
pub open spec fn start_taken(pools: Seq<UniV2Pool>, start: Token, amounts: Seq<u128>, k: int) -> int
    decreases k,
{
    if k <= 0 {
        0
    } else {
        let trade = pool_trade(amounts, k - 1);
        start_taken(pools, start, amounts, k - 1) + (if pools[k - 1].token0 == start {
            trade.0 as int
        } else {
            0
        }) + (if pools[k - 1].token1 == start {
            trade.2 as int
        } else {
            0
        })
    }
}

/// What the first `k` pools are paid of `start`, all told.
pub open spec fn start_paid(pools: Seq<UniV2Pool>, start: Token, amounts: Seq<u128>, k: int) -> int
    decreases k,
{
    if k <= 0 {
        0
    } else {
        let trade = pool_trade(amounts, k - 1);
        start_paid(pools, start, amounts, k - 1) + (if pools[k - 1].token0 == start {
            trade.1 as int
        } else {
            0
        }) + (if pools[k - 1].token1 == start {
            trade.3 as int
        } else {
            0
        })
    }
}

/// Of the first `k` pools, those that are paid more than `threshold`, each
/// as the token paid in and the token taken out, with the amount paid in.
pub open spec fn active_flows(
    pools: Seq<UniV2Pool>,
    amounts: Seq<u128>,
    threshold: u128,
    k: int,
) -> Seq<((Token, Token), u128)>
    decreases k,
{
    if k <= 0 {
        Seq::empty()
    } else {
        let before = active_flows(pools, amounts, threshold, k - 1);
        match crossing(pool_trade(amounts, k - 1)) {
            Some((forth, paid, taken)) => if paid > threshold {
                before.push(
                    (
                        if forth {
                            (pools[k - 1].token0, pools[k - 1].token1)
                        } else {
                            (pools[k - 1].token1, pools[k - 1].token0)
                        },
                        paid,
                    ),
                )
            } else {
                before
            },
            None => before,
        }
    }
}

/// The solution can be read: it has four amounts per pool, every pool's
/// trade is sound, and the totals of the start token fit 128 bits.
pub open spec fn readable(pools: Seq<UniV2Pool>, start: Token, amounts: Seq<u128>) -> bool {
    &&& amounts.len() == 4 * pools.len()
    &&& forall|k: int| 0 <= k < pools.len() ==> sound_trade(#[trigger] pools[k], pool_trade(amounts, k))
    &&& start_taken(pools, start, amounts, pools.len() as int) <= u128::MAX
    &&& start_paid(pools, start, amounts, pools.len() as int) <= u128::MAX
}

/// The profit of a solution in the start token.
pub open spec fn flow_profit(pools: Seq<UniV2Pool>, start: Token, amounts: Seq<u128>) -> int {
    start_taken(pools, start, amounts, pools.len() as int) - start_paid(
        pools,
        start,
        amounts,
        pools.len() as int,
    )
}

/// Reads a solution of the flow problem of `pools`: `amounts` has the four
/// trade variables of each pool, in whole units.
///
/// A path is reported only if every pool's trade is sound, so that no
/// reported trade lowers the product of a pool's reserves, and if the profit
/// in the start token is above `threshold`. It lists the pools that are paid
/// more than `threshold`, with what they are paid, and the profit.
pub fn find_arbitrage(pools: &Vec<UniV2Pool>, start: Token, amounts: &[u128], threshold: u128) -> (found:
    Option<ArbitragePath>)
    ensures
        found is Some <==> readable(pools@, start, amounts@) && flow_profit(pools@, start, amounts@)
            > threshold && active_flows(pools@, amounts@, threshold, pools@.len() as int).len() > 0,
        found matches Some(path) ==> {
            let flows = active_flows(pools@, amounts@, threshold, pools@.len() as int);
            &&& path.pools@ == flows.map_values(|flow: ((Token, Token), u128)| flow.0)
            &&& path.amounts@ == flows.map_values(|flow: ((Token, Token), u128)| flow.1)
            &&& path.profit == flow_profit(pools@, start, amounts@)
        },
{
    let n = pools.len();
    let given = amounts.len();
    if n > usize::MAX / 4 {
        assert(given == amounts@.len() && 4 * n > given);
        return None;
    }
    if given != 4 * n {
        return None;
    }
    let mut active: Vec<(Token, Token)> = Vec::new();
    let mut flows: Vec<u128> = Vec::new();
    let mut taken_total: u128 = 0;
    let mut paid_total: u128 = 0;
    let mut k: usize = 0;
    while k < n
        invariant
            k <= n,
            n == pools@.len(),
            4 * n <= usize::MAX,
            amounts@.len() == 4 * n,
            forall|i: int| 0 <= i < k ==> sound_trade(#[trigger] pools@[i], pool_trade(amounts@, i)),
            taken_total == start_taken(pools@, start, amounts@, k as int),
            paid_total == start_paid(pools@, start, amounts@, k as int),
            active@ == active_flows(pools@, amounts@, threshold, k as int).map_values(
                |flow: ((Token, Token), u128)| flow.0,
            ),
            flows@ == active_flows(pools@, amounts@, threshold, k as int).map_values(
                |flow: ((Token, Token), u128)| flow.1,
            ),
        decreases n - k,
    {
        let pool = pools[k];
        let trade = (amounts[4 * k], amounts[4 * k + 1], amounts[4 * k + 2], amounts[4 * k + 3]);
        assert(trade == pool_trade(amounts@, k as int));
        let (forth, paid, taken) = if trade.0 == 0 && trade.3 == 0 {
            (true, trade.1, trade.2)
        } else if trade.2 == 0 && trade.1 == 0 {
            (false, trade.3, trade.0)
        } else {
            assert(!sound_trade(pools@[k as int], pool_trade(amounts@, k as int)));
            return None;
        };
        match pool.swap_output(paid, forth) {
            Ok(most) => {
                if taken > most {
                    assert(!sound_trade(pools@[k as int], pool_trade(amounts@, k as int)));
                    return None;
                }
            },
            Err(_) => {
                assert(!sound_trade(pools@[k as int], pool_trade(amounts@, k as int)));
                return None;
            },
        }
        proof {
            lemma_totals_grow(pools@, start, amounts@, k + 1, n as int);
        }
        let out0: u128 = if pool.token0 == start {
            trade.0
        } else {
            0
        };
        let out1: u128 = if pool.token1 == start {
            trade.2
        } else {
            0
        };
        let in0: u128 = if pool.token0 == start {
            trade.1
        } else {
            0
        };
        let in1: u128 = if pool.token1 == start {
            trade.3
        } else {
            0
        };
        let next_taken = match taken_total.checked_add(out0) {
            Some(sum) => sum.checked_add(out1),
            None => None,
        };
        let next_paid = match paid_total.checked_add(in0) {
            Some(sum) => sum.checked_add(in1),
            None => None,
        };
        match (next_taken, next_paid) {
            (Some(t), Some(p)) => {
                taken_total = t;
                paid_total = p;
            },
            _ => {
                return None;
            },
        }
        let ghost before = active_flows(pools@, amounts@, threshold, k as int);
        if paid > threshold {
            let pair = if forth {
                (pool.token0, pool.token1)
            } else {
                (pool.token1, pool.token0)
            };
            active.push(pair);
            flows.push(paid);
            assert(active@ =~= before.push((pair, paid)).map_values(
                |flow: ((Token, Token), u128)| flow.0,
            ));
            assert(flows@ =~= before.push((pair, paid)).map_values(
                |flow: ((Token, Token), u128)| flow.1,
            ));
        }
        k += 1;
    }
    if taken_total <= paid_total || taken_total - paid_total <= threshold || active.len() == 0 {
        return None;
    }
    Some(ArbitragePath { pools: active, amounts: flows, profit: taken_total - paid_total })
}

/// The totals of the start token never fall as more pools are counted.
pub proof fn lemma_totals_grow(
    pools: Seq<UniV2Pool>,
    start: Token,
    amounts: Seq<u128>,
    upto: int,
    all: int,
)
    requires
        0 <= upto <= all,
    ensures
        0 <= start_taken(pools, start, amounts, upto) <= start_taken(pools, start, amounts, all),
        0 <= start_paid(pools, start, amounts, upto) <= start_paid(pools, start, amounts, all),
    decreases all,
{
    if upto < all {
        lemma_totals_grow(pools, start, amounts, upto, all - 1);
    } else if upto > 0 {
        lemma_totals_grow(pools, start, amounts, upto - 1, upto - 1);
    }
}

/// A sound trade keeps the product of its pool's reserves: with the fee
/// taken off what is paid in, the product after the trade is no smaller than
/// before.
pub proof fn lemma_sound_trade_keeps_product(pool: UniV2Pool, trade: (u128, u128, u128, u128))
    requires
        sound_trade(pool, trade),
    ensures
        pool.valid(),
        crossing(trade) matches Some((forth, paid, taken)) && pool.keeps_product(
            paid as int,
            taken as int,
            forth,
        ),
{
    let (forth, paid, taken) = crossing(trade)->Some_0;
    lemma_quote_is_largest_output(pool, paid as nat, taken as nat, forth);
}

} // verus!
