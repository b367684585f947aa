//! The constraints that a pool's trading invariant puts on a trade.
//!
//! A pool with `n` tokens has `2 n` trade variables from a given offset on:
//! for token `j`, `lambda_j` at `offset + 2 j` is the amount taken out of the
//! pool and `delta_j` at `offset + 2 j + 1` the amount paid in, before the
//! fee. With `f` the share of a deposit that the fee leaves, the reserve of
//! token `j` after the trade is `reserve_j + f * delta_j - lambda_j`.

use vstd::prelude::*;
use crate::pool::ArbError;
use crate::pool::FEE_DENOMINATOR;
use crate::pool::UniV2Pool;
use crate::system::Affine;
use crate::system::AffineForm;
use crate::system::Cone;
use crate::system::ConeBlock;
use crate::system::LinearRow;
use crate::system::Ratio;
use crate::system::Row;
use crate::system::Term;
use crate::system::cones_view;
use crate::system::rows_view;
use crate::token::Token;

verus! {

/// The total of a weighted pool's weights, which are given in basis points.
pub const WEIGHT_TOTAL: u64 = 10000;

/// The trading invariant of a pool.
#[derive(Clone, Debug, PartialEq, Eq)]
pub enum PoolKind {
    /// The product of the two reserves never falls.
    ConstantProduct,
    /// The weighted geometric mean of the reserves never falls; one weight
    /// per token, in basis points.
    WeightedGeometricMean(Vec<u64>),
    /// The sum of the reserves never falls.
    ConstantSum,
}

/// A liquidity pool: its tokens, the reserve of each, the trading fee in
/// basis points and its invariant.
#[derive(Clone, Debug, PartialEq, Eq)]
pub struct Pool {
    pub id: u64,
    pub tokens: Vec<Token>,
    pub reserves: Vec<u128>,
    pub fee: u64,
    pub kind: PoolKind,
}

/// How a constant-product invariant is stated.
#[derive(Clone, Copy, Debug, PartialEq, Eq, Structural)]
pub enum Formulation {
    /// One linear inequality, the tangent to the invariant at the current
    /// reserves. It admits every trade that the invariant admits and some
    /// that it does not.
    Tangent,
    /// A second-order cone that admits exactly the trades that the
    /// invariant admits.
    SecondOrderCone,
}

/// What is chosen when a pool's constraints are built.
#[derive(Clone, Copy, Debug, PartialEq, Eq, Structural)]
pub struct BuildConfig {
    /// How a constant-product invariant is stated.
    pub formulation: Formulation,
    /// If set, no trade variable may exceed this share of its token's
    /// reserve, in basis points; it keeps a trade where the linear rows are
    /// a fair approximation.
    pub trade_cap: Option<u64>,
}

/// What one pool adds to a system.
#[derive(Debug, PartialEq, Eq)]
pub struct PoolConstraints {
    /// Rows of `G x <= h`.
    pub rows: Vec<Row>,
    /// Second-order cone blocks.
    pub cones: Vec<ConeBlock>,
    /// Terms of the objective.
    pub objective: Vec<Term>,
    /// Whether the constraints admit exactly the trades that the pool's
    /// invariant admits, rather than a linear approximation of them.
    pub exact: bool,
}

impl UniV2Pool {
    /// The pool as a constant-product pool under the identifier `id`, with
    /// its first token first.
    pub fn to_pool(&self, id: u64) -> (pool: Pool)
        ensures
            pool.id == id,
            pool.tokens@ == seq![self.token0, self.token1],
            pool.reserves@ == seq![self.reserve0, self.reserve1],
            pool.fee == self.router_fee,
            pool.kind is ConstantProduct,
            pool.valid() <==> self.valid(),
    {
        let mut tokens: Vec<Token> = Vec::new();
        tokens.push(self.token0);
        tokens.push(self.token1);
        let mut reserves: Vec<u128> = Vec::new();
        reserves.push(self.reserve0);
        reserves.push(self.reserve1);
        let pool = Pool {
            id,
            tokens,
            reserves,
            fee: self.router_fee,
            kind: PoolKind::ConstantProduct,
        };
        assert(pool.tokens@ =~= seq![self.token0, self.token1]);
        assert(pool.reserves@ =~= seq![self.reserve0, self.reserve1]);
        proof {
            if self.valid() {
                assert forall|j: int| 0 <= j < pool.reserves@.len() implies #[trigger] pool.reserves@[j]
                    > 0 by {
                    if j == 0 {
                    } else {
                    }
                }
            } else if pool.valid() {
                assert(pool.reserves@[0] > 0);
                assert(pool.reserves@[1] > 0);
            }
        }
        pool
    }
}

/// The sum of the weights.
pub open spec fn weight_sum(weights: Seq<u64>) -> int
    decreases weights.len(),
{
    if weights.len() == 0 {
        0
    } else {
        weight_sum(weights.drop_last()) + weights.last()
    }
}

impl Pool {
    /// The number of tokens.
    pub open spec fn size(&self) -> nat {
        self.reserves@.len()
    }

    /// What is left of a deposit of 10000 after the trading fee.
    pub open spec fn keep(&self) -> int {
        FEE_DENOMINATOR - self.fee
    }

    /// The pool invariant: at least two tokens, a positive reserve for each,
    /// a fee of at most the whole deposit; a constant-product pool has
    /// exactly two tokens, and a weighted pool as many weights as tokens,
    /// adding up to the total.
    pub open spec fn valid(&self) -> bool {
        &&& self.tokens@.len() == self.reserves@.len()
        &&& self.reserves@.len() >= 2
        &&& forall|j: int| 0 <= j < self.reserves@.len() ==> #[trigger] self.reserves@[j] > 0
        &&& self.fee <= FEE_DENOMINATOR
        &&& match self.kind {
            PoolKind::ConstantProduct => self.reserves@.len() == 2,
            PoolKind::WeightedGeometricMean(weights) => weights@.len() == self.reserves@.len()
                && weight_sum(weights@) == WEIGHT_TOTAL,
            PoolKind::ConstantSum => true,
        }
    }

    /// The coefficient of `lambda_j` in the pool's linear invariant row.
    pub open spec fn out_coeff(&self, j: int) -> Ratio {
        match self.kind {
            PoolKind::ConstantProduct => Ratio {
                negative: false,
                num: self.reserves@[1 - j],
                num_scale: 1,
                den: 1,
                den_scale: 1,
            },
            PoolKind::WeightedGeometricMean(_) => Ratio {
                negative: false,
                num: 1,
                num_scale: 1,
                den: self.reserves@[j],
                den_scale: self.size() as u128,
            },
            PoolKind::ConstantSum => Ratio {
                negative: false,
                num: 1,
                num_scale: 1,
                den: 1,
                den_scale: 1,
            },
        }
    }

    /// The coefficient of `delta_j` in the pool's linear invariant row.
    pub open spec fn in_coeff(&self, j: int) -> Ratio {
        match self.kind {
            PoolKind::ConstantProduct => Ratio {
                negative: true,
                num: self.reserves@[1 - j],
                num_scale: self.keep() as u128,
                den: 1,
                den_scale: FEE_DENOMINATOR as u128,
            },
            PoolKind::WeightedGeometricMean(_) => Ratio {
                negative: true,
                num: self.keep() as u128,
                num_scale: 1,
                den: self.reserves@[j],
                den_scale: (self.size() * FEE_DENOMINATOR) as u128,
            },
            PoolKind::ConstantSum => Ratio {
                negative: true,
                num: self.keep() as u128,
                num_scale: 1,
                den: 1,
                den_scale: FEE_DENOMINATOR as u128,
            },
        }
    }

    /// The pool's linear invariant row, `G x <= 0` with one term per trade
    /// variable.
    ///
    /// - Constant product: `reserve_1 * (f delta_0 - lambda_0) + reserve_0 *
    ///   (f delta_1 - lambda_1) >= 0`, the tangent to the product at the
    ///   current reserves. For a swap one way this is `reserve_out * f *
    ///   delta_in - reserve_in * lambda_out >= 0`.
    /// - Weighted geometric mean: `sum_j (f delta_j - lambda_j) / (n *
    ///   reserve_j) >= 0`, a first-order approximation that is only good for
    ///   trades that are small against the reserves.
    /// - Constant sum: `sum_j (f delta_j - lambda_j) >= 0`, which is exact.
    pub open spec fn invariant_row(&self, offset: usize) -> LinearRow {
        LinearRow {
            terms: Seq::new(
                2 * self.size(),
                |v: int|
                    Term {
                        var: (offset + v) as usize,
                        coeff: if v % 2 == 0 {
                            self.out_coeff(v / 2)
                        } else {
                            self.in_coeff(v / 2)
                        },
                    },
            ),
            bound: Ratio { negative: false, num: 0, num_scale: 1, den: 1, den_scale: 1 },
        }
    }

    /// `(f delta_j - lambda_j) / reserve_j`, the relative change of reserve
    /// `j`, as an affine form without constant; negated if `negative`.
    pub open spec fn relative_change(&self, offset: usize, j: int, negative: bool) -> Seq<Term> {
        seq![
            Term {
                var: (offset + 2 * j) as usize,
                coeff: Ratio {
                    negative: !negative,
                    num: 1,
                    num_scale: 1,
                    den: self.reserves@[j],
                    den_scale: 1,
                },
            },
            Term {
                var: (offset + 2 * j + 1) as usize,
                coeff: Ratio {
                    negative,
                    num: self.keep() as u128,
                    num_scale: 1,
                    den: self.reserves@[j],
                    den_scale: FEE_DENOMINATOR as u128,
                },
            },
        ]
    }

    /// The second-order cone of a constant-product pool. With `a` and `b`
    /// the two reserves after the trade, each divided by the reserve before
    /// it, the cone says that the norm of `(2, a - b)` is at most `a + b`,
    /// which holds exactly when `a * b >= 1` with neither negative.
    pub open spec fn product_cone(&self, offset: usize) -> Cone {
        let two = Ratio { negative: false, num: 2, num_scale: 1, den: 1, den_scale: 1 };
        let zero = Ratio { negative: false, num: 0, num_scale: 1, den: 1, den_scale: 1 };
        Cone {
            rows: seq![
                AffineForm { terms: Seq::empty(), offset: two },
                AffineForm {
                    terms: self.relative_change(offset, 0, false) + self.relative_change(
                        offset,
                        1,
                        true,
                    ),
                    offset: zero,
                },
            ],
            bound: AffineForm {
                terms: self.relative_change(offset, 0, false) + self.relative_change(
                    offset,
                    1,
                    false,
                ),
                offset: two,
            },
        }
    }

    /// The invariant is stated as a cone rather than as a linear row.
    pub open spec fn uses_cone(&self, formulation: Formulation) -> bool {
        self.kind is ConstantProduct && formulation == Formulation::SecondOrderCone
    }

    /// The constraints say exactly what the invariant says: always for a
    /// constant sum, for a constant product in its cone form, never for a
    /// weighted geometric mean.
    pub open spec fn stated_exactly(&self, formulation: Formulation) -> bool {
        self.kind is ConstantSum || self.uses_cone(formulation)
    }

    /// The row that keeps reserve `j` from going negative: `lambda_j - f
    /// delta_j <= reserve_j`.
    pub open spec fn reserve_row(&self, offset: usize, j: int) -> LinearRow {
        LinearRow {
            terms: seq![
                Term {
                    var: (offset + 2 * j) as usize,
                    coeff: Ratio { negative: false, num: 1, num_scale: 1, den: 1, den_scale: 1 },
                },
                Term {
                    var: (offset + 2 * j + 1) as usize,
                    coeff: Ratio {
                        negative: true,
                        num: self.keep() as u128,
                        num_scale: 1,
                        den: 1,
                        den_scale: FEE_DENOMINATOR as u128,
                    },
                },
            ],
            bound: Ratio {
                negative: false,
                num: self.reserves@[j],
                num_scale: 1,
                den: 1,
                den_scale: 1,
            },
        }
    }

    /// The row that keeps trade variable `v` from going negative.
    pub open spec fn sign_row(&self, offset: usize, v: int) -> LinearRow {
        LinearRow {
            terms: seq![
                Term {
                    var: (offset + v) as usize,
                    coeff: Ratio { negative: true, num: 1, num_scale: 1, den: 1, den_scale: 1 },
                },
            ],
            bound: Ratio { negative: false, num: 0, num_scale: 1, den: 1, den_scale: 1 },
        }
    }

    /// The row that keeps trade variable `v` within `cap` basis points of
    /// its token's reserve.
    pub open spec fn cap_row(&self, offset: usize, v: int, cap: u64) -> LinearRow {
        LinearRow {
            terms: seq![
                Term {
                    var: (offset + v) as usize,
                    coeff: Ratio { negative: false, num: 1, num_scale: 1, den: 1, den_scale: 1 },
                },
            ],
            bound: Ratio {
                negative: false,
                num: self.reserves@[v / 2],
                num_scale: cap as u128,
                den: 1,
                den_scale: FEE_DENOMINATOR as u128,
            },
        }
    }

    /// The rows that the pool adds to `G x <= h`: its invariant row unless
    /// the invariant is stated as a cone, then one row per token that keeps
    /// the reserve from going negative, one row per trade variable that
    /// keeps the variable from going negative and, with a trade cap, one row
    /// per trade variable for the cap.
    pub open spec fn rows(&self, offset: usize, config: BuildConfig) -> Seq<LinearRow> {
        let first = if self.uses_cone(config.formulation) {
            Seq::empty()
        } else {
            seq![self.invariant_row(offset)]
        };
        let reserves = Seq::new(self.size(), |j: int| self.reserve_row(offset, j));
        let signs = Seq::new(2 * self.size(), |v: int| self.sign_row(offset, v));
        let caps = match config.trade_cap {
            Some(cap) => Seq::new(2 * self.size(), |v: int| self.cap_row(offset, v, cap)),
            None => Seq::empty(),
        };
        first + reserves + signs + caps
    }

    /// The cone blocks that the pool adds.
    pub open spec fn cones(&self, offset: usize, config: BuildConfig) -> Seq<Cone> {
        if self.uses_cone(config.formulation) {
            seq![self.product_cone(offset)]
        } else {
            Seq::empty()
        }
    }

    /// The pool's share of the objective, `sum_j value_j * (lambda_j -
    /// delta_j)`: the value that the trade takes out of the pool.
    pub open spec fn objective(&self, offset: usize, market_values: Seq<u128>) -> Seq<Term> {
        Seq::new(
            2 * self.size(),
            |v: int|
                Term {
                    var: (offset + v) as usize,
                    coeff: Ratio {
                        negative: v % 2 == 1,
                        num: market_values[v / 2],
                        num_scale: 1,
                        den: 1,
                        den_scale: 1,
                    },
                },
        )
    }

    /// Why no constraints can be built, if so: the pool is invalid; or there
    /// is not one market value per token, or the trade cap is not between 1
    /// and 10000 basis points; or the trade variables do not fit the index
    /// type.
    pub open spec fn build_error(
        &self,
        offset: usize,
        market_values: Seq<u128>,
        config: BuildConfig,
    ) -> Option<ArbError> {
        if !self.valid() {
            Some(ArbError::InvalidPoolInvariant)
        } else if market_values.len() != self.size() || (config.trade_cap matches Some(cap) && (cap
            == 0 || cap > FEE_DENOMINATOR)) {
            Some(ArbError::MalformedConfiguration)
        } else if offset + 2 * self.size() > usize::MAX {
            Some(ArbError::Overflow)
        } else {
            None
        }
    }

    /// Checks the pool invariant.
    pub fn validate(&self) -> (checked: Result<(), ArbError>)
        ensures
            checked is Ok <==> self.valid(),
            checked is Err ==> checked == Err::<(), ArbError>(ArbError::InvalidPoolInvariant),
    {
        let n = self.reserves.len();
        if self.tokens.len() != n || n < 2 || self.fee > FEE_DENOMINATOR {
            return Err(ArbError::InvalidPoolInvariant);
        }
        let mut j: usize = 0;
        while j < n
            invariant
                n == self.reserves@.len(),
                j <= n,
                forall|k: int| 0 <= k < j ==> #[trigger] self.reserves@[k] > 0,
            decreases n - j,
        {
            if self.reserves[j] == 0 {
                return Err(ArbError::InvalidPoolInvariant);
            }
            j += 1;
        }
        match &self.kind {
            PoolKind::ConstantProduct => {
                if n != 2 {
                    return Err(ArbError::InvalidPoolInvariant);
                }
            },
            PoolKind::WeightedGeometricMean(weights) => {
                if weights.len() != n {
                    return Err(ArbError::InvalidPoolInvariant);
                }
                let mut total: u128 = 0;
                let mut k: usize = 0;
                while k < weights.len()
                    invariant
                        k <= weights@.len(),
                        total == weight_sum(weights@.take(k as int)),
                        total <= k * u64::MAX,
                    decreases weights.len() - k,
                {
                    assert(weights@.take(k + 1).drop_last() == weights@.take(k as int));
                    assert((k + 1) * u64::MAX == k * u64::MAX + u64::MAX) by (nonlinear_arith);
                    assert(k * u64::MAX <= usize::MAX * u64::MAX) by (nonlinear_arith)
                        requires
                            k <= usize::MAX,
                    ;
                    total = total + weights[k] as u128;
                    k += 1;
                }
                assert(weights@.take(weights@.len() as int) == weights@);
                if total != WEIGHT_TOTAL as u128 {
                    return Err(ArbError::InvalidPoolInvariant);
                }
            },
            PoolKind::ConstantSum => {},
        }
        Ok(())
    }

    /// The coefficient of `lambda_j` in the invariant row.
    fn outgoing_coefficient(&self, j: usize) -> (coeff: Ratio)
        requires
            self.valid(),
            j < self.size(),
        ensures
            coeff == self.out_coeff(j as int),
    {
        match &self.kind {
            PoolKind::ConstantProduct => Ratio::new(false, self.reserves[1 - j], 1, 1, 1),
            PoolKind::WeightedGeometricMean(_) => Ratio::new(
                false,
                1,
                1,
                self.reserves[j],
                self.reserves.len() as u128,
            ),
            PoolKind::ConstantSum => Ratio::new(false, 1, 1, 1, 1),
        }
    }

    /// The coefficient of `delta_j` in the invariant row.
    fn incoming_coefficient(&self, j: usize) -> (coeff: Ratio)
        requires
            self.valid(),
            j < self.size(),
        ensures
            coeff == self.in_coeff(j as int),
    {
        let keep = (FEE_DENOMINATOR - self.fee) as u128;
        let whole = FEE_DENOMINATOR as u128;
        match &self.kind {
            PoolKind::ConstantProduct => Ratio::new(true, self.reserves[1 - j], keep, 1, whole),
            PoolKind::WeightedGeometricMean(_) => {
                let count = self.reserves.len() as u128;
                assert(count * whole <= u128::MAX) by (nonlinear_arith)
                    requires
                        count <= u64::MAX,
                        whole == 10000,
                ;
                Ratio::new(true, keep, 1, self.reserves[j], count * whole)
            },
            PoolKind::ConstantSum => Ratio::new(true, keep, 1, 1, whole),
        }
    }

    /// The pool's linear invariant row.
    fn build_invariant_row(&self, offset: usize) -> (row: Row)
        requires
            self.valid(),
            offset + 2 * self.size() <= usize::MAX,
        ensures
            row@ == self.invariant_row(offset),
    {
        let n = self.reserves.len();
        let mut terms: Vec<Term> = Vec::new();
        let mut j: usize = 0;
        while j < n
            invariant
                self.valid(),
                n == self.size(),
                offset + 2 * n <= usize::MAX,
                j <= n,
                terms@.len() == 2 * j,
                forall|v: int| 0 <= v < 2 * j ==> #[trigger] terms@[v] == self.invariant_row(offset).terms[v],
            decreases n - j,
        {
            let out = self.outgoing_coefficient(j);
            let into = self.incoming_coefficient(j);
            assert((2 * j) % 2 == 0 && (2 * j) / 2 == j && (2 * j + 1) % 2 == 1 && (2 * j + 1) / 2
                == j) by (nonlinear_arith);
            terms.push(Term { var: offset + 2 * j, coeff: out });
            terms.push(Term { var: offset + 2 * j + 1, coeff: into });
            j += 1;
        }
        let row = Row { terms, bound: Ratio::whole(0) };
        assert(row@.terms =~= self.invariant_row(offset).terms);
        row
    }

    /// `(f delta_j - lambda_j) / reserve_j` as two terms, negated if
    /// `negative`, added to `terms`.
    fn push_relative_change(&self, terms: &mut Vec<Term>, offset: usize, j: usize, negative: bool)
        requires
            self.valid(),
            j < self.size(),
            offset + 2 * self.size() <= usize::MAX,
        ensures
            final(terms)@ == old(terms)@ + self.relative_change(offset, j as int, negative),
    {
        let keep = (FEE_DENOMINATOR - self.fee) as u128;
        let reserve = self.reserves[j];
        terms.push(Term { var: offset + 2 * j, coeff: Ratio::new(!negative, 1, 1, reserve, 1) });
        terms.push(
            Term {
                var: offset + 2 * j + 1,
                coeff: Ratio::new(negative, keep, 1, reserve, FEE_DENOMINATOR as u128),
            },
        );
        assert(terms@ =~= old(terms)@ + self.relative_change(offset, j as int, negative));
    }

    /// The second-order cone of a constant-product pool.
    fn build_product_cone(&self, offset: usize) -> (block: ConeBlock)
        requires
            self.valid(),
            self.kind is ConstantProduct,
            offset + 2 * self.size() <= usize::MAX,
        ensures
            block@ == self.product_cone(offset),
    {
        let mut difference: Vec<Term> = Vec::new();
        self.push_relative_change(&mut difference, offset, 0, false);
        self.push_relative_change(&mut difference, offset, 1, true);
        let mut sum: Vec<Term> = Vec::new();
        self.push_relative_change(&mut sum, offset, 0, false);
        self.push_relative_change(&mut sum, offset, 1, false);
        let mut rows: Vec<Affine> = Vec::new();
        rows.push(Affine { terms: Vec::new(), offset: Ratio::whole(2) });
        rows.push(Affine { terms: difference, offset: Ratio::whole(0) });
        let block = ConeBlock { rows, bound: Affine { terms: sum, offset: Ratio::whole(2) } };
        assert(block@.rows =~= self.product_cone(offset).rows);
        assert(block@.bound.terms =~= self.product_cone(offset).bound.terms);
        block
    }

    /// Everything that the pool adds to a system whose variables for this
    /// pool start at `var_offset`: rows of `G x <= h`, cone blocks, and
    /// objective terms that value token `j` at `market_values[j]`.
    pub fn build_constraints(
        &self,
        var_offset: usize,
        market_values: &[u128],
        config: BuildConfig,
    ) -> (built: Result<PoolConstraints, ArbError>)
        ensures
            match built {
                Ok(parts) => {
                    &&& self.build_error(var_offset, market_values@, config) is None
                    &&& rows_view(parts.rows@) == self.rows(var_offset, config)
                    &&& cones_view(parts.cones@) == self.cones(var_offset, config)
                    &&& parts.objective@ == self.objective(var_offset, market_values@)
                    &&& parts.exact == self.stated_exactly(config.formulation)
                },
                Err(e) => self.build_error(var_offset, market_values@, config) == Some(e),
            },
    {
        if self.validate().is_err() {
            return Err(ArbError::InvalidPoolInvariant);
        }
        let n = self.reserves.len();
        if market_values.len() != n {
            return Err(ArbError::MalformedConfiguration);
        }
        match config.trade_cap {
            Some(cap) => {
                if cap == 0 || cap > FEE_DENOMINATOR {
                    return Err(ArbError::MalformedConfiguration);
                }
            },
            None => {},
        }
        if n > (usize::MAX - var_offset) / 2 {
            return Err(ArbError::Overflow);
        }
        let keep = (FEE_DENOMINATOR - self.fee) as u128;
        let is_product = match &self.kind {
            PoolKind::ConstantProduct => true,
            _ => false,
        };
        let is_sum = match &self.kind {
            PoolKind::ConstantSum => true,
            _ => false,
        };
        let with_cone = is_product && config.formulation == Formulation::SecondOrderCone;
        let mut rows: Vec<Row> = Vec::new();
        let mut cones: Vec<ConeBlock> = Vec::new();
        if with_cone {
            cones.push(self.build_product_cone(var_offset));
        } else {
            rows.push(self.build_invariant_row(var_offset));
        }
        let ghost first = rows_view(rows@);
        assert(cones_view(cones@) =~= self.cones(var_offset, config));
        assert(first =~= if self.uses_cone(config.formulation) {
            Seq::empty()
        } else {
            seq![self.invariant_row(var_offset)]
        });
        let mut j: usize = 0;
        while j < n
            invariant
                self.valid(),
                n == self.size(),
                var_offset + 2 * n <= usize::MAX,
                keep == self.keep(),
                j <= n,
                rows_view(rows@) == first + Seq::new(j as nat, |k: int| self.reserve_row(var_offset, k)),
            decreases n - j,
        {
            let mut terms: Vec<Term> = Vec::new();
            terms.push(Term { var: var_offset + 2 * j, coeff: Ratio::whole(1) });
            terms.push(
                Term {
                    var: var_offset + 2 * j + 1,
                    coeff: Ratio::new(true, keep, 1, 1, FEE_DENOMINATOR as u128),
                },
            );
            let row = Row { terms, bound: Ratio::whole(self.reserves[j]) };
            assert(row@.terms =~= self.reserve_row(var_offset, j as int).terms);
            assert(row@ == self.reserve_row(var_offset, j as int));
            let ghost held = row@;
            let ghost before = rows_view(rows@);
            rows.push(row);
            assert(rows_view(rows@) =~= before.push(held));
            assert(rows_view(rows@) =~= first + Seq::new(
                (j + 1) as nat,
                |k: int| self.reserve_row(var_offset, k),
            ));
            j += 1;
        }
        let ghost second = rows_view(rows@);
        let mut v: usize = 0;
        while v < 2 * n
            invariant
                n == self.size(),
                var_offset + 2 * n <= usize::MAX,
                v <= 2 * n,
                rows_view(rows@) == second + Seq::new(v as nat, |k: int| self.sign_row(var_offset, k)),
            decreases 2 * n - v,
        {
            let mut terms: Vec<Term> = Vec::new();
            terms.push(Term { var: var_offset + v, coeff: Ratio::new(true, 1, 1, 1, 1) });
            let row = Row { terms, bound: Ratio::whole(0) };
            assert(row@.terms =~= self.sign_row(var_offset, v as int).terms);
            assert(row@ == self.sign_row(var_offset, v as int));
            let ghost held = row@;
            let ghost before = rows_view(rows@);
            rows.push(row);
            assert(rows_view(rows@) =~= before.push(held));
            assert(rows_view(rows@) =~= second + Seq::new(
                (v + 1) as nat,
                |k: int| self.sign_row(var_offset, k),
            ));
            v += 1;
        }
        let ghost third = rows_view(rows@);
        match config.trade_cap {
            Some(cap) => {
                let mut v: usize = 0;
                while v < 2 * n
                    invariant
                        n == self.size(),
                        var_offset + 2 * n <= usize::MAX,
                        v <= 2 * n,
                        rows_view(rows@) == third + Seq::new(
                            v as nat,
                            |k: int| self.cap_row(var_offset, k, cap),
                        ),
                    decreases 2 * n - v,
                {
                    let mut terms: Vec<Term> = Vec::new();
                    terms.push(Term { var: var_offset + v, coeff: Ratio::whole(1) });
                    let row = Row {
                        terms,
                        bound: Ratio::new(
                            false,
                            self.reserves[v / 2],
                            cap as u128,
                            1,
                            FEE_DENOMINATOR as u128,
                        ),
                    };
                    assert(row@.terms =~= self.cap_row(var_offset, v as int, cap).terms);
                    assert(row@ == self.cap_row(var_offset, v as int, cap));
                    let ghost held = row@;
                    let ghost before = rows_view(rows@);
                    rows.push(row);
                    assert(rows_view(rows@) =~= before.push(held));
                    assert(rows_view(rows@) =~= third + Seq::new(
                        (v + 1) as nat,
                        |k: int| self.cap_row(var_offset, k, cap),
                    ));
                    v += 1;
                }
            },
            None => {
                assert(rows_view(rows@) =~= third + Seq::<LinearRow>::empty());
            },
        }
        let mut objective: Vec<Term> = Vec::new();
        let mut v: usize = 0;
        while v < 2 * n
            invariant
                n == self.size(),
                n == market_values@.len(),
                var_offset + 2 * n <= usize::MAX,
                v <= 2 * n,
                objective@ == Seq::new(
                    v as nat,
                    |k: int| self.objective(var_offset, market_values@)[k],
                ),
            decreases 2 * n - v,
        {
            objective.push(
                Term {
                    var: var_offset + v,
                    coeff: Ratio::new(v % 2 == 1, market_values[v / 2], 1, 1, 1),
                },
            );
            assert(objective@ =~= Seq::new(
                (v + 1) as nat,
                |k: int| self.objective(var_offset, market_values@)[k],
            ));
            v += 1;
        }
        assert(objective@ =~= self.objective(var_offset, market_values@));
        Ok(PoolConstraints { rows, cones, objective, exact: is_sum || with_cone })
    }

    /// The reserve of token `j` after the trade `x`.
    pub open spec fn new_reserve(&self, offset: usize, j: int, x: Seq<real>) -> real {
        self.reserves@[j] as real + (self.keep() as real / (FEE_DENOMINATOR as real)) * x[offset
            + 2 * j + 1] - x[offset + 2 * j]
    }

    /// The left side of the one-way tangent inequality, summed over both
    /// ways: `reserve_1 * (f delta_0 - lambda_0) + reserve_0 * (f delta_1 -
    /// lambda_1)`.
    pub open spec fn tangent_gain(&self, offset: usize, x: Seq<real>) -> real {
        (self.reserves@[1] as real) * (self.new_reserve(offset, 0, x) - self.reserves@[0] as real)
            + (self.reserves@[0] as real) * (self.new_reserve(offset, 1, x)
            - self.reserves@[1] as real)
    }

    /// The trade `x` leaves neither reserve negative and their product no
    /// smaller than it was.
    pub open spec fn product_kept(&self, offset: usize, x: Seq<real>) -> bool {
        &&& self.new_reserve(offset, 0, x) >= 0real
        &&& self.new_reserve(offset, 1, x) >= 0real
        &&& self.new_reserve(offset, 0, x) * self.new_reserve(offset, 1, x) >= (
        self.reserves@[0] as real) * (self.reserves@[1] as real)
    }
}

} // verus!
