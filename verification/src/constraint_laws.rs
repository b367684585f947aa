//! What the constraints of a pool say about a trade.

use vstd::prelude::*;
use crate::constraints::BuildConfig;
use crate::constraints::Pool;
use crate::pool::ArbError;
use crate::pool::FEE_DENOMINATOR;
use crate::pool::UniV2Pool;
use crate::pool::lemma_quote_is_largest_output;
use crate::reals::lemma_cancel_reserve;
use crate::reals::lemma_cone_sides;
use crate::reals::lemma_grown;
use crate::reals::lemma_kept_product_gains;
use crate::reals::lemma_norm_is_product;
use crate::reals::lemma_product_kept_in_integers;
use crate::reals::lemma_relative_change;
use crate::reals::lemma_same_multiple;
use crate::reals::lemma_scaled_product;
use crate::reals::lemma_scaled_share;
use crate::reals::lemma_tangent_form;
use crate::reals::lemma_unit_products;
use crate::system::AffineForm;
use crate::system::LinearRow;
use crate::system::Term;
use crate::system::affine_value;
use crate::system::affine_wf;
use crate::system::cone_holds;
use crate::system::cone_wf;
use crate::system::form_value;
use crate::system::lemma_form_of_four;
use crate::system::lemma_whole_value;
use crate::system::row_holds;
use crate::system::row_wf;
use crate::system::sum_of_squares;
use crate::system::term_wf;
use crate::system::terms_wf;

verus! {

/// The coefficients of `(f delta - lambda) / reserve`, with `f = keep /
/// 10000`: `-1 / reserve` for `lambda` and `f / reserve` for `delta`, or
/// their negations.
pub(crate) proof fn lemma_relative_coefficients(pool: Pool, offset: usize, j: int, negative: bool)
    requires
        pool.valid(),
        0 <= j < pool.size(),
    ensures
        ({
            let change = pool.relative_change(offset, j, negative);
            let s = pool.reserves@[j] as real;
            let f = pool.keep() as real / 10000real;
            &&& !negative ==> change[0].coeff.value() * s == -1real && change[1].coeff.value() * s
                == f
            &&& negative ==> change[0].coeff.value() * s == 1real && change[1].coeff.value() * s
                == -f
        }),
{
    let change = pool.relative_change(offset, j, negative);
    let s = pool.reserves@[j] as real;
    let k = pool.keep() as u128 as real;
    assert(pool.keep() as u128 as real == pool.keep() as real);
    assert(s > 0real);
    let m0 = change[0].coeff.magnitude();
    let m1 = change[1].coeff.magnitude();
    assert(m0 == (1real * 1real) / (s * 1real));
    assert(m1 == (k * 1real) / (s * 10000real));
    lemma_cancel_reserve(1real, s, 1real);
    lemma_cancel_reserve(k, s, 10000real);
    assert(1real / 1real == 1real) by (nonlinear_arith);
    assert((-m0) * s == -(m0 * s)) by (nonlinear_arith);
    assert((-m1) * s == -(m1 * s)) by (nonlinear_arith);
}

/// A constant-product pool's cone admits exactly the trades that keep the
/// product of its reserves: whatever would leave `new_reserve_0 *
/// new_reserve_1` below the product before the trade, the cone rejects.
pub proof fn lemma_cone_keeps_product(pool: Pool, offset: usize, x: Seq<real>)
    requires
        pool.valid(),
        pool.kind is ConstantProduct,
        offset + 4 <= usize::MAX,
        x.len() >= offset + 4,
    ensures
        cone_holds(pool.product_cone(offset), x) <==> pool.product_kept(offset, x),
{
    let s0 = pool.reserves@[0] as real;
    let s1 = pool.reserves@[1] as real;
    let f = pool.keep() as real / 10000real;
    let l0 = x[offset + 0];
    let d0 = x[offset + 1];
    let l1 = x[offset + 2];
    let d1 = x[offset + 3];
    let cone = pool.product_cone(offset);
    let up0 = pool.relative_change(offset, 0, false);
    let up1 = pool.relative_change(offset, 1, false);
    let down1 = pool.relative_change(offset, 1, true);
    assert(s0 > 0real && s1 > 0real);
    lemma_relative_coefficients(pool, offset, 0, false);
    lemma_relative_coefficients(pool, offset, 1, false);
    lemma_relative_coefficients(pool, offset, 1, true);
    assert(up0 + up1 =~= seq![up0[0], up0[1], up1[0], up1[1]]);
    assert(up0 + down1 =~= seq![up0[0], up0[1], down1[0], down1[1]]);
    lemma_form_of_four(up0[0], up0[1], up1[0], up1[1], x);
    lemma_form_of_four(up0[0], up0[1], down1[0], down1[1], x);
    lemma_whole_value(2);
    lemma_whole_value(0);
    let n0 = pool.new_reserve(offset, 0, x);
    let n1 = pool.new_reserve(offset, 1, x);
    // The relative changes of the two reserves.
    let a = up0[0].coeff.value() * l0 + up0[1].coeff.value() * d0;
    let b = up1[0].coeff.value() * l1 + up1[1].coeff.value() * d1;
    let b_down = down1[0].coeff.value() * l1 + down1[1].coeff.value() * d1;
    lemma_relative_change(up0[0].coeff.value(), up0[1].coeff.value(), s0, f, l0, d0);
    lemma_relative_change(up1[0].coeff.value(), up1[1].coeff.value(), s1, f, l1, d1);
    assert((-down1[0].coeff.value()) * s1 == -(down1[0].coeff.value() * s1)) by (nonlinear_arith);
    assert((-down1[1].coeff.value()) * s1 == -(down1[1].coeff.value() * s1)) by (nonlinear_arith);
    lemma_relative_change(-down1[0].coeff.value(), -down1[1].coeff.value(), s1, f, l1, d1);
    let b_up = (-down1[0].coeff.value()) * l1 + (-down1[1].coeff.value()) * d1;
    assert(b_up == -b_down) by (nonlinear_arith)
        requires
            b_up == (-down1[0].coeff.value()) * l1 + (-down1[1].coeff.value()) * d1,
            b_down == down1[0].coeff.value() * l1 + down1[1].coeff.value() * d1,
    ;
    lemma_same_multiple(b_up, b, s1);
    lemma_grown(a, s0, n0);
    lemma_grown(b, s1, n1);
    let sum = affine_value(cone.bound, x);
    let diff = affine_value(cone.rows[1], x);
    let first = affine_value(cone.rows[0], x);
    assert(sum == a + b + 2real);
    assert(diff == a + b_down + 0real);
    assert(first == 2real) by {
        assert(form_value(Seq::<Term>::empty(), x) == 0real);
    }
    assert(cone.rows.drop_last() =~= seq![cone.rows[0]]);
    assert(cone.rows.drop_last().drop_last() =~= Seq::<AffineForm>::empty());
    assert(sum_of_squares(Seq::<AffineForm>::empty(), x) == 0real);
    assert(sum_of_squares(seq![cone.rows[0]], x) == first * first);
    assert(sum_of_squares(cone.rows, x) == first * first + diff * diff);
    let p = 1real + a;
    let q = 1real + b;
    lemma_cone_sides(a, b);
    assert(diff == a - b);
    assert(sum == p + q);
    lemma_norm_is_product(p, q);
    lemma_scaled_product(s0, s1, p, q);
}

/// A constant-product pool's tangent row says that the tangent gain is not
/// negative.
pub proof fn lemma_tangent_row_meaning(pool: Pool, offset: usize, x: Seq<real>)
    requires
        pool.valid(),
        pool.kind is ConstantProduct,
        offset + 4 <= usize::MAX,
        x.len() >= offset + 4,
    ensures
        row_holds(pool.invariant_row(offset), x) <==> pool.tangent_gain(offset, x) >= 0real,
{
    let s0 = pool.reserves@[0] as real;
    let s1 = pool.reserves@[1] as real;
    let k = pool.keep() as u128 as real;
    let f = pool.keep() as real / 10000real;
    assert(pool.keep() as u128 as real == pool.keep() as real);
    let l0 = x[offset + 0];
    let d0 = x[offset + 1];
    let l1 = x[offset + 2];
    let d1 = x[offset + 3];
    let row = pool.invariant_row(offset);
    let t0 = row.terms[0];
    let t1 = row.terms[1];
    let t2 = row.terms[2];
    let t3 = row.terms[3];
    assert(row.terms =~= seq![t0, t1, t2, t3]);
    lemma_form_of_four(t0, t1, t2, t3, x);
    lemma_whole_value(pool.reserves@[0]);
    lemma_whole_value(pool.reserves@[1]);
    lemma_whole_value(0);
    assert(t0.coeff.value() == s1);
    assert(t2.coeff.value() == s0);
    assert(t1.coeff.magnitude() == (s1 * k) / (1real * 10000real));
    assert(t3.coeff.magnitude() == (s0 * k) / (1real * 10000real));
    lemma_scaled_share(s1, k, 10000real);
    lemma_scaled_share(s0, k, 10000real);
    assert(t1.coeff.value() == -(s1 * f));
    assert(t3.coeff.value() == -(s0 * f));
    lemma_tangent_form(s0, s1, f, l0, d0, l1, d1);
}

/// The tangent row admits every trade that keeps the product. It admits
/// others too, so only the cone rejects every trade that lowers the product.
pub proof fn lemma_tangent_admits_kept_product(pool: Pool, offset: usize, x: Seq<real>)
    requires
        pool.valid(),
        pool.kind is ConstantProduct,
        offset + 4 <= usize::MAX,
        x.len() >= offset + 4,
        pool.product_kept(offset, x),
    ensures
        row_holds(pool.invariant_row(offset), x),
{
    lemma_tangent_row_meaning(pool, offset, x);
    lemma_kept_product_gains(
        pool.reserves@[0] as real,
        pool.reserves@[1] as real,
        pool.new_reserve(offset, 0, x),
        pool.new_reserve(offset, 1, x),
    );
}

/// The pool's invariant row names the pool's variables only and has no zero
/// denominator.
pub(crate) proof fn lemma_invariant_row_wf(pool: Pool, offset: usize, n_vars: nat)
    requires
        pool.valid(),
        offset + 2 * pool.size() <= n_vars <= usize::MAX,
    ensures
        row_wf(pool.invariant_row(offset), n_vars),
{
    let row = pool.invariant_row(offset);
    let count = pool.size();
    assert(0 < count * 10000 <= u128::MAX) by (nonlinear_arith)
        requires
            2 <= count <= u64::MAX,
    ;
    assert forall|v: int| 0 <= v < row.terms.len() implies term_wf(#[trigger] row.terms[v], n_vars) by {
        let j = v / 2;
        assert(0 <= j < count && (v % 2 == 0 || v % 2 == 1)) by (nonlinear_arith)
            requires
                0 <= v < 2 * count,
                j == v / 2,
        ;
        assert(pool.reserves@[j] > 0);
    }
}

/// A pool's relative change names the pool's variables only and has no zero
/// denominator.
pub(crate) proof fn lemma_relative_change_wf(pool: Pool, offset: usize, j: int, negative: bool, n_vars: nat)
    requires
        pool.valid(),
        0 <= j < pool.size(),
        offset + 2 * pool.size() <= n_vars <= usize::MAX,
    ensures
        terms_wf(pool.relative_change(offset, j, negative), n_vars),
{
    assert(pool.reserves@[j] > 0);
}

/// Everything that a pool adds to a system names the pool's variables only
/// and has no zero denominator.
#[verifier::rlimit(40)]
pub proof fn lemma_pool_constraints_wf(
    pool: Pool,
    offset: usize,
    market_values: Seq<u128>,
    config: BuildConfig,
    n_vars: nat,
)
    requires
        pool.build_error(offset, market_values, config) is None,
        offset + 2 * pool.size() <= n_vars <= usize::MAX,
    ensures
        forall|k: int|
            0 <= k < pool.rows(offset, config).len() ==> row_wf(
                #[trigger] pool.rows(offset, config)[k],
                n_vars,
            ),
        forall|k: int|
            0 <= k < pool.cones(offset, config).len() ==> cone_wf(
                #[trigger] pool.cones(offset, config)[k],
                n_vars,
            ),
        terms_wf(pool.objective(offset, market_values), n_vars),
{
    let count = pool.size();
    let first: Seq<LinearRow> = if pool.uses_cone(config.formulation) {
        Seq::empty()
    } else {
        seq![pool.invariant_row(offset)]
    };
    let rows = pool.rows(offset, config);
    lemma_invariant_row_wf(pool, offset, n_vars);
    assert forall|k: int| 0 <= k < rows.len() implies row_wf(#[trigger] rows[k], n_vars) by {
        if k < first.len() {
            assert(rows[k] == pool.invariant_row(offset));
        } else if k < first.len() + count {
            let j = k - first.len();
            assert(rows[k] == pool.reserve_row(offset, j));
            assert(pool.reserve_row(offset, j).terms.len() == 2);
        } else if k < first.len() + 3 * count {
            let v = k - first.len() - count;
            assert(rows[k] == pool.sign_row(offset, v));
            assert(pool.sign_row(offset, v).terms.len() == 1);
        } else {
            let v = k - first.len() - 3 * count;
            let cap = config.trade_cap->Some_0;
            assert(rows[k] == pool.cap_row(offset, v, cap));
            assert(pool.cap_row(offset, v, cap).terms.len() == 1);
        }
    }
    if pool.uses_cone(config.formulation) {
        let cone = pool.product_cone(offset);
        lemma_relative_change_wf(pool, offset, 0, false, n_vars);
        lemma_relative_change_wf(pool, offset, 1, false, n_vars);
        lemma_relative_change_wf(pool, offset, 1, true, n_vars);
        let up0 = pool.relative_change(offset, 0, false);
        let up1 = pool.relative_change(offset, 1, false);
        let down1 = pool.relative_change(offset, 1, true);
        assert(terms_wf(up0 + up1, n_vars)) by {
            assert forall|k: int| 0 <= k < (up0 + up1).len() implies term_wf(
                #[trigger] (up0 + up1)[k],
                n_vars,
            ) by {
                if k < up0.len() {
                    assert((up0 + up1)[k] == up0[k]);
                } else {
                    assert((up0 + up1)[k] == up1[k - up0.len()]);
                }
            }
        }
        assert(terms_wf(up0 + down1, n_vars)) by {
            assert forall|k: int| 0 <= k < (up0 + down1).len() implies term_wf(
                #[trigger] (up0 + down1)[k],
                n_vars,
            ) by {
                if k < up0.len() {
                    assert((up0 + down1)[k] == up0[k]);
                } else {
                    assert((up0 + down1)[k] == down1[k - up0.len()]);
                }
            }
        }
        assert(affine_wf(cone.bound, n_vars));
        assert forall|k: int| 0 <= k < cone.rows.len() implies affine_wf(
            #[trigger] cone.rows[k],
            n_vars,
        ) by {
            if k == 0 {
            } else {
                assert(cone.rows[k].terms == up0 + down1);
            }
        }
        assert(cone_wf(cone, n_vars));
    }
    let objective = pool.objective(offset, market_values);
    assert forall|v: int| 0 <= v < objective.len() implies term_wf(#[trigger] objective[v], n_vars) by {}
}

/// No row of a pool has a minus sign on its bound.
pub proof fn lemma_pool_rows_unsigned(pool: Pool, offset: usize, config: BuildConfig)
    ensures
        forall|k: int|
            0 <= k < pool.rows(offset, config).len() ==> !(#[trigger] pool.rows(
                offset,
                config,
            )[k]).bound.negative,
{
    let count = pool.size();
    let first: Seq<LinearRow> = if pool.uses_cone(config.formulation) {
        Seq::empty()
    } else {
        seq![pool.invariant_row(offset)]
    };
    let rows = pool.rows(offset, config);
    assert forall|k: int| 0 <= k < rows.len() implies !(#[trigger] rows[k]).bound.negative by {
        if k < first.len() {
            assert(rows[k] == pool.invariant_row(offset));
        } else if k < first.len() + count {
            assert(rows[k] == pool.reserve_row(offset, k - first.len()));
        } else if k < first.len() + 3 * count {
            assert(rows[k] == pool.sign_row(offset, k - first.len() - count));
        } else {
            let cap = config.trade_cap->Some_0;
            assert(rows[k] == pool.cap_row(offset, k - first.len() - 3 * count, cap));
        }
    }
}

/// The cone of a constant-product pool admits the trade that leaves the pool
/// alone.
pub proof fn lemma_cone_at_rest(pool: Pool, offset: usize, x: Seq<real>)
    requires
        pool.valid(),
        pool.kind is ConstantProduct,
        offset + 4 <= usize::MAX,
        x.len() >= offset + 4,
        forall|i: int| offset <= i < offset + 4 ==> #[trigger] x[i] == 0real,
    ensures
        cone_holds(pool.product_cone(offset), x),
{
    lemma_cone_keeps_product(pool, offset, x);
    let f = pool.keep() as real / (FEE_DENOMINATOR as real);
    lemma_unit_products(f);
    assert(x[offset + 0] == 0real && x[offset + 1] == 0real && x[offset + 2] == 0real && x[offset
        + 3] == 0real);
    assert(pool.new_reserve(offset, 0, x) == pool.reserves@[0] as real);
    assert(pool.new_reserve(offset, 1, x) == pool.reserves@[1] as real);
    assert(pool.reserves@[0] > 0 && pool.reserves@[1] > 0);
}

/// The cone and the swap formula agree: of a trade that pays whole units of
/// a pool's first token in and takes whole units of its second token out,
/// the cone admits exactly what takes out no more than the swap formula
/// pays for the amount paid in.
pub proof fn lemma_cone_admits_what_the_swap_pays(
    source: UniV2Pool,
    pool: Pool,
    offset: usize,
    paid: nat,
    taken: nat,
    x: Seq<real>,
)
    requires
        source.valid(),
        pool.kind is ConstantProduct,
        pool.tokens@.len() == 2,
        pool.reserves@ == seq![source.reserve0, source.reserve1],
        pool.fee == source.router_fee,
        offset + 4 <= usize::MAX,
        x.len() >= offset + 4,
        x[offset + 0] == 0real,
        x[offset + 1] == paid as real,
        x[offset + 2] == taken as real,
        x[offset + 3] == 0real,
    ensures
        cone_holds(pool.product_cone(offset), x) <==> taken <= source.quote_numerator(
            paid as int,
            true,
        ) / source.quote_denominator(paid as int, true),
{
    assert(pool.valid()) by {
        assert forall|j: int| 0 <= j < pool.reserves@.len() implies #[trigger] pool.reserves@[j]
            > 0 by {
            if j == 0 {
            } else {
                assert(j == 1);
            }
        }
    }
    lemma_cone_keeps_product(pool, offset, x);
    lemma_product_kept_in_integers(
        source.reserve0 as int,
        source.reserve1 as int,
        source.keep(),
        paid as int,
        taken as int,
    );
    lemma_quote_is_largest_output(source, paid, taken, true);
    assert(pool.keep() == source.keep());
    assert(pool.reserves@[0] == source.reserve0 && pool.reserves@[1] == source.reserve1);
}

/// A pool with an empty reserve is never given constraints: it is turned
/// down as breaking the pool invariant before anything is built.
pub proof fn lemma_empty_reserve_rejected(
    pool: Pool,
    j: int,
    offset: usize,
    market_values: Seq<u128>,
    config: BuildConfig,
)
    requires
        0 <= j < pool.reserves@.len(),
        pool.reserves@[j] == 0,
    ensures
        !pool.valid(),
        pool.build_error(offset, market_values, config) == Some(ArbError::InvalidPoolInvariant),
{
}

} // verus!
