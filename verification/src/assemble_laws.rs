//! What holds of the system of a cycle.

use vstd::prelude::*;
use crate::assemble::assemble_error;
use crate::assemble::assembled;
use crate::assemble::at_most_row;
use crate::assemble::at_rest;
use crate::assemble::first_place;
use crate::assemble::idle_row;
use crate::assemble::idle_rows;
use crate::assemble::link_row;
use crate::assemble::link_rows;
use crate::assemble::one_way;
use crate::assemble::paid_in_var;
use crate::assemble::paid_place;
use crate::assemble::pool_cones;
use crate::assemble::pool_fits;
use crate::assemble::pool_objectives;
use crate::assemble::pool_rows;
use crate::assemble::start_values;
use crate::assemble::taken_out_var;
use crate::assemble::taken_place;
use crate::assemble::var_offset;
use crate::constraint_laws::lemma_cone_at_rest;
use crate::constraint_laws::lemma_pool_constraints_wf;
use crate::constraint_laws::lemma_pool_rows_unsigned;
use crate::constraints::BuildConfig;
use crate::constraints::Pool;
use crate::pool::FEE_DENOMINATOR;
use crate::reals::lemma_unit_products;
use crate::system::ConstraintSystem;
use crate::system::LinearRow;
use crate::system::Term;
use crate::system::cone_holds;
use crate::system::cone_wf;
use crate::system::cones_view;
use crate::system::contribution;
use crate::system::form_value;
use crate::system::lemma_form_at_rest;
use crate::system::lemma_form_of_both;
use crate::system::lemma_form_of_two_places;
use crate::system::lemma_form_without_losses;
use crate::system::lemma_row_at_rest;
use crate::system::lemma_whole_value;
use crate::system::row_binds;
use crate::system::row_holds;
use crate::system::row_wf;
use crate::system::rows_view;
use crate::system::term_wf;
use crate::system::terms_wf;
use crate::token::Token;

verus! {

/// The variables of pool `k` end where those of the next pool start.
pub proof fn lemma_offset_step(pools: Seq<Pool>, k: int)
    requires
        0 <= k,
    ensures
        var_offset(pools, k + 1) == var_offset(pools, k) + 2 * pools[k].size(),
{
}

/// The offsets grow with the number of pools.
pub proof fn lemma_var_offset_grows(pools: Seq<Pool>, a: int, b: int)
    requires
        0 <= a <= b,
    ensures
        0 <= var_offset(pools, a) <= var_offset(pools, b),
    decreases b,
{
    if a < b {
        lemma_var_offset_grows(pools, a, b - 1);
    } else if a > 0 {
        lemma_var_offset_grows(pools, a - 1, a - 1);
    }
}

/// A token that is among `tokens` has a first place there.
pub proof fn lemma_first_place(tokens: Seq<Token>, token: Token)
    requires
        tokens.contains(token),
    ensures
        0 <= first_place(tokens, token) < tokens.len(),
        tokens[first_place(tokens, token)] == token,
{
    let some = choose|i: int| 0 <= i < tokens.len() && tokens[i] == token;
    lemma_least_place(tokens, token, some);
}

pub(crate) proof fn lemma_least_place(tokens: Seq<Token>, token: Token, bound: int)
    requires
        0 <= bound < tokens.len(),
        tokens[bound] == token,
    ensures
        exists|i: int|
            0 <= i <= bound && tokens[i] == token && forall|k: int|
                0 <= k < i ==> tokens[k] != token,
    decreases bound,
{
    if exists|k: int| 0 <= k < bound && tokens[k] == token {
        let k = choose|k: int| 0 <= k < bound && tokens[k] == token;
        lemma_least_place(tokens, token, k);
    }
}

/// The objective term of trade variable `v` of a pool values the variable's
/// token, positively for what is taken out and negatively for what is paid
/// in.
pub(crate) proof fn lemma_objective_term(pool: Pool, offset: usize, values: Seq<u128>, v: int)
    requires
        0 <= v < 2 * pool.size(),
        offset + 2 * pool.size() <= usize::MAX,
    ensures
        pool.objective(offset, values)[v].var == offset + v,
        pool.objective(offset, values)[v].coeff.value() == (if v % 2 == 1 {
            -(values[v / 2] as real)
        } else {
            values[v / 2] as real
        }),
{
    lemma_whole_value(values[v / 2]);
}

/// The objective of a pool in which only what is paid in at the place
/// `enter` and what is taken out at the place `leave` is not zero.
pub(crate) proof fn lemma_two_place_objective(
    pool: Pool,
    offset: usize,
    values: Seq<u128>,
    x: Seq<real>,
    enter: int,
    leave: int,
)
    requires
        0 <= enter < pool.size(),
        0 <= leave < pool.size(),
        offset + 2 * pool.size() <= usize::MAX,
        forall|v: int|
            0 <= v < 2 * pool.size() && v != 2 * enter + 1 && v != 2 * leave ==> #[trigger] x[offset
                + v] == 0real,
    ensures
        form_value(pool.objective(offset, values), x) == (values[leave] as real) * x[offset + 2
            * leave] - (values[enter] as real) * x[offset + 2 * enter + 1],
{
    let terms = pool.objective(offset, values);
    let paid = 2 * enter + 1;
    let taken = 2 * leave;
    assert(paid % 2 == 1 && paid / 2 == enter) by (nonlinear_arith)
        requires
            paid == 2 * enter + 1,
    ;
    assert(taken % 2 == 0 && taken / 2 == leave) by (nonlinear_arith)
        requires
            taken == 2 * leave,
    ;
    assert forall|v: int| 0 <= v < terms.len() && v != paid && v != taken implies contribution(
        #[trigger] terms[v],
        x,
    ) == 0real by {
        lemma_objective_term(pool, offset, values, v);
        assert(x[offset + v] == 0real);
        lemma_unit_products(terms[v].coeff.value());
    }
    lemma_form_of_two_places(terms, x, paid, taken);
    lemma_objective_term(pool, offset, values, paid);
    lemma_objective_term(pool, offset, values, taken);
    let put = x[offset + paid];
    let worth = values[enter] as real;
    assert((-worth) * put == -(worth * put)) by (nonlinear_arith);
}

/// What a pool adds to the objective when it is crossed one way only, from
/// the token `enter` to the token `leave`: the start token that it gives
/// out, less the start token that it takes in.
pub(crate) proof fn lemma_pool_objective(
    pool: Pool,
    offset: usize,
    start: Token,
    enter: Token,
    leave: Token,
    x: Seq<real>,
)
    requires
        pool.valid(),
        pool.tokens@.contains(enter),
        pool.tokens@.contains(leave),
        offset + 2 * pool.size() <= usize::MAX,
        forall|v: int|
            0 <= v < 2 * pool.size() && v != 2 * first_place(pool.tokens@, enter) + 1 && v != 2
                * first_place(pool.tokens@, leave) ==> #[trigger] x[offset + v] == 0real,
    ensures
        form_value(pool.objective(offset, start_values(pool, start)), x) == (if leave == start {
            x[offset + 2 * first_place(pool.tokens@, leave)]
        } else {
            0real
        }) - (if enter == start {
            x[offset + 2 * first_place(pool.tokens@, enter) + 1]
        } else {
            0real
        }),
{
    let values = start_values(pool, start);
    let into = first_place(pool.tokens@, enter);
    let out = first_place(pool.tokens@, leave);
    lemma_first_place(pool.tokens@, enter);
    lemma_first_place(pool.tokens@, leave);
    assert(pool.tokens@.len() == pool.size());
    lemma_two_place_objective(pool, offset, values, x, into, out);
    let given = x[offset + 2 * out];
    let put = x[offset + 2 * into + 1];
    lemma_start_worth(pool, start, out, given);
    lemma_start_worth(pool, start, into, put);
}

/// A token's amount is worth itself if the token is the start token, and
/// nothing otherwise.
pub(crate) proof fn lemma_start_worth(pool: Pool, start: Token, place: int, amount: real)
    requires
        0 <= place < pool.tokens@.len(),
    ensures
        (start_values(pool, start)[place] as real) * amount == (if pool.tokens@[place] == start {
            amount
        } else {
            0real
        }),
{
    lemma_unit_products(amount);
}

/// The objective of the first `k` pools when every pool is crossed one way
/// only, along a cycle that comes back to its start token at its end and
/// not before.
#[verifier::rlimit(40)]
pub(crate) proof fn lemma_objective_so_far(
    cycle: Seq<Token>,
    pools: Seq<Pool>,
    x: Seq<real>,
    k: int,
)
    requires
        0 <= k <= pools.len(),
        pools.len() >= 2,
        cycle.len() == pools.len() + 1,
        cycle[0] == cycle.last(),
        cycle.drop_last().no_duplicates(),
        var_offset(pools, pools.len() as int) <= usize::MAX,
        forall|i: int| 0 <= i < pools.len() ==> (#[trigger] pools[i]).valid(),
        forall|i: int| 0 <= i < pools.len() ==> #[trigger] pool_fits(cycle, pools, i),
        forall|i: int| 0 <= i < pools.len() ==> #[trigger] one_way(cycle, pools, x, i),
    ensures
        form_value(pool_objectives(pools, cycle[0], k), x) == (if k == pools.len() {
            x[taken_out_var(cycle, pools)]
        } else {
            0real
        }) - (if k >= 1 {
            x[paid_in_var(cycle, pools)]
        } else {
            0real
        }),
    decreases k,
{
    if k > 0 {
        let j = k - 1;
        lemma_objective_so_far(cycle, pools, x, j);
        lemma_var_offset_grows(pools, j, pools.len() as int);
        lemma_var_offset_grows(pools, k, pools.len() as int);
        assert(pools[j].valid());
        assert(pool_fits(cycle, pools, j));
        assert(one_way(cycle, pools, x, j));
        let offset = var_offset(pools, j) as usize;
        assert forall|v: int|
            0 <= v < 2 * pools[j].size() && v != 2 * first_place(pools[j].tokens@, cycle[j]) + 1
                && v != 2 * first_place(pools[j].tokens@, cycle[j + 1]) implies #[trigger] x[offset
            + v] == 0real by {
            assert(v != paid_place(cycle, pools, j) && v != taken_place(cycle, pools, j));
            assert(x[var_offset(pools, j) + v] == 0real);
        }
        lemma_pool_objective(pools[j], offset, cycle[0], cycle[j], cycle[j + 1], x);
        lemma_form_of_both(
            pool_objectives(pools, cycle[0], j),
            pools[j].objective(var_offset(pools, j) as usize, start_values(pools[j], cycle[0])),
            x,
        );
        let inner = cycle.drop_last();
        assert(inner[0] == cycle[0]);
        // Only the first pool is entered at the start token.
        if j > 0 {
            assert(inner[j] == cycle[j]);
            assert(cycle[j] != cycle[0]);
        } else {
            assert(var_offset(pools, 0) == 0);
        }
        // Only the last pool is left at the start token.
        if k < pools.len() {
            assert(inner[k] == cycle[k]);
            assert(cycle[k] != cycle[0]);
        } else {
            assert(cycle[k] == cycle.last());
        }
    }
}

/// Along a cycle that comes back to its start token at its end and not
/// before, the objective of a trade that crosses every pool one way only is
/// the trade's profit in the start token: what comes out of the last pool
/// less what goes into the first.
pub proof fn lemma_objective_is_profit(
    cycle: Seq<Token>,
    pools: Seq<Pool>,
    config: BuildConfig,
    x: Seq<real>,
)
    requires
        assemble_error(cycle, pools, config) is None,
        cycle.drop_last().no_duplicates(),
        forall|k: int| 0 <= k < pools.len() ==> #[trigger] one_way(cycle, pools, x, k),
    ensures
        form_value(pool_objectives(pools, cycle[0], pools.len() as int), x) == x[taken_out_var(
            cycle,
            pools,
        )] - x[paid_in_var(cycle, pools)],
{
    assert forall|i: int| 0 <= i < pools.len() implies (#[trigger] pools[i]).valid() by {}
    assert forall|i: int| 0 <= i < pools.len() implies #[trigger] pool_fits(cycle, pools, i) by {}
    lemma_objective_so_far(cycle, pools, x, pools.len() as int);
}

/// What the first `j` pools add to the system names variables of the system
/// only and has no zero denominator.
pub proof fn lemma_pools_wf(start: Token, pools: Seq<Pool>, config: BuildConfig, j: int)
    requires
        forall|i: int| 0 <= i < pools.len() ==> (#[trigger] pools[i]).valid(),
        !(config.trade_cap matches Some(cap) && (cap == 0 || cap > FEE_DENOMINATOR)),
        var_offset(pools, pools.len() as int) <= usize::MAX,
        0 <= j <= pools.len(),
    ensures
        forall|i: int|
            0 <= i < pool_rows(pools, config, j).len() ==> row_wf(
                #[trigger] pool_rows(pools, config, j)[i],
                var_offset(pools, pools.len() as int) as nat,
            ),
        forall|i: int|
            0 <= i < pool_cones(pools, config, j).len() ==> cone_wf(
                #[trigger] pool_cones(pools, config, j)[i],
                var_offset(pools, pools.len() as int) as nat,
            ),
        terms_wf(pool_objectives(pools, start, j), var_offset(pools, pools.len() as int) as nat),
    decreases j,
{
    let n_vars = var_offset(pools, pools.len() as int) as nat;
    if j > 0 {
        let k = j - 1;
        lemma_pools_wf(start, pools, config, k);
        lemma_var_offset_grows(pools, k, pools.len() as int);
        lemma_var_offset_grows(pools, j, pools.len() as int);
        let pool = pools[k];
        let offset = var_offset(pools, k) as usize;
        let values = start_values(pool, start);
        assert(pool.valid());
        assert(pool.build_error(offset, values, config) is None);
        lemma_pool_constraints_wf(pool, offset, values, config, n_vars);
        let rows = pool_rows(pools, config, j);
        let rows_before = pool_rows(pools, config, k);
        let own_rows = pool.rows(offset, config);
        assert forall|i: int| 0 <= i < rows.len() implies row_wf(#[trigger] rows[i], n_vars) by {
            if i < rows_before.len() {
                assert(rows[i] == rows_before[i]);
            } else {
                assert(rows[i] == own_rows[i - rows_before.len()]);
            }
        }
        let cones = pool_cones(pools, config, j);
        let cones_before = pool_cones(pools, config, k);
        let own_cones = pool.cones(offset, config);
        assert forall|i: int| 0 <= i < cones.len() implies cone_wf(#[trigger] cones[i], n_vars) by {
            if i < cones_before.len() {
                assert(cones[i] == cones_before[i]);
            } else {
                assert(cones[i] == own_cones[i - cones_before.len()]);
            }
        }
        let terms = pool_objectives(pools, start, j);
        let terms_before = pool_objectives(pools, start, k);
        let own_terms = pool.objective(offset, values);
        assert forall|i: int| 0 <= i < terms.len() implies term_wf(#[trigger] terms[i], n_vars) by {
            if i < terms_before.len() {
                assert(terms[i] == terms_before[i]);
            } else {
                assert(terms[i] == own_terms[i - terms_before.len()]);
            }
        }
    }
}

/// The row `x[paid] - x[taken] <= 0` is well formed if both are variables.
pub(crate) proof fn lemma_at_most_row_wf(paid: int, taken: int, n_vars: nat)
    requires
        0 <= paid < n_vars,
        0 <= taken < n_vars,
        n_vars <= usize::MAX,
    ensures
        row_wf(at_most_row(paid, taken), n_vars),
{
    let row = at_most_row(paid, taken);
    assert forall|i: int| 0 <= i < row.terms.len() implies term_wf(#[trigger] row.terms[i], n_vars) by {
        if i == 0 {
        } else {
            assert(i == 1);
        }
    }
}

/// A link row names variables of the two pools that it links.
pub(crate) proof fn lemma_link_row_wf(cycle: Seq<Token>, pools: Seq<Pool>, k: int, n_vars: nat)
    requires
        0 <= first_place(pools[k + 1].tokens@, cycle[k + 1]) < pools[k + 1].size(),
        0 <= first_place(pools[k].tokens@, cycle[k + 1]) < pools[k].size(),
        0 <= var_offset(pools, k),
        var_offset(pools, k) + 2 * pools[k].size() <= var_offset(pools, k + 1),
        var_offset(pools, k + 1) + 2 * pools[k + 1].size() <= n_vars,
        n_vars <= usize::MAX,
    ensures
        row_wf(link_row(cycle, pools, k), n_vars),
{
    lemma_at_most_row_wf(
        var_offset(pools, k + 1) + 2 * first_place(pools[k + 1].tokens@, cycle[k + 1]) + 1,
        var_offset(pools, k) + 2 * first_place(pools[k].tokens@, cycle[k + 1]),
        n_vars,
    );
}

/// An idle row names variables of its pool.
pub(crate) proof fn lemma_idle_row_wf(cycle: Seq<Token>, pools: Seq<Pool>, k: int, n_vars: nat)
    requires
        0 <= k < pools.len(),
        0 <= var_offset(pools, k),
        var_offset(pools, k + 1) <= n_vars <= usize::MAX,
    ensures
        row_wf(idle_row(cycle, pools, k), n_vars),
{
    let row = idle_row(cycle, pools, k);
    assert(var_offset(pools, k + 1) == var_offset(pools, k) + 2 * pools[k].size());
    assert forall|v: int| 0 <= v < row.terms.len() implies term_wf(#[trigger] row.terms[v], n_vars) by {}
}

/// The link rows and the idle rows name variables of the system only.
#[verifier::rlimit(40)]
pub(crate) proof fn lemma_links_wf(cycle: Seq<Token>, pools: Seq<Pool>, config: BuildConfig)
    requires
        assemble_error(cycle, pools, config) is None,
    ensures
        forall|k: int|
            0 <= k < link_rows(cycle, pools).len() ==> row_wf(
                #[trigger] link_rows(cycle, pools)[k],
                var_offset(pools, pools.len() as int) as nat,
            ),
        forall|k: int|
            0 <= k < idle_rows(cycle, pools).len() ==> row_wf(
                #[trigger] idle_rows(cycle, pools)[k],
                var_offset(pools, pools.len() as int) as nat,
            ),
{
    let m = pools.len() as int;
    let n_vars = var_offset(pools, m) as nat;
    assert forall|k: int| 0 <= k < link_rows(cycle, pools).len() implies row_wf(
        #[trigger] link_rows(cycle, pools)[k],
        n_vars,
    ) by {
        assert(pools[k].valid() && pools[k + 1].valid());
        assert(pool_fits(cycle, pools, k) && pool_fits(cycle, pools, k + 1));
        lemma_first_place(pools[k].tokens@, cycle[k + 1]);
        lemma_first_place(pools[k + 1].tokens@, cycle[k + 1]);
        lemma_var_offset_grows(pools, k, m);
        lemma_var_offset_grows(pools, k + 2, m);
        lemma_offset_step(pools, k);
        lemma_offset_step(pools, k + 1);
        lemma_link_row_wf(cycle, pools, k, n_vars);
    }
    assert forall|k: int| 0 <= k < idle_rows(cycle, pools).len() implies row_wf(
        #[trigger] idle_rows(cycle, pools)[k],
        n_vars,
    ) by {
        lemma_var_offset_grows(pools, k, m);
        lemma_var_offset_grows(pools, k + 1, m);
        lemma_idle_row_wf(cycle, pools, k, n_vars);
    }
}

/// The system of a cycle is well formed: every term names one of its
/// variables and no ratio has a zero denominator.
pub proof fn lemma_assembled_wf(
    system: ConstraintSystem,
    cycle: Seq<Token>,
    pools: Seq<Pool>,
    config: BuildConfig,
)
    requires
        assemble_error(cycle, pools, config) is None,
        assembled(system, cycle, pools, config),
    ensures
        system.wf(),
{
    let m = pools.len() as int;
    let n_vars = system.n_vars as nat;
    assert forall|i: int| 0 <= i < pools.len() implies (#[trigger] pools[i]).valid() by {}
    lemma_pools_wf(cycle[0], pools, config, m);
    lemma_links_wf(cycle, pools, config);
    let rows = rows_view(system.inequalities@);
    let own = pool_rows(pools, config, m);
    let links = link_rows(cycle, pools);
    assert(rows == own + links);
    assert(rows.len() == system.inequalities@.len());
    assert forall|k: int| 0 <= k < system.inequalities@.len() implies row_wf(
        (#[trigger] system.inequalities@[k])@,
        n_vars,
    ) by {
        assert(rows[k] == system.inequalities@[k]@);
        if k < own.len() {
            assert(rows[k] == own[k]);
        } else {
            assert(rows[k] == links[k - own.len()]);
        }
    }
    let bound = rows_view(system.equalities@);
    assert forall|k: int| 0 <= k < system.equalities@.len() implies row_wf(
        (#[trigger] system.equalities@[k])@,
        n_vars,
    ) by {
        assert(bound[k] == system.equalities@[k]@);
    }
    let cones = cones_view(system.cones@);
    assert forall|k: int| 0 <= k < system.cones@.len() implies cone_wf(
        (#[trigger] system.cones@[k])@,
        n_vars,
    ) by {
        assert(cones[k] == system.cones@[k]@);
    }
}

/// What the first `j` pools add to the system admits the trade that moves
/// nothing.
pub(crate) proof fn lemma_pools_at_rest(cycle: Seq<Token>, pools: Seq<Pool>, config: BuildConfig, j: int)
    requires
        assemble_error(cycle, pools, config) is None,
        0 <= j <= pools.len(),
    ensures
        forall|i: int|
            0 <= i < pool_rows(pools, config, j).len() ==> row_holds(
                #[trigger] pool_rows(pools, config, j)[i],
                at_rest(var_offset(pools, pools.len() as int) as nat),
            ),
        forall|i: int|
            0 <= i < pool_cones(pools, config, j).len() ==> cone_holds(
                #[trigger] pool_cones(pools, config, j)[i],
                at_rest(var_offset(pools, pools.len() as int) as nat),
            ),
    decreases j,
{
    let n_vars = var_offset(pools, pools.len() as int) as nat;
    let x = at_rest(n_vars);
    if j > 0 {
        let k = j - 1;
        lemma_pools_at_rest(cycle, pools, config, k);
        assert forall|i: int| 0 <= i < pools.len() implies (#[trigger] pools[i]).valid() by {}
        lemma_pools_wf(cycle[0], pools, config, j);
        lemma_var_offset_grows(pools, k, pools.len() as int);
        lemma_var_offset_grows(pools, j, pools.len() as int);
        let pool = pools[k];
        let offset = var_offset(pools, k) as usize;
        assert(pool.valid());
        lemma_pool_rows_unsigned(pool, offset, config);
        let rows = pool_rows(pools, config, j);
        let rows_before = pool_rows(pools, config, k);
        let own_rows = pool.rows(offset, config);
        assert forall|i: int| 0 <= i < rows.len() implies row_holds(#[trigger] rows[i], x) by {
            if i < rows_before.len() {
                assert(rows[i] == rows_before[i]);
            } else {
                assert(rows[i] == own_rows[i - rows_before.len()]);
                lemma_row_at_rest(rows[i], x, n_vars);
            }
        }
        let cones = pool_cones(pools, config, j);
        let cones_before = pool_cones(pools, config, k);
        let own_cones = pool.cones(offset, config);
        assert forall|i: int| 0 <= i < cones.len() implies cone_holds(#[trigger] cones[i], x) by {
            if i < cones_before.len() {
                assert(cones[i] == cones_before[i]);
            } else {
                assert(cones[i] == own_cones[i - cones_before.len()]);
                assert(cones[i] == pool.product_cone(offset));
                lemma_cone_at_rest(pool, offset, x);
            }
        }
    }
}

/// Every system of a cycle has a solution: it admits the trade that moves
/// nothing, whose profit is zero.
pub proof fn lemma_rest_is_admitted(
    system: ConstraintSystem,
    cycle: Seq<Token>,
    pools: Seq<Pool>,
    config: BuildConfig,
)
    requires
        assemble_error(cycle, pools, config) is None,
        assembled(system, cycle, pools, config),
    ensures
        system.admits(at_rest(system.n_vars as nat)),
        system.value(at_rest(system.n_vars as nat)) == 0real,
{
    let m = pools.len() as int;
    let n_vars = system.n_vars as nat;
    let x = at_rest(n_vars);
    lemma_assembled_wf(system, cycle, pools, config);
    lemma_pools_at_rest(cycle, pools, config, m);
    lemma_whole_value(0);
    let rows = rows_view(system.inequalities@);
    let own = pool_rows(pools, config, m);
    let links = link_rows(cycle, pools);
    assert(rows == own + links);
    assert(rows.len() == system.inequalities@.len());
    assert forall|k: int| 0 <= k < system.inequalities@.len() implies row_holds(
        (#[trigger] system.inequalities@[k])@,
        x,
    ) by {
        assert(rows[k] == system.inequalities@[k]@);
        if k < own.len() {
            assert(rows[k] == own[k]);
        } else {
            assert(rows[k] == links[k - own.len()]);
            lemma_row_at_rest(rows[k], x, n_vars);
        }
    }
    let bound = rows_view(system.equalities@);
    assert(bound == idle_rows(cycle, pools));
    assert(bound.len() == system.equalities@.len());
    assert forall|k: int| 0 <= k < system.equalities@.len() implies row_binds(
        (#[trigger] system.equalities@[k])@,
        x,
    ) by {
        assert(bound[k] == system.equalities@[k]@);
        assert(bound[k] == idle_row(cycle, pools, k));
        let row = system.equalities@[k]@;
        assert(row_wf(row, n_vars));
        assert forall|i: int| 0 <= i < row.terms.len() implies x[(#[trigger] row.terms[i]).var as int]
            == 0real by {
            assert(term_wf(row.terms[i], n_vars));
        }
        lemma_form_at_rest(row.terms, x);
    }
    let cones = cones_view(system.cones@);
    assert forall|k: int| 0 <= k < system.cones@.len() implies cone_holds(
        (#[trigger] system.cones@[k])@,
        x,
    ) by {
        assert(cones[k] == system.cones@[k]@);
    }
    assert forall|i: int| 0 <= i < system.objective@.len() implies x[(
    #[trigger] system.objective@[i]).var as int] == 0real by {
        assert(term_wf(system.objective@[i], n_vars));
    }
    lemma_form_at_rest(system.objective@, x);
}

/// A sign row that holds keeps its variable from being negative.
pub(crate) proof fn lemma_sign_row(pool: Pool, offset: usize, v: int, x: Seq<real>)
    requires
        row_holds(pool.sign_row(offset, v), x),
    ensures
        x[(offset + v) as usize as int] >= 0real,
{
    let row = pool.sign_row(offset, v);
    let var = (offset + v) as usize as int;
    assert(row.terms.drop_last() =~= Seq::<Term>::empty());
    assert(form_value(row.terms, x) == form_value(Seq::<Term>::empty(), x) + contribution(
        row.terms[0],
        x,
    ));
    lemma_whole_value(1);
    lemma_whole_value(0);
    lemma_unit_products(x[var]);
}

/// Every sign row of a pool is among the pool's rows.
pub(crate) proof fn lemma_sign_row_is_built(pool: Pool, offset: usize, config: BuildConfig, v: int)
    requires
        0 <= v < 2 * pool.size(),
    ensures
        pool.rows(offset, config).contains(pool.sign_row(offset, v)),
{
    let first: Seq<LinearRow> = if pool.uses_cone(config.formulation) {
        Seq::empty()
    } else {
        seq![pool.invariant_row(offset)]
    };
    let rows = pool.rows(offset, config);
    assert(rows[first.len() + pool.size() + v] == pool.sign_row(offset, v));
}

/// Every row of each of the first `j` pools is among the rows of those
/// pools.
pub(crate) proof fn lemma_pool_rows_are_kept(
    pools: Seq<Pool>,
    config: BuildConfig,
    j: int,
    k: int,
    row: LinearRow,
)
    requires
        0 <= k < j,
        pools[k].rows(var_offset(pools, k) as usize, config).contains(row),
    ensures
        pool_rows(pools, config, j).contains(row),
    decreases j,
{
    let before = pool_rows(pools, config, j - 1);
    let own = pools[j - 1].rows(var_offset(pools, j - 1) as usize, config);
    if k == j - 1 {
        let at = choose|at: int| 0 <= at < own.len() && own[at] == row;
        assert((before + own)[before.len() + at] == row);
    } else {
        lemma_pool_rows_are_kept(pools, config, j - 1, k, row);
        let at = choose|at: int| 0 <= at < before.len() && before[at] == row;
        assert((before + own)[at] == row);
    }
}

/// A pool whose idle row binds, and none of whose variables is negative, is
/// crossed one way only.
pub(crate) proof fn lemma_idle_row(cycle: Seq<Token>, pools: Seq<Pool>, x: Seq<real>, k: int)
    requires
        0 <= k < pools.len(),
        0 <= var_offset(pools, k),
        var_offset(pools, k) + 2 * pools[k].size() <= usize::MAX,
        row_binds(idle_row(cycle, pools, k), x),
        forall|v: int| 0 <= v < 2 * pools[k].size() ==> #[trigger] x[var_offset(pools, k) + v] >= 0real,
    ensures
        one_way(cycle, pools, x, k),
{
    let row = idle_row(cycle, pools, k);
    let offset = var_offset(pools, k);
    lemma_whole_value(0);
    lemma_whole_value(1);
    assert forall|v: int| 0 <= v < row.terms.len() implies contribution(#[trigger] row.terms[v], x)
        >= 0real by {
        assert(x[offset + v] >= 0real);
        lemma_unit_products(x[offset + v]);
    }
    lemma_form_without_losses(row.terms, x);
    assert forall|v: int|
        0 <= v < 2 * pools[k].size() && v != paid_place(cycle, pools, k) && v != taken_place(
            cycle,
            pools,
            k,
        ) implies #[trigger] x[offset + v] == 0real by {
        assert(contribution(row.terms[v], x) == 0real);
        lemma_unit_products(x[offset + v]);
    }
}

/// A trade that the system of a cycle admits crosses every pool one way
/// only.
pub proof fn lemma_admitted_is_one_way(
    system: ConstraintSystem,
    cycle: Seq<Token>,
    pools: Seq<Pool>,
    config: BuildConfig,
    x: Seq<real>,
    k: int,
)
    requires
        assemble_error(cycle, pools, config) is None,
        assembled(system, cycle, pools, config),
        system.admits(x),
        0 <= k < pools.len(),
    ensures
        one_way(cycle, pools, x, k),
{
    let m = pools.len() as int;
    let offset = var_offset(pools, k);
    lemma_var_offset_grows(pools, k, m);
    lemma_var_offset_grows(pools, k + 1, m);
    let rows = rows_view(system.inequalities@);
    let own = pool_rows(pools, config, m);
    assert forall|v: int| 0 <= v < 2 * pools[k].size() implies #[trigger] x[offset + v] >= 0real by {
        let row = pools[k].sign_row(offset as usize, v);
        lemma_sign_row_is_built(pools[k], offset as usize, config, v);
        lemma_pool_rows_are_kept(pools, config, m, k, row);
        let at = choose|at: int| 0 <= at < own.len() && own[at] == row;
        assert(rows == own + link_rows(cycle, pools));
        assert(rows[at] == row);
        assert(rows.len() == system.inequalities@.len());
        assert(rows[at] == system.inequalities@[at]@);
        assert(row_holds(system.inequalities@[at]@, x));
        lemma_sign_row(pools[k], offset as usize, v, x);
    }
    let bound = rows_view(system.equalities@);
    assert(bound == idle_rows(cycle, pools));
    assert(bound.len() == pools.len());
    assert(bound.len() == system.equalities@.len());
    assert(bound[k] == system.equalities@[k]@);
    assert(row_binds(system.equalities@[k]@, x));
    lemma_idle_row(cycle, pools, x, k);
}

/// The objective of a cycle's system is the profit in the start token: for
/// every trade that the system admits, along a cycle that comes back to its
/// start token at its end and not before, the objective is what comes out of
/// the last pool less what goes into the first.
pub proof fn lemma_admitted_objective_is_profit(
    system: ConstraintSystem,
    cycle: Seq<Token>,
    pools: Seq<Pool>,
    config: BuildConfig,
    x: Seq<real>,
)
    requires
        assemble_error(cycle, pools, config) is None,
        assembled(system, cycle, pools, config),
        cycle.drop_last().no_duplicates(),
        system.admits(x),
    ensures
        system.value(x) == x[taken_out_var(cycle, pools)] - x[paid_in_var(cycle, pools)],
{
    assert forall|k: int| 0 <= k < pools.len() implies #[trigger] one_way(cycle, pools, x, k) by {
        lemma_admitted_is_one_way(system, cycle, pools, config, x, k);
    }
    lemma_objective_is_profit(cycle, pools, config, x);
}

} // verus!
