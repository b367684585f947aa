//! Stitching the constraints of the pools along a cycle into one system.

use vstd::prelude::*;
use crate::assemble_laws::lemma_assembled_wf;
use crate::assemble_laws::lemma_var_offset_grows;
use crate::constraints::BuildConfig;
use crate::constraints::Pool;
use crate::pool::ArbError;
use crate::pool::FEE_DENOMINATOR;
use crate::select::CycleOutcome;
use crate::system::Cone;
use crate::system::ConstraintSystem;
use crate::system::LinearRow;
use crate::system::Ratio;
use crate::system::Row;
use crate::system::Term;
use crate::system::cones_view;
use crate::system::rows_view;
use crate::token::Token;

verus! {

/// The first place of `token` among `tokens`; meaningful when it is there.
pub open spec fn first_place(tokens: Seq<Token>, token: Token) -> int {
    choose|i: int|
        0 <= i < tokens.len() && tokens[i] == token && forall|k: int|
            0 <= k < i ==> tokens[k] != token
}

/// The number of trade variables of the first `k` pools, which is where the
/// variables of pool `k` start.
pub open spec fn var_offset(pools: Seq<Pool>, k: int) -> int
    decreases k,
{
    if k <= 0 {
        0
    } else {
        var_offset(pools, k - 1) + 2 * pools[k - 1].size()
    }
}

/// The value of each of the pool's tokens when `start` is the unit of
/// account and nothing else counts: 1 for `start`, 0 for every other token.
pub open spec fn start_values(pool: Pool, start: Token) -> Seq<u128> {
    Seq::new(
        pool.tokens@.len(),
        |j: int|
            if pool.tokens@[j] == start {
                1u128
            } else {
                0u128
            },
    )
}

/// The rows of the first `k` pools, pool by pool.
pub open spec fn pool_rows(pools: Seq<Pool>, config: BuildConfig, k: int) -> Seq<LinearRow>
    decreases k,
{
    if k <= 0 {
        Seq::empty()
    } else {
        pool_rows(pools, config, k - 1) + pools[k - 1].rows(
            var_offset(pools, k - 1) as usize,
            config,
        )
    }
}

/// The cone blocks of the first `k` pools, pool by pool.
pub open spec fn pool_cones(pools: Seq<Pool>, config: BuildConfig, k: int) -> Seq<Cone>
    decreases k,
{
    if k <= 0 {
        Seq::empty()
    } else {
        pool_cones(pools, config, k - 1) + pools[k - 1].cones(
            var_offset(pools, k - 1) as usize,
            config,
        )
    }
}

/// The objective terms of the first `k` pools, pool by pool, with `start` as
/// the unit of account.
pub open spec fn pool_objectives(pools: Seq<Pool>, start: Token, k: int) -> Seq<Term>
    decreases k,
{
    if k <= 0 {
        Seq::empty()
    } else {
        pool_objectives(pools, start, k - 1) + pools[k - 1].objective(
            var_offset(pools, k - 1) as usize,
            start_values(pools[k - 1], start),
        )
    }
}

/// The row `x[paid] - x[taken] <= 0`.
pub open spec fn at_most_row(paid: int, taken: int) -> LinearRow {
    LinearRow {
        terms: seq![
            Term {
                var: paid as usize,
                coeff: Ratio { negative: false, num: 1, num_scale: 1, den: 1, den_scale: 1 },
            },
            Term {
                var: taken as usize,
                coeff: Ratio { negative: true, num: 1, num_scale: 1, den: 1, den_scale: 1 },
            },
        ],
        bound: Ratio { negative: false, num: 0, num_scale: 1, den: 1, den_scale: 1 },
    }
}

/// The row that links pool `k` to the next pool of the cycle at the token
/// they share: what is paid into the next pool is at most what was taken out
/// of this one, `delta - lambda <= 0`. What is left over is given up.
pub open spec fn link_row(cycle: Seq<Token>, pools: Seq<Pool>, k: int) -> LinearRow {
    let shared = cycle[k + 1];
    at_most_row(
        var_offset(pools, k + 1) + 2 * first_place(pools[k + 1].tokens@, shared) + 1,
        var_offset(pools, k) + 2 * first_place(pools[k].tokens@, shared),
    )
}

/// The row that keeps pool `k` to the one way in which the cycle crosses it:
/// of the pool's trade variables, all but the amount paid in of the token at
/// which the cycle enters the pool and the amount taken out of the token at
/// which it leaves add up to zero. As no variable is negative, each of them
/// is zero, so no token enters the trade from nowhere.
pub open spec fn idle_row(cycle: Seq<Token>, pools: Seq<Pool>, k: int) -> LinearRow {
    let paid = 2 * first_place(pools[k].tokens@, cycle[k]) + 1;
    let taken = 2 * first_place(pools[k].tokens@, cycle[k + 1]);
    LinearRow {
        terms: Seq::new(
            2 * pools[k].size(),
            |v: int|
                Term {
                    var: (var_offset(pools, k) + v) as usize,
                    coeff: Ratio {
                        negative: false,
                        num: if v == paid || v == taken {
                            0
                        } else {
                            1
                        },
                        num_scale: 1,
                        den: 1,
                        den_scale: 1,
                    },
                },
        ),
        bound: Ratio { negative: false, num: 0, num_scale: 1, den: 1, den_scale: 1 },
    }
}

/// One idle row per pool.
pub open spec fn idle_rows(cycle: Seq<Token>, pools: Seq<Pool>) -> Seq<LinearRow> {
    Seq::new(pools.len(), |k: int| idle_row(cycle, pools, k))
}

/// The link rows between each pool of the cycle and the next.
pub open spec fn link_rows(cycle: Seq<Token>, pools: Seq<Pool>) -> Seq<LinearRow> {
    Seq::new((pools.len() - 1) as nat, |k: int| link_row(cycle, pools, k))
}

/// Two of the pools have the same identifier.
pub open spec fn pool_repeats(pools: Seq<Pool>) -> bool {
    exists|i: int, j: int| 0 <= i < j < pools.len() && #[trigger] pools[i].id == #[trigger] pools[j].id
}

/// Pool `k` trades both the token at which the cycle enters it and the one
/// at which the cycle leaves it.
pub open spec fn pool_fits(cycle: Seq<Token>, pools: Seq<Pool>, k: int) -> bool {
    pools[k].tokens@.contains(cycle[k]) && pools[k].tokens@.contains(cycle[k + 1])
}

/// Why a cycle cannot be assembled, if so. In this order:
/// - there are fewer than two pools, or the cycle does not name one token
///   more than there are pools, or it does not end where it starts: the
///   configuration is malformed;
/// - a pool occurs twice: the cycle is degenerate;
/// - a pool breaks its invariant;
/// - a pool does not trade the tokens that the cycle crosses it with, or the
///   trade cap is not between 1 and 10000 basis points: the configuration is
///   malformed;
/// - the trade variables do not fit the index type.
pub open spec fn assemble_error(cycle: Seq<Token>, pools: Seq<Pool>, config: BuildConfig) -> Option<
    ArbError,
> {
    if pools.len() < 2 || cycle.len() != pools.len() + 1 || cycle[0] != cycle.last() {
        Some(ArbError::MalformedConfiguration)
    } else if pool_repeats(pools) {
        Some(ArbError::DegenerateCycle)
    } else if exists|k: int| 0 <= k < pools.len() && !(#[trigger] pools[k]).valid() {
        Some(ArbError::InvalidPoolInvariant)
    } else if exists|k: int| 0 <= k < pools.len() && !#[trigger] pool_fits(cycle, pools, k) {
        Some(ArbError::MalformedConfiguration)
    } else if config.trade_cap matches Some(cap) && (cap == 0 || cap > FEE_DENOMINATOR) {
        Some(ArbError::MalformedConfiguration)
    } else if var_offset(pools, pools.len() as int) > usize::MAX {
        Some(ArbError::Overflow)
    } else {
        None
    }
}

/// `system` is the system of the cycle and its pools: the variables of all
/// pools, the objective that counts the start token, every pool's rows and
/// then the link rows, one idle row per pool as equalities, and every pool's
/// cone blocks.
pub open spec fn assembled(
    system: ConstraintSystem,
    cycle: Seq<Token>,
    pools: Seq<Pool>,
    config: BuildConfig,
) -> bool {
    &&& system.n_vars == var_offset(pools, pools.len() as int)
    &&& system.objective@ == pool_objectives(pools, cycle[0], pools.len() as int)
    &&& rows_view(system.inequalities@) == pool_rows(pools, config, pools.len() as int) + link_rows(
        cycle,
        pools,
    )
    &&& rows_view(system.equalities@) == idle_rows(cycle, pools)
    &&& cones_view(system.cones@) == pool_cones(pools, config, pools.len() as int)
}

/// The first place of `token` among `tokens`, if it is there.
fn find_place(tokens: &Vec<Token>, token: Token) -> (found: Option<usize>)
    ensures
        found is Some <==> tokens@.contains(token),
        found matches Some(i) ==> i == first_place(tokens@, token) && i < tokens@.len(),
{
    let mut i: usize = 0;
    while i < tokens.len()
        invariant
            i <= tokens.len(),
            forall|k: int| 0 <= k < i ==> tokens@[k] != token,
        decreases tokens.len() - i,
    {
        if tokens[i] == token {
            return Some(i);
        }
        i += 1;
    }
    None
}

/// Whether two of the pools have the same identifier.
pub(crate) fn has_repeated_pool(pools: &Vec<Pool>) -> (repeats: bool)
    ensures
        repeats == pool_repeats(pools@),
{
    let mut j: usize = 0;
    while j < pools.len()
        invariant
            j <= pools.len(),
            forall|a: int, b: int|
                0 <= a < b < j ==> #[trigger] pools@[a].id != #[trigger] pools@[b].id,
        decreases pools.len() - j,
    {
        let mut i: usize = 0;
        while i < j
            invariant
                i <= j,
                j < pools.len(),
                forall|a: int| 0 <= a < i ==> #[trigger] pools@[a].id != pools@[j as int].id,
            decreases j - i,
        {
            if pools[i].id == pools[j].id {
                return true;
            }
            i += 1;
        }
        j += 1;
    }
    false
}

/// Whether every pool keeps its invariant.
pub(crate) fn all_valid(pools: &Vec<Pool>) -> (valid: bool)
    ensures
        valid == forall|k: int| 0 <= k < pools@.len() ==> (#[trigger] pools@[k]).valid(),
{
    let mut k: usize = 0;
    while k < pools.len()
        invariant
            k <= pools.len(),
            forall|i: int| 0 <= i < k ==> (#[trigger] pools@[i]).valid(),
        decreases pools.len() - k,
    {
        if pools[k].validate().is_err() {
            return false;
        }
        k += 1;
    }
    true
}

/// For each pool, the place of the token at which the cycle enters it and
/// the place of the token at which the cycle leaves it; `None` when some
/// pool lacks one of the two.
#[verifier::rlimit(40)]
fn locate(cycle: &[Token], pools: &Vec<Pool>) -> (found: Option<(Vec<usize>, Vec<usize>)>)
    requires
        cycle@.len() == pools@.len() + 1,
    ensures
        found is Some <==> forall|k: int|
            0 <= k < pools@.len() ==> #[trigger] pool_fits(cycle@, pools@, k),
        found matches Some((ins, outs)) ==> {
            &&& ins@.len() == pools@.len()
            &&& outs@.len() == pools@.len()
            &&& forall|i: int|
                0 <= i < pools@.len() ==> #[trigger] ins@[i] == first_place(
                    pools@[i].tokens@,
                    cycle@[i],
                ) && ins@[i] < pools@[i].tokens@.len()
            &&& forall|i: int|
                0 <= i < pools@.len() ==> #[trigger] outs@[i] == first_place(
                    pools@[i].tokens@,
                    cycle@[i + 1],
                ) && outs@[i] < pools@[i].tokens@.len()
        },
{
    let mut ins: Vec<usize> = Vec::new();
    let mut outs: Vec<usize> = Vec::new();
    let mut k: usize = 0;
    while k < pools.len()
        invariant
            k <= pools@.len(),
            cycle@.len() == pools@.len() + 1,
            ins@.len() == k,
            outs@.len() == k,
            forall|i: int| 0 <= i < k ==> #[trigger] pool_fits(cycle@, pools@, i),
            forall|i: int|
                0 <= i < k ==> #[trigger] ins@[i] == first_place(pools@[i].tokens@, cycle@[i])
                    && ins@[i] < pools@[i].tokens@.len(),
            forall|i: int|
                0 <= i < k ==> #[trigger] outs@[i] == first_place(pools@[i].tokens@, cycle@[i + 1])
                    && outs@[i] < pools@[i].tokens@.len(),
        decreases pools.len() - k,
    {
        let a = match find_place(&pools[k].tokens, cycle[k]) {
            Some(a) => a,
            None => {
                assert(!pool_fits(cycle@, pools@, k as int));
                return None;
            },
        };
        let b = match find_place(&pools[k].tokens, cycle[k + 1]) {
            Some(b) => b,
            None => {
                assert(!pool_fits(cycle@, pools@, k as int));
                return None;
            },
        };
        assert(pool_fits(cycle@, pools@, k as int));
        ins.push(a);
        outs.push(b);
        k += 1;
    }
    Some((ins, outs))
}

/// Where each pool's variables start, and the number of variables in all;
/// `None` when they do not fit the index type.
pub(crate) fn lay_out(pools: &Vec<Pool>) -> (laid: Option<(Vec<usize>, usize)>)
    ensures
        laid is Some <==> var_offset(pools@, pools@.len() as int) <= usize::MAX,
        laid matches Some((offsets, total)) ==> {
            &&& total == var_offset(pools@, pools@.len() as int)
            &&& offsets@.len() == pools@.len()
            &&& forall|i: int|
                0 <= i < pools@.len() ==> #[trigger] offsets@[i] == var_offset(pools@, i)
        },
{
    let mut offsets: Vec<usize> = Vec::new();
    let mut total: usize = 0;
    let mut k: usize = 0;
    while k < pools.len()
        invariant
            k <= pools@.len(),
            offsets@.len() == k,
            total == var_offset(pools@, k as int),
            forall|i: int| 0 <= i < k ==> #[trigger] offsets@[i] == var_offset(pools@, i),
        decreases pools.len() - k,
    {
        offsets.push(total);
        let size = pools[k].reserves.len();
        proof {
            lemma_var_offset_grows(pools@, k + 1, pools@.len() as int);
        }
        if size > (usize::MAX - total) / 2 {
            return None;
        }
        total = total + 2 * size;
        k += 1;
    }
    Some((offsets, total))
}

/// The value of each of the pool's tokens with `start` as the unit of
/// account.
fn value_in_start(pool: &Pool, start: Token) -> (values: Vec<u128>)
    ensures
        values@ == start_values(*pool, start),
{
    let mut values: Vec<u128> = Vec::new();
    let mut j: usize = 0;
    while j < pool.tokens.len()
        invariant
            j <= pool.tokens@.len(),
            values@.len() == j,
            forall|i: int| 0 <= i < j ==> #[trigger] values@[i] == start_values(*pool, start)[i],
        decreases pool.tokens.len() - j,
    {
        values.push(
            if pool.tokens[j] == start {
                1
            } else {
                0
            },
        );
        j += 1;
    }
    assert(values@ =~= start_values(*pool, start));
    values
}

/// The idle row of every pool.
fn idle_equalities(
    cycle: &[Token],
    pools: &Vec<Pool>,
    ins: &Vec<usize>,
    outs: &Vec<usize>,
    offsets: &Vec<usize>,
) -> (rows: Vec<Row>)
    requires
        cycle@.len() == pools@.len() + 1,
        ins@.len() == pools@.len(),
        outs@.len() == pools@.len(),
        offsets@.len() == pools@.len(),
        var_offset(pools@, pools@.len() as int) <= usize::MAX,
        forall|i: int| 0 <= i < pools@.len() ==> (#[trigger] pools@[i]).valid(),
        forall|i: int| 0 <= i < pools@.len() ==> #[trigger] offsets@[i] == var_offset(pools@, i),
        forall|i: int|
            0 <= i < pools@.len() ==> #[trigger] ins@[i] == first_place(pools@[i].tokens@, cycle@[i])
                && ins@[i] < pools@[i].tokens@.len(),
        forall|i: int|
            0 <= i < pools@.len() ==> #[trigger] outs@[i] == first_place(
                pools@[i].tokens@,
                cycle@[i + 1],
            ) && outs@[i] < pools@[i].tokens@.len(),
    ensures
        rows_view(rows@) == idle_rows(cycle@, pools@),
{
    let m = pools.len();
    let mut rows: Vec<Row> = Vec::new();
    let mut k: usize = 0;
    assert(rows_view(rows@) =~= Seq::new(0, |i: int| idle_row(cycle@, pools@, i)));
    while k < m
        invariant
            k <= m,
            m == pools@.len(),
            cycle@.len() == m + 1,
            ins@.len() == m,
            outs@.len() == m,
            offsets@.len() == m,
            var_offset(pools@, m as int) <= usize::MAX,
            forall|i: int| 0 <= i < m ==> (#[trigger] pools@[i]).valid(),
            forall|i: int| 0 <= i < m ==> #[trigger] offsets@[i] == var_offset(pools@, i),
            forall|i: int|
                0 <= i < m ==> #[trigger] ins@[i] == first_place(pools@[i].tokens@, cycle@[i])
                    && ins@[i] < pools@[i].tokens@.len(),
            forall|i: int|
                0 <= i < m ==> #[trigger] outs@[i] == first_place(pools@[i].tokens@, cycle@[i + 1])
                    && outs@[i] < pools@[i].tokens@.len(),
            rows_view(rows@) == Seq::new(k as nat, |i: int| idle_row(cycle@, pools@, i)),
        decreases m - k,
    {
        proof {
            lemma_var_offset_grows(pools@, k + 1, m as int);
            assert(pools@[k as int].valid());
        }
        let size = pools[k].reserves.len();
        let offset = offsets[k];
        let paid = 2 * ins[k] + 1;
        let taken = 2 * outs[k];
        let mut terms: Vec<Term> = Vec::new();
        let mut v: usize = 0;
        while v < 2 * size
            invariant
                v <= 2 * size,
                size == pools@[k as int].size(),
                offset == var_offset(pools@, k as int),
                offset + 2 * size <= usize::MAX,
                paid == 2 * first_place(pools@[k as int].tokens@, cycle@[k as int]) + 1,
                taken == 2 * first_place(pools@[k as int].tokens@, cycle@[k + 1]),
                terms@ == idle_row(cycle@, pools@, k as int).terms.take(v as int),
            decreases 2 * size - v,
        {
            let weight: u128 = if v == paid || v == taken {
                0
            } else {
                1
            };
            terms.push(Term { var: offset + v, coeff: Ratio::whole(weight) });
            assert(terms@ =~= idle_row(cycle@, pools@, k as int).terms.take(v + 1));
            v += 1;
        }
        assert(idle_row(cycle@, pools@, k as int).terms.take(2 * size as int) == idle_row(
            cycle@,
            pools@,
            k as int,
        ).terms);
        let row = Row { terms, bound: Ratio::whole(0) };
        assert(row@ == idle_row(cycle@, pools@, k as int));
        let ghost held = row@;
        let ghost before = rows_view(rows@);
        rows.push(row);
        assert(rows_view(rows@) =~= before.push(held));
        assert(rows_view(rows@) =~= Seq::new((k + 1) as nat, |i: int| idle_row(cycle@, pools@, i)));
        k += 1;
    }
    rows
}

/// The system of what the pools add each on its own: the variables of all
/// pools, every pool's rows and cone blocks, and the objective that counts
/// what is taken out of the pools of `start` less what is paid in.
pub(crate) fn pool_parts(
    pools: &Vec<Pool>,
    offsets: &Vec<usize>,
    total: usize,
    start: Token,
    config: BuildConfig,
) -> (system: ConstraintSystem)
    requires
        offsets@.len() == pools@.len(),
        total == var_offset(pools@, pools@.len() as int),
        !(config.trade_cap matches Some(cap) && (cap == 0 || cap > FEE_DENOMINATOR)),
        forall|i: int| 0 <= i < pools@.len() ==> #[trigger] offsets@[i] == var_offset(pools@, i),
        forall|i: int| 0 <= i < pools@.len() ==> (#[trigger] pools@[i]).valid(),
    ensures
        system.n_vars == total,
        system.objective@ == pool_objectives(pools@, start, pools@.len() as int),
        rows_view(system.inequalities@) == pool_rows(pools@, config, pools@.len() as int),
        system.equalities@.len() == 0,
        cones_view(system.cones@) == pool_cones(pools@, config, pools@.len() as int),
{
    let m = pools.len();
    let mut system = ConstraintSystem::new();
    system.n_vars = total;
    let mut k: usize = 0;
    assert(rows_view(system.inequalities@) =~= pool_rows(pools@, config, 0));
    assert(cones_view(system.cones@) =~= pool_cones(pools@, config, 0));
    assert(system.objective@ =~= pool_objectives(pools@, start, 0));
    while k < m
        invariant
            k <= m,
            m == pools@.len(),
            offsets@.len() == m,
            total == var_offset(pools@, m as int),
            system.n_vars == total,
            system.equalities@.len() == 0,
            !(config.trade_cap matches Some(cap) && (cap == 0 || cap > FEE_DENOMINATOR)),
            forall|i: int| 0 <= i < m ==> #[trigger] offsets@[i] == var_offset(pools@, i),
            forall|i: int| 0 <= i < m ==> (#[trigger] pools@[i]).valid(),
            system.objective@ == pool_objectives(pools@, start, k as int),
            rows_view(system.inequalities@) == pool_rows(pools@, config, k as int),
            cones_view(system.cones@) == pool_cones(pools@, config, k as int),
        decreases m - k,
    {
        let pool = &pools[k];
        let values = value_in_start(pool, start);
        proof {
            lemma_var_offset_grows(pools@, k + 1, m as int);
            assert(pools@[k as int].valid());
        }
        let ghost rows_before = rows_view(system.inequalities@);
        let ghost cones_before = cones_view(system.cones@);
        match pool.build_constraints(offsets[k], values.as_slice(), config) {
            Ok(parts) => {
                let ghost new_rows = rows_view(parts.rows@);
                let ghost new_cones = cones_view(parts.cones@);
                let mut parts = parts;
                system.inequalities.append(&mut parts.rows);
                system.cones.append(&mut parts.cones);
                system.objective.append(&mut parts.objective);
                assert(rows_view(system.inequalities@) =~= rows_before + new_rows);
                assert(cones_view(system.cones@) =~= cones_before + new_cones);
            },
            Err(_) => {
                assert(false);
            },
        }
        k += 1;
    }
    system
}

/// Builds the constraint system of a cycle.
///
/// `cycle` names the tokens in the order in which they are crossed, with the
/// start token at both ends, and `pools[k]` is the pool that takes the trade
/// from `cycle[k]` to `cycle[k + 1]`. Each pool gets two trade variables per
/// token, pool after pool. The system has every pool's own rows and cone
/// blocks, followed by one row per inner token of the cycle that links the
/// pool before it to the pool after it, and one equality per pool that keeps
/// the pool to the way in which the cycle crosses it. Its objective, to be
/// maximised, is the amount of the start token that the trade takes out of
/// the pools beyond what it pays in: what comes out of the last pool less
/// what goes into the first.
pub fn assemble(cycle: &[Token], pools: &Vec<Pool>, config: BuildConfig) -> (built: Result<
    ConstraintSystem,
    ArbError,
>)
    ensures
        match built {
            Ok(system) => assemble_error(cycle@, pools@, config) is None && assembled(
                system,
                cycle@,
                pools@,
                config,
            ) && system.wf(),
            Err(e) => assemble_error(cycle@, pools@, config) == Some(e),
        },
{
    let m = pools.len();
    if m < 2 || cycle.len() == 0 || cycle.len() - 1 != m || cycle[0] != cycle[m] {
        return Err(ArbError::MalformedConfiguration);
    }
    if has_repeated_pool(pools) {
        return Err(ArbError::DegenerateCycle);
    }
    if !all_valid(pools) {
        return Err(ArbError::InvalidPoolInvariant);
    }
    let (ins, outs) = match locate(cycle, pools) {
        Some(places) => places,
        None => {
            return Err(ArbError::MalformedConfiguration);
        },
    };
    match config.trade_cap {
        Some(cap) => {
            if cap == 0 || cap > FEE_DENOMINATOR {
                return Err(ArbError::MalformedConfiguration);
            }
        },
        None => {},
    }
    let (offsets, total) = match lay_out(pools) {
        Some(laid) => laid,
        None => {
            return Err(ArbError::Overflow);
        },
    };
    assert(assemble_error(cycle@, pools@, config) is None);
    let idle = idle_equalities(cycle, pools, &ins, &outs, &offsets);
    let mut system = pool_parts(pools, &offsets, total, cycle[0], config);
    system.equalities = idle;
    let ghost own_rows = rows_view(system.inequalities@);
    let mut k: usize = 0;
    while k + 1 < m
        invariant
            k < m,
            m == pools@.len(),
            m >= 2,
            cycle@.len() == m + 1,
            offsets@.len() == m,
            ins@.len() == m,
            outs@.len() == m,
            total == var_offset(pools@, m as int),
            system.n_vars == total,
            rows_view(system.equalities@) == idle_rows(cycle@, pools@),
            forall|i: int| 0 <= i < m ==> #[trigger] offsets@[i] == var_offset(pools@, i),
            forall|i: int| 0 <= i < m ==> (#[trigger] pools@[i]).valid(),
            forall|i: int|
                0 <= i < m ==> #[trigger] ins@[i] == first_place(pools@[i].tokens@, cycle@[i])
                    && ins@[i] < pools@[i].tokens@.len(),
            forall|i: int|
                0 <= i < m ==> #[trigger] outs@[i] == first_place(pools@[i].tokens@, cycle@[i + 1])
                    && outs@[i] < pools@[i].tokens@.len(),
            system.objective@ == pool_objectives(pools@, cycle@[0], m as int),
            cones_view(system.cones@) == pool_cones(pools@, config, m as int),
            rows_view(system.inequalities@) == own_rows + Seq::new(
                k as nat,
                |i: int| link_row(cycle@, pools@, i),
            ),
        decreases m - k,
    {
        proof {
            lemma_var_offset_grows(pools@, k + 1, m as int);
            lemma_var_offset_grows(pools@, k + 2, m as int);
            assert(pools@[k as int].valid());
            assert(pools@[k + 1].valid());
        }
        let paid = offsets[k + 1] + 2 * ins[k + 1] + 1;
        let taken = offsets[k] + 2 * outs[k];
        let mut terms: Vec<Term> = Vec::new();
        terms.push(Term { var: paid, coeff: Ratio::whole(1) });
        terms.push(Term { var: taken, coeff: Ratio::new(true, 1, 1, 1, 1) });
        let row = Row { terms, bound: Ratio::whole(0) };
        assert(row@.terms =~= link_row(cycle@, pools@, k as int).terms);
        assert(row@ == link_row(cycle@, pools@, k as int));
        let ghost held = row@;
        let ghost before = rows_view(system.inequalities@);
        system.inequalities.push(row);
        assert(rows_view(system.inequalities@) =~= before.push(held));
        assert(rows_view(system.inequalities@) =~= own_rows + Seq::new(
            (k + 1) as nat,
            |i: int| link_row(cycle@, pools@, i),
        ));
        k += 1;
    }
    assert(rows_view(system.inequalities@) =~= pool_rows(pools@, config, m as int) + link_rows(
        cycle@,
        pools@,
    ));
    proof {
        lemma_assembled_wf(system, cycle@, pools@, config);
    }
    Ok(system)
}

/// The variable that holds what the trade pays into the first pool of the
/// start token.
pub open spec fn paid_in_var(cycle: Seq<Token>, pools: Seq<Pool>) -> int {
    2 * first_place(pools[0].tokens@, cycle[0]) + 1
}

/// The variable that holds what the trade takes out of the last pool of the
/// start token.
pub open spec fn taken_out_var(cycle: Seq<Token>, pools: Seq<Pool>) -> int {
    var_offset(pools, pools.len() - 1) + 2 * first_place(pools.last().tokens@, cycle.last())
}

/// Reads a solution of the system that [`assemble`] builds for the same
/// cycle and pools: `amounts[v]` is the value of trade variable `v`. What the
/// cycle takes in is the start token paid into the first pool, and what it
/// gives back is the start token taken out of the last.
///
/// Whatever keeps the system from being assembled is reported here as well;
/// a solution that does not have one amount per variable is a malformed
/// configuration.
pub fn read_solution(cycle: &[Token], pools: &Vec<Pool>, config: BuildConfig, amounts: &[u128]) -> (read:
    Result<CycleOutcome, ArbError>)
    ensures
        match read {
            Ok(outcome) => {
                &&& assemble_error(cycle@, pools@, config) is None
                &&& amounts@.len() == var_offset(pools@, pools@.len() as int)
                &&& 0 <= paid_in_var(cycle@, pools@) < amounts@.len()
                &&& 0 <= taken_out_var(cycle@, pools@) < amounts@.len()
                &&& outcome.input == amounts@[paid_in_var(cycle@, pools@)]
                &&& outcome.output == amounts@[taken_out_var(cycle@, pools@)]
            },
            Err(e) => match assemble_error(cycle@, pools@, config) {
                Some(cause) => e == cause,
                None => e == ArbError::MalformedConfiguration && amounts@.len() != var_offset(
                    pools@,
                    pools@.len() as int,
                ),
            },
        },
{
    let m = pools.len();
    if m < 2 || cycle.len() == 0 || cycle.len() - 1 != m || cycle[0] != cycle[m] {
        return Err(ArbError::MalformedConfiguration);
    }
    if has_repeated_pool(pools) {
        return Err(ArbError::DegenerateCycle);
    }
    if !all_valid(pools) {
        return Err(ArbError::InvalidPoolInvariant);
    }
    let (ins, outs) = match locate(cycle, pools) {
        Some(places) => places,
        None => {
            return Err(ArbError::MalformedConfiguration);
        },
    };
    match config.trade_cap {
        Some(cap) => {
            if cap == 0 || cap > FEE_DENOMINATOR {
                return Err(ArbError::MalformedConfiguration);
            }
        },
        None => {},
    }
    let (offsets, total) = match lay_out(pools) {
        Some(laid) => laid,
        None => {
            return Err(ArbError::Overflow);
        },
    };
    assert(assemble_error(cycle@, pools@, config) is None);
    if amounts.len() != total {
        return Err(ArbError::MalformedConfiguration);
    }
    proof {
        lemma_var_offset_grows(pools@, 1, m as int);
        lemma_var_offset_grows(pools@, m as int, m as int);
        assert(pools@[0].valid());
        assert(pools@[m - 1].valid());
        assert(var_offset(pools@, 1) == var_offset(pools@, 0) + 2 * pools@[0].size());
        assert(var_offset(pools@, 0) == 0);
    }
    let paid = 2 * ins[0] + 1;
    let taken = offsets[m - 1] + 2 * outs[m - 1];
    Ok(CycleOutcome { input: amounts[paid], output: amounts[taken] })
}

/// Where in pool `k` the trade pays in: the `delta` of the token at which
/// the cycle enters the pool, counted from the pool's first variable.
pub open spec fn paid_place(cycle: Seq<Token>, pools: Seq<Pool>, k: int) -> int {
    2 * first_place(pools[k].tokens@, cycle[k]) + 1
}

/// Where in pool `k` the trade takes out: the `lambda` of the token at which
/// the cycle leaves the pool, counted from the pool's first variable.
pub open spec fn taken_place(cycle: Seq<Token>, pools: Seq<Pool>, k: int) -> int {
    2 * first_place(pools[k].tokens@, cycle[k + 1])
}

/// In `x`, pool `k` is crossed one way only: all of its trade variables but
/// the one paid in and the one taken out are zero.
pub open spec fn one_way(cycle: Seq<Token>, pools: Seq<Pool>, x: Seq<real>, k: int) -> bool {
    forall|v: int|
        0 <= v < 2 * pools[k].size() && v != paid_place(cycle, pools, k) && v != taken_place(
            cycle,
            pools,
            k,
        ) ==> #[trigger] x[var_offset(pools, k) + v] == 0real
}

/// The trade that moves nothing: zero for every variable.
pub open spec fn at_rest(n_vars: nat) -> Seq<real> {
    Seq::new(n_vars, |i: int| 0real)
}

} // verus!
