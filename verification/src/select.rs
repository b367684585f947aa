//! Choosing among candidate cycles once each has been solved on its own.

use vstd::prelude::*;
use crate::assemble::at_most_row;
use crate::graph::PoolGraph;
use crate::graph::views;
use crate::pool::ArbError;
use crate::pool::Pools;
use crate::pool::UniV2Pool;
use crate::pool::flow_output;
use crate::system::ConstraintSystem;
use crate::system::LinearRow;
use crate::system::Ratio;
use crate::system::Row;
use crate::system::Term;
use crate::system::row_wf;
use crate::system::rows_view;
use crate::system::term_wf;
use crate::token::Token;

verus! {

/// What solving one candidate cycle on its own gave: the amount to pay in
/// and the amount that comes back.
#[derive(Clone, Copy, Debug, PartialEq, Eq, Structural)]
pub struct CycleOutcome {
    pub input: u128,
    pub output: u128,
}

impl CycleOutcome {
    /// What the cycle returns beyond what it takes.
    pub open spec fn profit(&self) -> int {
        self.output - self.input
    }

    /// The cycle makes a profit and its input is within the budget.
    pub open spec fn eligible(&self, budget: u128) -> bool {
        self.output > self.input && self.input <= budget
    }
}

/// The cycle that was picked, with the amount to pay in and the profit.
#[derive(Clone, Copy, Debug, PartialEq, Eq, Structural)]
pub struct SelectionResult {
    pub index: usize,
    pub input: u128,
    pub profit: u128,
}

/// Outcome `i` is eligible, no eligible outcome has a larger profit, and no
/// earlier eligible outcome has the same profit.
pub open spec fn is_best(outcomes: Seq<CycleOutcome>, budget: u128, i: int) -> bool {
    &&& 0 <= i < outcomes.len()
    &&& outcomes[i].eligible(budget)
    &&& forall|j: int|
        0 <= j < outcomes.len() && (#[trigger] outcomes[j]).eligible(budget) ==> outcomes[j].profit()
            <= outcomes[i].profit()
    &&& forall|j: int|
        0 <= j < i && (#[trigger] outcomes[j]).eligible(budget) ==> outcomes[j].profit()
            < outcomes[i].profit()
}

/// Picks the one cycle to trade: among the cycles that make a profit with an
/// input within `budget`, the one with the largest profit, and of several
/// such the first. `None` when no cycle qualifies.
pub fn select(outcomes: &Vec<CycleOutcome>, budget: u128) -> (chosen: Option<SelectionResult>)
    ensures
        match chosen {
            Some(pick) => {
                &&& is_best(outcomes@, budget, pick.index as int)
                &&& pick.input == outcomes@[pick.index as int].input
                &&& pick.profit == outcomes@[pick.index as int].profit()
            },
            None => forall|j: int|
                0 <= j < outcomes@.len() ==> !(#[trigger] outcomes@[j]).eligible(budget),
        },
{
    let mut chosen: Option<SelectionResult> = None;
    let mut i: usize = 0;
    while i < outcomes.len()
        invariant
            i <= outcomes.len(),
            match chosen {
                Some(pick) => {
                    &&& is_best(outcomes@.take(i as int), budget, pick.index as int)
                    &&& pick.input == outcomes@[pick.index as int].input
                    &&& pick.profit == outcomes@[pick.index as int].profit()
                },
                None => forall|j: int| 0 <= j < i ==> !(#[trigger] outcomes@[j]).eligible(budget),
            },
        decreases outcomes.len() - i,
    {
        let outcome = outcomes[i];
        let ghost seen = outcomes@.take(i as int);
        let ghost next = outcomes@.take(i + 1);
        assert(forall|j: int| 0 <= j < i ==> next[j] == seen[j]);
        if outcome.output > outcome.input && outcome.input <= budget {
            let profit = outcome.output - outcome.input;
            let better = match chosen {
                Some(pick) => profit > pick.profit,
                None => true,
            };
            if better {
                chosen = Some(SelectionResult { index: i, input: outcome.input, profit });
            }
        }
        assert(match chosen {
            Some(pick) => is_best(next, budget, pick.index as int),
            None => true,
        });
        i += 1;
    }
    assert(outcomes@.take(outcomes@.len() as int) == outcomes@);
    chosen
}

/// The index of the best outcome, if there is one.
pub open spec fn best_index(outcomes: Seq<CycleOutcome>, budget: u128) -> Option<int> {
    if exists|i: int| is_best(outcomes, budget, i) {
        Some(choose|i: int| is_best(outcomes, budget, i))
    } else {
        None
    }
}

/// The outcome of a cycle that is out of the running.
pub open spec fn spent() -> CycleOutcome {
    CycleOutcome { input: 0, output: 0 }
}

/// The cycles that are picked when up to `count` may be traded together out
/// of one budget: the best cycle first, then the best of the others within
/// what is left of the budget, and so on until `count` cycles are picked or
/// no cycle qualifies.
pub open spec fn picks(outcomes: Seq<CycleOutcome>, budget: u128, count: nat) -> Seq<int>
    decreases count,
{
    if count == 0 {
        Seq::empty()
    } else {
        match best_index(outcomes, budget) {
            Some(i) => seq![i] + picks(
                outcomes.update(i, spent()),
                (budget - outcomes[i].input) as u128,
                (count - 1) as nat,
            ),
            None => Seq::empty(),
        }
    }
}

/// The inputs of the picked cycles, added up.
pub open spec fn total_input(outcomes: Seq<CycleOutcome>, chosen: Seq<int>) -> int
    decreases chosen.len(),
{
    if chosen.len() == 0 {
        0
    } else {
        total_input(outcomes, chosen.drop_last()) + outcomes[chosen.last()].input
    }
}

/// The indices of the picks.
pub open spec fn pick_indices(chosen: Seq<SelectionResult>) -> Seq<int> {
    chosen.map_values(|pick: SelectionResult| pick.index as int)
}

/// Picks up to `count` cycles to trade together out of one budget: the best
/// cycle first, then the best of the others within what is left of the
/// budget, and so on. Every pick makes a profit, no cycle is picked twice,
/// and the inputs of the picks add up to no more than the budget.
pub fn select_up_to(outcomes: &Vec<CycleOutcome>, budget: u128, count: usize) -> (chosen: Vec<
    SelectionResult,
>)
    ensures
        pick_indices(chosen@) == picks(outcomes@, budget, count as nat),
        chosen@.len() <= count,
        pick_indices(chosen@).no_duplicates(),
        total_input(outcomes@, pick_indices(chosen@)) <= budget,
        forall|k: int|
            0 <= k < chosen@.len() ==> {
                let pick = #[trigger] chosen@[k];
                &&& pick.index < outcomes@.len()
                &&& outcomes@[pick.index as int].eligible(budget)
                &&& pick.input == outcomes@[pick.index as int].input
                &&& pick.profit == outcomes@[pick.index as int].profit()
            },
{
    let mut left: Vec<CycleOutcome> = outcomes.clone();
    let mut remaining = budget;
    let mut chosen: Vec<SelectionResult> = Vec::new();
    let mut round: usize = 0;
    assert(pick_indices(chosen@) =~= Seq::<int>::empty());
    assert(left@ =~= outcomes@);
    while round < count
        invariant
            round <= count,
            chosen@.len() <= round,
            left@.len() == outcomes@.len(),
            remaining <= budget,
            total_input(outcomes@, pick_indices(chosen@)) == budget - remaining,
            pick_indices(chosen@).no_duplicates(),
            forall|i: int|
                0 <= i < left@.len() ==> #[trigger] left@[i] == (if pick_indices(chosen@).contains(i) {
                    spent()
                } else {
                    outcomes@[i]
                }),
            forall|k: int|
                0 <= k < chosen@.len() ==> {
                    let pick = #[trigger] chosen@[k];
                    &&& pick.index < outcomes@.len()
                    &&& outcomes@[pick.index as int].eligible(budget)
                    &&& pick.input == outcomes@[pick.index as int].input
                    &&& pick.profit == outcomes@[pick.index as int].profit()
                },
            pick_indices(chosen@) + picks(left@, remaining, (count - round) as nat) == picks(
                outcomes@,
                budget,
                count as nat,
            ),
        decreases count - round,
    {
        let ghost before = pick_indices(chosen@);
        let ghost rest = picks(left@, remaining, (count - round) as nat);
        match select(&left, remaining) {
            Some(pick) => {
                proof {
                    lemma_best_is_unique(
                        left@,
                        remaining,
                        pick.index as int,
                        choose|i: int| is_best(left@, remaining, i),
                    );
                    assert(best_index(left@, remaining) == Some(pick.index as int));
                    assert(left@[pick.index as int].eligible(remaining));
                    assert(!before.contains(pick.index as int));
                }
                left.set(pick.index, CycleOutcome { input: 0, output: 0 });
                remaining = remaining - pick.input;
                chosen.push(pick);
                proof {
                    let after = pick_indices(chosen@);
                    assert(after =~= before.push(pick.index as int));
                    assert(after.drop_last() =~= before);
                    assert(rest == seq![pick.index as int] + picks(
                        left@,
                        remaining,
                        (count - round - 1) as nat,
                    ));
                    assert(after + picks(left@, remaining, (count - round - 1) as nat) =~= before
                        + rest);
                    assert forall|i: int| 0 <= i < left@.len() implies #[trigger] left@[i] == (
                    if after.contains(i) {
                        spent()
                    } else {
                        outcomes@[i]
                    }) by {
                        if i == pick.index {
                            assert(after[before.len() as int] == i);
                        } else if before.contains(i) {
                            let at = choose|at: int| 0 <= at < before.len() && before[at] == i;
                            assert(after[at] == i);
                        } else if after.contains(i) {
                            let at = choose|at: int| 0 <= at < after.len() && after[at] == i;
                            assert(at < before.len());
                            assert(before[at] == i);
                        }
                    }
                }
            },
            None => {
                proof {
                    if exists|i: int| is_best(left@, remaining, i) {
                        let i = choose|i: int| is_best(left@, remaining, i);
                        assert(left@[i].eligible(remaining));
                    }
                    assert(rest =~= Seq::<int>::empty());
                    assert(before + rest =~= before);
                }
                return chosen;
            },
        }
        round += 1;
    }
    assert(pick_indices(chosen@) + Seq::<int>::empty() =~= pick_indices(chosen@));
    chosen
}

/// At most one outcome is the best.
pub proof fn lemma_best_is_unique(outcomes: Seq<CycleOutcome>, budget: u128, i: int, j: int)
    requires
        is_best(outcomes, budget, i),
        is_best(outcomes, budget, j),
    ensures
        i == j,
{
}

/// Of two cycles that both make a profit within the budget, only the one
/// with the higher profit can be picked: an outcome that another eligible
/// outcome beats is never the best.
pub proof fn lemma_higher_profit_wins(
    outcomes: Seq<CycleOutcome>,
    budget: u128,
    higher: int,
    lower: int,
)
    requires
        0 <= higher < outcomes.len(),
        0 <= lower < outcomes.len(),
        outcomes[higher].eligible(budget),
        outcomes[higher].profit() > outcomes[lower].profit(),
    ensures
        !is_best(outcomes, budget, lower),
        outcomes.len() == 2 && outcomes[lower].eligible(budget) ==> is_best(outcomes, budget, higher),
{
}

/// The row that keeps the inputs of `cycles` cycles within the budget: the
/// inputs, which are the first `cycles` variables, add up to at most
/// `budget`.
pub open spec fn budget_row(cycles: nat, budget: u128) -> LinearRow {
    LinearRow {
        terms: Seq::new(
            cycles,
            |i: int|
                Term {
                    var: i as usize,
                    coeff: Ratio { negative: false, num: 1, num_scale: 1, den: 1, den_scale: 1 },
                },
        ),
        bound: Ratio { negative: false, num: budget, num_scale: 1, den: 1, den_scale: 1 },
    }
}

/// The row that fixes how many cycles are chosen: the choices, which are the
/// second `cycles` variables and each 0 or 1, add up to `count`.
pub open spec fn choice_row(cycles: nat, count: usize) -> LinearRow {
    LinearRow {
        terms: Seq::new(
            cycles,
            |i: int|
                Term {
                    var: (cycles + i) as usize,
                    coeff: Ratio { negative: false, num: 1, num_scale: 1, den: 1, den_scale: 1 },
                },
        ),
        bound: Ratio { negative: false, num: count as u128, num_scale: 1, den: 1, den_scale: 1 },
    }
}

/// One of the two rows that tie what cycle `row / 2` trades, which is among
/// the third `cycles` variables, to its input and to its choice: the even
/// row says that the cycle trades at most its input, the odd row that it
/// trades at most the budget if it is chosen and nothing if it is not.
pub open spec fn tie_row(cycles: nat, budget: u128, row: int) -> LinearRow {
    let i = row / 2;
    if row % 2 == 0 {
        at_most_row(2 * cycles + i, i)
    } else {
        LinearRow {
            terms: seq![
                Term {
                    var: (2 * cycles + i) as usize,
                    coeff: Ratio { negative: false, num: 1, num_scale: 1, den: 1, den_scale: 1 },
                },
                Term {
                    var: (cycles + i) as usize,
                    coeff: Ratio { negative: true, num: budget, num_scale: 1, den: 1, den_scale: 1 },
                },
            ],
            bound: Ratio { negative: false, num: 0, num_scale: 1, den: 1, den_scale: 1 },
        }
    }
}

/// The rows of the selection programme over `cycles` cycles.
///
/// There are three variables per cycle: its input `x` at the cycle's number,
/// its choice `z`, 0 or 1, `cycles` further on, and what it trades `y`,
/// another `cycles` further on. The inequalities are the budget row and two
/// tie rows per cycle; the one equality is the choice row. The objective,
/// each cycle's gain per unit traded times its `y`, is left to the caller,
/// who has the gains as floating-point numbers. The programme does not fit
/// the index type if three times the number of cycles does not.
pub fn selection_rows(cycles: usize, budget: u128, count: usize) -> (built: Result<
    ConstraintSystem,
    ArbError,
>)
    ensures
        match built {
            Ok(system) => {
                &&& 3 * cycles <= usize::MAX
                &&& system.n_vars == 3 * cycles
                &&& system.objective@.len() == 0
                &&& rows_view(system.inequalities@) == seq![budget_row(cycles as nat, budget)]
                    + Seq::new(2 * cycles as nat, |r: int| tie_row(cycles as nat, budget, r))
                &&& rows_view(system.equalities@) == seq![choice_row(cycles as nat, count)]
                &&& system.cones@.len() == 0
                &&& system.wf()
            },
            Err(e) => 3 * cycles > usize::MAX && e == ArbError::Overflow,
        },
{
    if cycles > usize::MAX / 3 {
        return Err(ArbError::Overflow);
    }
    let n = cycles;
    let mut within: Vec<Term> = Vec::new();
    let mut chosen: Vec<Term> = Vec::new();
    let mut i: usize = 0;
    while i < n
        invariant
            i <= n,
            3 * n <= usize::MAX,
            within@ == budget_row(n as nat, budget).terms.take(i as int),
            chosen@ == choice_row(n as nat, count).terms.take(i as int),
        decreases n - i,
    {
        within.push(Term { var: i, coeff: Ratio::whole(1) });
        chosen.push(Term { var: n + i, coeff: Ratio::whole(1) });
        assert(within@ =~= budget_row(n as nat, budget).terms.take(i + 1));
        assert(chosen@ =~= choice_row(n as nat, count).terms.take(i + 1));
        i += 1;
    }
    assert(budget_row(n as nat, budget).terms.take(n as int) == budget_row(n as nat, budget).terms);
    assert(choice_row(n as nat, count).terms.take(n as int) == choice_row(n as nat, count).terms);
    let mut system = ConstraintSystem::new();
    system.n_vars = 3 * n;
    let first = Row { terms: within, bound: Ratio::whole(budget) };
    assert(first@ == budget_row(n as nat, budget));
    system.inequalities.push(first);
    let only = Row { terms: chosen, bound: Ratio::whole(count as u128) };
    assert(only@ == choice_row(n as nat, count));
    system.equalities.push(only);
    assert(rows_view(system.equalities@) =~= seq![choice_row(n as nat, count)]);
    let ghost head = seq![budget_row(n as nat, budget)];
    assert(rows_view(system.inequalities@) =~= head + Seq::new(
        0,
        |r: int| tie_row(n as nat, budget, r),
    ));
    let mut i: usize = 0;
    while i < n
        invariant
            i <= n,
            3 * n <= usize::MAX,
            system.n_vars == 3 * n,
            system.objective@.len() == 0,
            system.cones@.len() == 0,
            rows_view(system.equalities@) == seq![choice_row(n as nat, count)],
            head == seq![budget_row(n as nat, budget)],
            rows_view(system.inequalities@) == head + Seq::new(
                2 * i as nat,
                |r: int| tie_row(n as nat, budget, r),
            ),
        decreases n - i,
    {
        assert((2 * i) % 2 == 0 && (2 * i) / 2 == i && (2 * i + 1) % 2 == 1 && (2 * i + 1) / 2 == i)
            by (nonlinear_arith);
        let mut terms: Vec<Term> = Vec::new();
        terms.push(Term { var: 2 * n + i, coeff: Ratio::whole(1) });
        terms.push(Term { var: i, coeff: Ratio::new(true, 1, 1, 1, 1) });
        let even = Row { terms, bound: Ratio::whole(0) };
        assert(even@.terms =~= tie_row(n as nat, budget, 2 * i).terms);
        assert(even@ == tie_row(n as nat, budget, 2 * i));
        let mut terms: Vec<Term> = Vec::new();
        terms.push(Term { var: 2 * n + i, coeff: Ratio::whole(1) });
        terms.push(Term { var: n + i, coeff: Ratio::new(true, budget, 1, 1, 1) });
        let odd = Row { terms, bound: Ratio::whole(0) };
        assert(odd@.terms =~= tie_row(n as nat, budget, 2 * i + 1).terms);
        assert(odd@ == tie_row(n as nat, budget, 2 * i + 1));
        let ghost before = rows_view(system.inequalities@);
        let ghost held_even = even@;
        let ghost held_odd = odd@;
        system.inequalities.push(even);
        system.inequalities.push(odd);
        assert(rows_view(system.inequalities@) =~= before.push(held_even).push(held_odd));
        assert(rows_view(system.inequalities@) =~= head + Seq::new(
            2 * (i + 1) as nat,
            |r: int| tie_row(n as nat, budget, r),
        ));
        i += 1;
    }
    proof {
        let rows = rows_view(system.inequalities@);
        assert forall|k: int| 0 <= k < system.inequalities@.len() implies row_wf(
            (#[trigger] system.inequalities@[k])@,
            system.n_vars as nat,
        ) by {
            assert(rows[k] == system.inequalities@[k]@);
            if k == 0 {
                assert(rows[k] == budget_row(n as nat, budget));
            } else {
                let r = k - 1;
                assert(rows[k] == tie_row(n as nat, budget, r));
                assert(0 <= r / 2 < n) by (nonlinear_arith)
                    requires
                        0 <= r < 2 * n,
                ;
                let row = tie_row(n as nat, budget, r);
                assert forall|t: int| 0 <= t < row.terms.len() implies term_wf(
                    #[trigger] row.terms[t],
                    system.n_vars as nat,
                ) by {
                    if t == 0 {
                    } else {
                        assert(t == 1);
                    }
                }
            }
        }
        let bound = rows_view(system.equalities@);
        assert forall|k: int| 0 <= k < system.equalities@.len() implies row_wf(
            (#[trigger] system.equalities@[k])@,
            system.n_vars as nat,
        ) by {
            assert(bound[k] == system.equalities@[k]@);
        }
    }
    Ok(system)
}

/// What a cycle of a solver's answer is worth: if it was chosen and trading
/// `input` of `start` through its pools, each crossed from the token in hand
/// to its other token, ends at `start` again, the input and what comes back;
/// otherwise nothing.
pub open spec fn traded(cycle: Seq<UniV2Pool>, start: Token, chosen: bool, input: u128) -> CycleOutcome {
    match flow_output(cycle, start, input) {
        Ok((end, output)) => if chosen && end == start {
            CycleOutcome { input, output }
        } else {
            spent()
        },
        Err(_) => spent(),
    }
}

/// What each cycle of a solver's answer is worth.
pub open spec fn answer_outcomes(
    cycle_pools: Seq<Seq<UniV2Pool>>,
    start: Token,
    selected: Seq<bool>,
    inputs: Seq<u128>,
) -> Seq<CycleOutcome> {
    Seq::new(cycle_pools.len(), |i: int| traded(cycle_pools[i], start, selected[i], inputs[i]))
}

/// The pools, input and profit of each chosen cycle.
pub open spec fn picked_entries(
    cycle_pools: Seq<Seq<UniV2Pool>>,
    outcomes: Seq<CycleOutcome>,
    chosen: Seq<int>,
) -> Seq<(Seq<UniV2Pool>, u128, u128)> {
    chosen.map_values(
        |i: int| (cycle_pools[i], outcomes[i].input, outcomes[i].profit() as u128),
    )
}

/// The pools, input and profit of each entry.
pub open spec fn entries(list: Seq<(Vec<UniV2Pool>, u128, u128)>) -> Seq<
    (Seq<UniV2Pool>, u128, u128),
> {
    list.map_values(|entry: (Vec<UniV2Pool>, u128, u128)| (entry.0@, entry.1, entry.2))
}

impl PoolGraph {
    /// Reads a solver's answer to the selection problem and picks what to
    /// trade: `selected[i]` says whether the solver chose cycle `i` and
    /// `inputs[i]` how much of `start` to pay into it.
    ///
    /// Each chosen cycle is traded through exactly, pool by pool in the
    /// direction in which the cycle crosses it. Of the cycles that come back
    /// to `start` with more than was paid in, up to `count` are picked, best
    /// profit first, each within what the earlier picks leave of `budget`.
    /// So no cycle is listed twice and the inputs add up to no more than the
    /// budget. A cycle whose trade fails is left out, and an answer whose
    /// length is not the number of cycles selects nothing.
    pub fn find_arb(
        &self,
        cycle_pools: Vec<Vec<UniV2Pool>>,
        start: Token,
        selected: &Vec<bool>,
        inputs: &Vec<u128>,
        budget: u128,
        count: usize,
    ) -> (found: Vec<(Vec<UniV2Pool>, u128, u128)>)
        ensures
            selected@.len() == cycle_pools@.len() && inputs@.len() == cycle_pools@.len() ==> {
                let outcomes = answer_outcomes(views(cycle_pools@), start, selected@, inputs@);
                let chosen = picks(outcomes, budget, count as nat);
                &&& entries(found@) == picked_entries(views(cycle_pools@), outcomes, chosen)
                &&& chosen.no_duplicates()
                &&& total_input(outcomes, chosen) <= budget
                &&& forall|k: int|
                    0 <= k < chosen.len() ==> 0 <= #[trigger] chosen[k] < cycle_pools@.len()
                        && outcomes[chosen[k]].eligible(budget)
            },
            selected@.len() != cycle_pools@.len() || inputs@.len() != cycle_pools@.len()
                ==> found@.len() == 0,
            found@.len() <= count,
    {
        let mut found: Vec<(Vec<UniV2Pool>, u128, u128)> = Vec::new();
        if selected.len() != cycle_pools.len() || inputs.len() != cycle_pools.len() {
            return found;
        }
        let ghost all = views(cycle_pools@);
        let ghost worth = answer_outcomes(all, start, selected@, inputs@);
        let mut outcomes: Vec<CycleOutcome> = Vec::new();
        let mut i: usize = 0;
        while i < cycle_pools.len()
            invariant
                i <= cycle_pools.len(),
                selected@.len() == cycle_pools@.len(),
                inputs@.len() == cycle_pools@.len(),
                all == views(cycle_pools@),
                worth == answer_outcomes(all, start, selected@, inputs@),
                outcomes@ == worth.take(i as int),
            decreases cycle_pools.len() - i,
        {
            let chain = Pools::new(cycle_pools[i].clone());
            assert(chain.pools@ == all[i as int]);
            let outcome = match chain.follow(start, inputs[i]) {
                Ok((end, output)) => {
                    if selected[i] && end == start {
                        CycleOutcome { input: inputs[i], output }
                    } else {
                        CycleOutcome { input: 0, output: 0 }
                    }
                },
                Err(_) => CycleOutcome { input: 0, output: 0 },
            };
            assert(outcome == worth[i as int]);
            outcomes.push(outcome);
            assert(outcomes@ =~= worth.take(i + 1));
            i += 1;
        }
        assert(worth.take(cycle_pools@.len() as int) == worth);
        let chosen = select_up_to(&outcomes, budget, count);
        let ghost indices = pick_indices(chosen@);
        let mut k: usize = 0;
        assert(entries(found@) =~= picked_entries(all, worth, indices.take(0)));
        while k < chosen.len()
            invariant
                k <= chosen.len(),
                all == views(cycle_pools@),
                outcomes@ == worth,
                worth.len() == cycle_pools@.len(),
                indices == pick_indices(chosen@),
                forall|j: int|
                    0 <= j < chosen@.len() ==> {
                        let pick = #[trigger] chosen@[j];
                        &&& pick.index < outcomes@.len()
                        &&& outcomes@[pick.index as int].eligible(budget)
                        &&& pick.input == outcomes@[pick.index as int].input
                        &&& pick.profit == outcomes@[pick.index as int].profit()
                    },
                entries(found@) == picked_entries(all, worth, indices.take(k as int)),
            decreases chosen.len() - k,
        {
            let pick = chosen[k];
            let ghost before = entries(found@);
            let pools = cycle_pools[pick.index].clone();
            found.push((pools, pick.input, pick.profit));
            assert(indices[k as int] == pick.index);
            assert(entries(found@) =~= before.push(
                (all[pick.index as int], pick.input, pick.profit),
            ));
            assert(indices.take(k + 1) =~= indices.take(k as int).push(indices[k as int]));
            assert(entries(found@) =~= picked_entries(all, worth, indices.take(k + 1)));
            k += 1;
        }
        assert(indices.take(chosen@.len() as int) == indices);
        assert forall|j: int| 0 <= j < indices.len() implies 0 <= #[trigger] indices[j]
            < cycle_pools@.len() && worth[indices[j]].eligible(budget) by {
            let pick = chosen@[j];
            assert(indices[j] == pick.index);
        }
        found
    }
}

} // verus!
