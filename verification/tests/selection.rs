use pool_arbitrage::graph::PoolGraph;
use pool_arbitrage::pool::UniV2Pool;
use pool_arbitrage::select::select;
use pool_arbitrage::select::select_up_to;
use pool_arbitrage::select::selection_rows;
use pool_arbitrage::pool::ArbError;
use pool_arbitrage::system::Ratio;
use pool_arbitrage::system::Row;
use pool_arbitrage::system::Term;
use pool_arbitrage::select::CycleOutcome;
use pool_arbitrage::select::SelectionResult;
use pool_arbitrage::token::Token;

fn outcome(input: u128, output: u128) -> CycleOutcome {
    CycleOutcome { input, output }
}

fn pool(a: u128, b: u128, reserve0: u128, reserve1: u128) -> UniV2Pool {
    UniV2Pool {
        address: Token::new(1, a * 100 + b),
        token0: Token::new(0, a),
        token1: Token::new(0, b),
        reserve0,
        reserve1,
        router_fee: 30,
        fees0: 0,
        fees1: 0,
    }
}

#[test]
fn higher_profit_cycle_is_selected() {
    // Profits 30 and 20, both inputs within the budget.
    let picked = select(&vec![outcome(100, 130), outcome(50, 70)], 100);
    assert_eq!(picked, Some(SelectionResult { index: 0, input: 100, profit: 30 }));
    let swapped = select(&vec![outcome(50, 70), outcome(100, 130)], 100);
    assert_eq!(swapped, Some(SelectionResult { index: 1, input: 100, profit: 30 }));
}

#[test]
fn cycle_over_budget_is_not_selected() {
    let picked = select(&vec![outcome(100, 130), outcome(50, 70)], 99);
    assert_eq!(picked, Some(SelectionResult { index: 1, input: 50, profit: 20 }));
    assert_eq!(select(&vec![outcome(100, 130), outcome(50, 70)], 49), None);
}

#[test]
fn cycle_without_profit_is_not_selected() {
    assert_eq!(select(&vec![outcome(100, 100), outcome(50, 40)], 1000), None);
    assert_eq!(select(&Vec::new(), 1000), None);
    let picked = select(&vec![outcome(100, 100), outcome(50, 51)], 1000);
    assert_eq!(picked, Some(SelectionResult { index: 1, input: 50, profit: 1 }));
}

#[test]
fn first_of_equal_profits_is_selected() {
    let picked = select(&vec![outcome(10, 15), outcome(20, 30), outcome(5, 15), outcome(1, 2)], 20);
    assert_eq!(picked, Some(SelectionResult { index: 1, input: 20, profit: 10 }));
}

fn start() -> Token {
    Token::new(0, 0)
}

/// A loop from token 0 to token 1 through the first pool and back through
/// the second.
fn loop_of(first: UniV2Pool, second: UniV2Pool) -> Vec<UniV2Pool> {
    vec![first, second]
}

#[test]
fn find_arb_trades_each_pool_the_way_the_cycle_crosses_it() {
    let graph = PoolGraph::new(&Vec::new());
    // 100 of token 0 -> 181 of token 1 -> 1000 * 181 * 0.997 / (1000 + 181 * 0.997) = 152.
    // The second pool lists token 0 first and is crossed backwards.
    let gaining = loop_of(pool(0, 1, 1000, 2000), pool(0, 1, 1000, 1000));
    let found = graph.find_arb(vec![gaining.clone()], start(), &vec![true], &vec![100], 1000, 1);
    assert_eq!(found, vec![(gaining, 100, 52)]);
}

#[test]
fn find_arb_picks_within_budget_and_count() {
    let graph = PoolGraph::new(&Vec::new());
    let good = loop_of(pool(0, 1, 1000, 2000), pool(0, 1, 1000, 1000));
    let better = loop_of(pool(0, 1, 1000, 5000), pool(0, 1, 1000, 1000));
    let losing = loop_of(pool(0, 1, 1000, 1000), pool(0, 1, 1000, 1000));
    let cycles = vec![good.clone(), losing.clone(), better.clone(), good.clone()];
    let selected = vec![true, true, true, false];
    let inputs = vec![100, 100, 100, 100];
    // 100 -> 453 -> 1000 * 453 * 0.997 / (1000 + 453 * 0.997) = 311.
    let both = graph.find_arb(cycles.clone(), start(), &selected, &inputs, 1000, 5);
    assert_eq!(both, vec![(better.clone(), 100, 211), (good.clone(), 100, 52)]);
    let one = graph.find_arb(cycles.clone(), start(), &selected, &inputs, 1000, 1);
    assert_eq!(one, vec![(better.clone(), 100, 211)]);
    // The budget takes one cycle only.
    let tight = graph.find_arb(cycles.clone(), start(), &selected, &inputs, 150, 5);
    assert_eq!(tight, vec![(better, 100, 211)]);
    assert!(graph.find_arb(cycles.clone(), start(), &selected, &inputs, 99, 5).is_empty());
    assert!(graph.find_arb(cycles, start(), &selected, &inputs, 1000, 0).is_empty());
}

#[test]
fn find_arb_leaves_out_failing_cycles_and_bad_answers() {
    let graph = PoolGraph::new(&Vec::new());
    let broken = loop_of(pool(0, 1, 0, 2000), pool(0, 1, 1000, 1000));
    let open = vec![pool(0, 1, 1000, 2000)];
    let astray = loop_of(pool(0, 1, 1000, 2000), pool(2, 3, 1000, 1000));
    let fine = loop_of(pool(0, 1, 1000, 2000), pool(0, 1, 1000, 1000));
    let found = graph.find_arb(
        vec![broken, open, astray, fine.clone()],
        start(),
        &vec![true, true, true, true],
        &vec![100, 100, 100, 100],
        1000,
        4,
    );
    assert_eq!(found, vec![(fine.clone(), 100, 52)]);
    // One flag short, no inputs.
    assert!(graph
        .find_arb(vec![fine.clone(), fine.clone()], start(), &vec![true], &vec![100, 100], 1000, 2)
        .is_empty());
    assert!(graph.find_arb(vec![fine], start(), &vec![true], &vec![], 1000, 2).is_empty());
}

fn pick(index: usize, input: u128, profit: u128) -> SelectionResult {
    SelectionResult { index, input, profit }
}

#[test]
fn several_cycles_share_one_budget() {
    let outcomes = vec![outcome(100, 130), outcome(50, 70), outcome(30, 35), outcome(10, 9)];
    assert_eq!(select_up_to(&outcomes, 150, 2), vec![pick(0, 100, 30), pick(1, 50, 20)]);
    // Nothing is left of the budget for a third cycle.
    assert_eq!(select_up_to(&outcomes, 150, 3), vec![pick(0, 100, 30), pick(1, 50, 20)]);
    assert_eq!(
        select_up_to(&outcomes, 180, 4),
        vec![pick(0, 100, 30), pick(1, 50, 20), pick(2, 30, 5)]
    );
    // After the best cycle, 20 are left, which no other cycle can do with.
    assert_eq!(select_up_to(&outcomes, 120, 3), vec![pick(0, 100, 30)]);
    // The best cycle is out of reach, the next two are not.
    assert_eq!(select_up_to(&outcomes, 80, 3), vec![pick(1, 50, 20), pick(2, 30, 5)]);
}

#[test]
fn selecting_up_to_one_is_selecting() {
    let outcomes = vec![outcome(10, 15), outcome(20, 30), outcome(5, 15), outcome(1, 2)];
    for budget in [0, 1, 5, 10, 20, 100] {
        let one = select_up_to(&outcomes, budget, 1);
        assert_eq!(one.first().copied(), select(&outcomes, budget));
        assert!(one.len() <= 1);
    }
}

#[test]
fn selecting_none_or_from_none() {
    let outcomes = vec![outcome(100, 130)];
    assert!(select_up_to(&outcomes, 1000, 0).is_empty());
    assert!(select_up_to(&Vec::new(), 1000, 5).is_empty());
    assert!(select_up_to(&vec![outcome(5, 5), outcome(7, 3)], 1000, 5).is_empty());
}

#[test]
fn equal_profits_are_picked_in_order() {
    let outcomes = vec![outcome(10, 20), outcome(10, 20), outcome(10, 20)];
    assert_eq!(
        select_up_to(&outcomes, 25, 3),
        vec![pick(0, 10, 10), pick(1, 10, 10)]
    );
}

#[test]
fn selection_programme_has_budget_tie_and_choice_rows() {
    let system = selection_rows(2, 500, 1).unwrap();
    let plus = |var: usize| Term { var, coeff: Ratio::whole(1) };
    let minus = |var: usize, n: u128| Term { var, coeff: Ratio::new(true, n, 1, 1, 1) };
    assert_eq!(system.n_vars, 6);
    assert_eq!(
        system.inequalities,
        vec![
            // x_0 + x_1 <= 500
            Row { terms: vec![plus(0), plus(1)], bound: Ratio::whole(500) },
            // y_0 <= x_0, y_0 <= 500 z_0
            Row { terms: vec![plus(4), minus(0, 1)], bound: Ratio::whole(0) },
            Row { terms: vec![plus(4), minus(2, 500)], bound: Ratio::whole(0) },
            // y_1 <= x_1, y_1 <= 500 z_1
            Row { terms: vec![plus(5), minus(1, 1)], bound: Ratio::whole(0) },
            Row { terms: vec![plus(5), minus(3, 500)], bound: Ratio::whole(0) },
        ]
    );
    // z_0 + z_1 = 1
    assert_eq!(system.equalities, vec![Row { terms: vec![plus(2), plus(3)], bound: Ratio::whole(1) }]);
    assert!(system.objective.is_empty());
    assert!(system.cones.is_empty());
}

#[test]
fn selection_programme_without_cycles_and_beyond_the_index_type() {
    let empty = selection_rows(0, 7, 3).unwrap();
    assert_eq!(empty.n_vars, 0);
    assert_eq!(empty.inequalities, vec![Row { terms: vec![], bound: Ratio::whole(7) }]);
    assert_eq!(empty.equalities, vec![Row { terms: vec![], bound: Ratio::whole(3) }]);
    assert_eq!(selection_rows(usize::MAX / 3 + 1, 7, 1), Err(ArbError::Overflow));
}
