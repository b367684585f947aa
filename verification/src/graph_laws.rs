//! What holds of the token graph and of the cycles found in it.

use vstd::prelude::*;
use crate::cycles::cycles_from;
use crate::cycles::edges_within;
use crate::cycles::has_edge;
use crate::cycles::lemma_cycles_sound;
use crate::cycles::lemma_routes_are_cycles;
use crate::cycles::lemma_routes_complete;
use crate::cycles::lemma_routes_tagged;
use crate::cycles::route_nodes;
use crate::cycles::routes_from;
use crate::cycles::simple_cycle;
use crate::cycles::tagged;
use crate::digraph::outgoing;
use crate::graph::PoolGraph;
use crate::graph::first_unused;
use crate::graph::indexable;
use crate::graph::joined;
use crate::graph::named;
use crate::graph::pool_edges;
use crate::graph::pool_indices;
use crate::graph::position;
use crate::graph::route_exists;
use crate::graph::route_fits;
use crate::graph::route_indices;
use crate::graph::route_tokens;
use crate::graph::token_cycles;
use crate::graph::token_routes;
use crate::graph::token_table;
use crate::graph::unused_joining;
use crate::graph::with_token;
use crate::pool::UniV2Pool;
use crate::token::Token;

verus! {

/// What is on a path without its last node is what is on the path, but for
/// that node if it occurs once.
pub(crate) proof fn lemma_dropped_last(path: Seq<usize>, v: usize)
    requires
        path.len() > 0,
    ensures
        path.drop_last().contains(v) ==> path.contains(v),
        path.contains(v) && v != path.last() ==> path.drop_last().contains(v),
{
    if path.drop_last().contains(v) {
        let at = choose|at: int| 0 <= at < path.drop_last().len() && path.drop_last()[at] == v;
        assert(path[at] == v);
    }
    if path.contains(v) && v != path.last() {
        let at = choose|at: int| 0 <= at < path.len() && path[at] == v;
        assert(path.drop_last()[at] == v);
    }
}

/// What is on a path with one more node is what was on the path, and that
/// node.
pub(crate) proof fn lemma_pushed(path: Seq<usize>, target: usize, v: usize)
    ensures
        path.push(target).contains(v) <==> (path.contains(v) || v == target),
{
    let longer = path.push(target);
    if path.contains(v) {
        let at = choose|at: int| 0 <= at < path.len() && path[at] == v;
        assert(longer[at] == v);
    }
    if v == target {
        assert(longer[path.len() as int] == v);
    }
    if longer.contains(v) {
        let at = choose|at: int| 0 <= at < longer.len() && longer[at] == v;
        if at < path.len() {
            assert(path[at] == v);
        }
    }
}

/// The edges of a token graph run between nodes of its token table.
pub proof fn lemma_pool_edges_within(pools: Seq<UniV2Pool>)
    ensures
        edges_within(pool_edges(pools, token_table(pools)), token_table(pools).len()),
{
    assert forall|i: int| 0 <= i < pools.len() implies token_table(pools).contains(
        (#[trigger] pools[i]).token0,
    ) && token_table(pools).contains(pools[i].token1) by {
        lemma_token_table_holds(pools, i);
    }
    lemma_edges_within_table(pools, token_table(pools));
}

pub(crate) proof fn lemma_edges_within_table(pools: Seq<UniV2Pool>, table: Seq<Token>)
    requires
        forall|i: int|
            0 <= i < pools.len() ==> table.contains((#[trigger] pools[i]).token0) && table.contains(
                pools[i].token1,
            ),
    ensures
        edges_within(pool_edges(pools, table), table.len()),
    decreases pools.len(),
{
    if pools.len() > 0 {
        let init = pools.drop_last();
        assert forall|i: int| 0 <= i < init.len() implies table.contains(
            (#[trigger] init[i]).token0,
        ) && table.contains(init[i].token1) by {
            assert(init[i] == pools[i]);
        }
        lemma_edges_within_table(init, table);
        let last = pools[pools.len() - 1];
        assert(table.contains(last.token0) && table.contains(last.token1));
    }
}

/// In a graph whose edges stay below `n`, so does whatever leaves a node.
pub proof fn lemma_outgoing_within(edges: Seq<(usize, usize, u64)>, n: nat, node: usize)
    requires
        edges_within(edges, n),
    ensures
        forall|j: int|
            0 <= j < outgoing(edges, node).len() ==> (#[trigger] outgoing(edges, node)[j]).0 < n,
    decreases edges.len(),
{
    if edges.len() > 0 {
        let init = edges.drop_last();
        assert forall|k: int| 0 <= k < init.len() implies (#[trigger] init[k]).0 < n && init[k].1
            < n by {
            assert(init[k] == edges[k]);
        }
        lemma_outgoing_within(init, n, node);
        let out = outgoing(edges, node);
        let rest = outgoing(init, node);
        assert forall|j: int| 0 <= j < out.len() implies (#[trigger] out[j]).0 < n by {
            if edges.last().0 == node {
                if j == 0 {
                    assert(edges[edges.len() - 1].1 < n);
                } else {
                    assert(out[j] == rest[j - 1]);
                }
            } else {
                assert(out[j] == rest[j]);
            }
        }
    }
}

/// Each edge of a token graph belongs to the pool it is tagged with: that
/// pool trades between the tokens at the edge's two ends.
pub proof fn lemma_edges_follow_pools(pools: Seq<UniV2Pool>, prefix: Seq<UniV2Pool>)
    requires
        indexable(pools),
        prefix.is_prefix_of(pools),
    ensures
        forall|k: int|
            0 <= k < pool_edges(prefix, token_table(pools)).len() ==> {
                let edge = #[trigger] pool_edges(prefix, token_table(pools))[k];
                &&& edge.2 < prefix.len()
                &&& pools[edge.2 as int].joins(
                    token_table(pools)[edge.0 as int],
                    token_table(pools)[edge.1 as int],
                )
            },
    decreases prefix.len(),
{
    if prefix.len() > 0 {
        let table = token_table(pools);
        let init = prefix.drop_last();
        lemma_edges_follow_pools(pools, init);
        let last = prefix.len() - 1;
        assert(prefix[last] == pools[last]);
        lemma_token_table_holds(pools, last);
        lemma_token_table_len(pools);
        let edges = pool_edges(prefix, table);
        assert forall|k: int| 0 <= k < edges.len() implies {
            let edge = #[trigger] edges[k];
            &&& edge.2 < prefix.len()
            &&& pools[edge.2 as int].joins(table[edge.0 as int], table[edge.1 as int])
        } by {
            lemma_pool_edges_len(init, table);
            if k < 2 * init.len() {
                assert(edges[k] == pool_edges(init, table)[k]);
            }
        }
    }
}

/// Every cycle that the enumeration yields starts and ends at `start`,
/// repeats no token in between, has at least two and at most `limit` hops,
/// and has a pool for each of its steps.
pub proof fn lemma_token_cycles_simple(pools: Seq<UniV2Pool>, start: Token, limit: nat)
    requires
        indexable(pools),
    ensures
        forall|i: int|
            0 <= i < token_cycles(pools, start, limit).len() ==> {
                let cycle = #[trigger] token_cycles(pools, start, limit)[i];
                &&& simple_cycle(cycle, start)
                &&& cycle.len() <= limit + 1
                &&& route_exists(pools, cycle)
            },
{
    let table = token_table(pools);
    if table.contains(start) {
        let edges = pool_edges(pools, table);
        let s = position(table, start) as usize;
        let by_node = cycles_from(edges, s, limit);
        lemma_token_table_distinct(pools);
        lemma_token_table_len(pools);
        lemma_pool_edges_within(pools);
        lemma_edges_follow_pools(pools, pools);
        lemma_cycles_sound(edges, table.len(), s, seq![s], Seq::empty(), limit, 0);
        assert forall|i: int| 0 <= i < token_cycles(pools, start, limit).len() implies {
            let cycle = #[trigger] token_cycles(pools, start, limit)[i];
            &&& simple_cycle(cycle, start)
            &&& cycle.len() <= limit + 1
            &&& route_exists(pools, cycle)
        } by {
            let nodes = by_node[i];
            let cycle = token_cycles(pools, start, limit)[i];
            assert(cycle == named(table, nodes));
            assert(cycle.drop_last() =~= named(table, nodes.drop_last()));
            assert(cycle.drop_last().no_duplicates()) by {
                assert forall|a: int, b: int|
                    0 <= a < nodes.len() - 1 && 0 <= b < nodes.len() - 1 && a != b implies cycle.drop_last()[a]
                    != cycle.drop_last()[b] by {
                    assert(nodes.drop_last()[a] != nodes.drop_last()[b]);
                    assert(nodes[a] < table.len() && nodes[b] < table.len());
                }
            }
            assert forall|k: int| 0 <= k < cycle.len() - 1 implies joined(
                pools,
                #[trigger] cycle[k],
                cycle[k + 1],
            ) by {
                assert(has_edge(edges, nodes[k], nodes[k + 1]));
                let e = choose|e: int|
                    0 <= e < edges.len() && (#[trigger] edges[e]).0 == nodes[k] && edges[e].1
                        == nodes[k + 1];
                assert(pools[edges[e].2 as int].joins(cycle[k], cycle[k + 1]));
            }
        }
    }
}

/// Leaving the pools out of the routes gives the cycles, in the same order.
pub proof fn lemma_token_routes_are_cycles(pools: Seq<UniV2Pool>, start: Token, limit: nat)
    ensures
        route_tokens(token_routes(pools, start, limit)) == token_cycles(pools, start, limit),
{
    let table = token_table(pools);
    if table.contains(start) {
        let edges = pool_edges(pools, table);
        let s = position(table, start) as usize;
        lemma_routes_are_cycles(edges, s, seq![s], Seq::empty(), limit, 0);
        let by_node = routes_from(edges, s, limit);
        assert(route_nodes(by_node) == cycles_from(edges, s, limit));
        assert forall|i: int| 0 <= i < by_node.len() implies route_tokens(
            token_routes(pools, start, limit),
        )[i] == token_cycles(pools, start, limit)[i] by {
            assert(route_nodes(by_node)[i] == by_node[i].0);
        }
        assert(route_tokens(token_routes(pools, start, limit)) =~= token_cycles(
            pools,
            start,
            limit,
        ));
    } else {
        assert(route_tokens(token_routes(pools, start, limit)) =~= token_cycles(
            pools,
            start,
            limit,
        ));
    }
}

/// Every route that the enumeration yields is a simple cycle through
/// `start` of at most `limit` hops whose pools each serve their hop, and no
/// route crosses a pool twice.
pub proof fn lemma_token_routes_fit(pools: Seq<UniV2Pool>, start: Token, limit: nat)
    requires
        indexable(pools),
    ensures
        forall|i: int|
            0 <= i < token_routes(pools, start, limit).len() ==> {
                let route = #[trigger] token_routes(pools, start, limit)[i];
                route_fits(pools, route.0, route.1, start) && route.0.len() <= limit + 1
            },
{
    let table = token_table(pools);
    if table.contains(start) {
        let edges = pool_edges(pools, table);
        let s = position(table, start) as usize;
        let by_node = routes_from(edges, s, limit);
        lemma_token_cycles_simple(pools, start, limit);
        lemma_token_routes_are_cycles(pools, start, limit);
        lemma_token_table_len(pools);
        lemma_edges_follow_pools(pools, pools);
        assert(tagged(edges, seq![s], Seq::<u64>::empty()));
        lemma_routes_tagged(edges, s, seq![s], Seq::empty(), limit, 0);
        assert forall|i: int| 0 <= i < token_routes(pools, start, limit).len() implies {
            let route = #[trigger] token_routes(pools, start, limit)[i];
            route_fits(pools, route.0, route.1, start) && route.0.len() <= limit + 1
        } by {
            let route = token_routes(pools, start, limit)[i];
            let nodes = by_node[i].0;
            let tags = by_node[i].1;
            let tokens = route.0;
            let crossed = route.1;
            assert(tokens == route_tokens(token_routes(pools, start, limit))[i]);
            assert(tokens == token_cycles(pools, start, limit)[i]);
            assert(simple_cycle(tokens, start));
            assert(tagged(edges, nodes, tags));
            assert(tokens == named(table, nodes));
            assert(crossed == pool_indices(tags));
            assert forall|k: int| 0 <= k < crossed.len() implies (#[trigger] crossed[k]) < pools.len()
                && pools[crossed[k] as int].joins(tokens[k], tokens[k + 1]) by {
                assert(edges.contains((nodes[k], nodes[k + 1], tags[k])));
                let e = choose|e: int|
                    0 <= e < edges.len() && edges[e] == (nodes[k], nodes[k + 1], tags[k]);
                assert(edges[e].2 < pools.len());
            }
            if tokens.len() == 3 {
                assert(nodes.len() == 3);
                assert(tags[0] != tags[1]);
                assert(crossed[0] == tags[0] as usize && crossed[1] == tags[1] as usize);
                assert(crossed[0] < pools.len() && crossed[1] < pools.len());
                assert(edges.contains((nodes[0], nodes[1], tags[0])));
                assert(edges.contains((nodes[1], nodes[2], tags[1])));
                let e0 = choose|e: int|
                    0 <= e < edges.len() && edges[e] == (nodes[0], nodes[1], tags[0]);
                let e1 = choose|e: int|
                    0 <= e < edges.len() && edges[e] == (nodes[1], nodes[2], tags[1]);
                assert(edges[e0].2 < pools.len() && edges[e1].2 < pools.len());
            }
            lemma_hops_use_distinct_pools(pools, tokens, crossed, start);
        }
    }
}

/// Along a simple cycle of three hops or more no pool can serve two hops,
/// as the hops join different pairs of tokens; along a loop of two hops the
/// two pools are different where they are said to be.
pub proof fn lemma_hops_use_distinct_pools(
    pools: Seq<UniV2Pool>,
    tokens: Seq<Token>,
    crossed: Seq<usize>,
    start: Token,
)
    requires
        simple_cycle(tokens, start),
        crossed.len() == tokens.len() - 1,
        tokens.len() > 3 || crossed[0] != crossed[1],
        forall|k: int|
            0 <= k < crossed.len() ==> (#[trigger] crossed[k]) < pools.len() && pools[crossed[k] as int].joins(
                tokens[k],
                tokens[k + 1],
            ),
    ensures
        crossed.no_duplicates(),
{
    let inner = tokens.drop_last();
    let n = crossed.len() as int;
    assert forall|a: int, b: int| 0 <= a < n && 0 <= b < n && a != b implies crossed[a]
        != crossed[b] by {
        if tokens.len() == 3 {
            assert((a == 0 && b == 1) || (a == 1 && b == 0));
        } else if crossed[a] == crossed[b] {
            let (lo, hi) = if a < b {
                (a, b)
            } else {
                (b, a)
            };
            let pool = pools[crossed[lo] as int];
            assert(pool.joins(tokens[lo], tokens[lo + 1]));
            assert(pool == pools[crossed[hi] as int]);
            assert(pool.joins(tokens[hi], tokens[hi + 1]));
            // The hop at `lo` starts at a token that the hop at `hi` touches.
            assert(inner[lo] == tokens[lo] && inner[hi] == tokens[hi]);
            assert(inner[lo] != inner[hi]);
            assert(tokens[lo] == tokens[hi + 1]);
            assert(tokens[lo + 1] == tokens[hi]);
            assert(inner[lo + 1] == tokens[lo + 1]);
            assert(lo + 1 == hi);
            if hi + 1 < n {
                assert(inner[hi + 1] == tokens[hi + 1]);
                assert(inner[lo] != inner[hi + 1]);
            } else {
                // The cycle would have two hops only.
                assert(tokens[hi + 1] == start);
                assert(inner[0] == start);
                assert(lo == 0);
            }
        }
    }
}

/// Pool `i` has its two edges at the places `2 i` and `2 i + 1` of the edge
/// list.
pub proof fn lemma_pool_has_edges(pools: Seq<UniV2Pool>, table: Seq<Token>, i: int)
    requires
        0 <= i < pools.len(),
    ensures
        pool_edges(pools, table).len() == 2 * pools.len(),
        pool_edges(pools, table)[2 * i] == (
            position(table, pools[i].token0) as usize,
            position(table, pools[i].token1) as usize,
            i as u64,
        ),
        pool_edges(pools, table)[2 * i + 1] == (
            position(table, pools[i].token1) as usize,
            position(table, pools[i].token0) as usize,
            i as u64,
        ),
    decreases pools.len(),
{
    lemma_pool_edges_len(pools, table);
    lemma_pool_edges_len(pools.drop_last(), table);
    if i < pools.len() - 1 {
        lemma_pool_has_edges(pools.drop_last(), table, i);
    }
}

/// The enumeration misses no route: every cycle through `start` of at most
/// `limit` hops is found with every choice of pools that serve its hops and
/// are all different, so parallel pools between the same two tokens are
/// never taken for one, and a loop of two hops over two of them is found.
pub proof fn lemma_token_routes_complete(
    pools: Seq<UniV2Pool>,
    start: Token,
    limit: nat,
    tokens: Seq<Token>,
    crossed: Seq<usize>,
)
    requires
        indexable(pools),
        route_fits(pools, tokens, crossed, start),
        tokens.len() <= limit + 1,
    ensures
        token_routes(pools, start, limit).contains((tokens, crossed)),
{
    let table = token_table(pools);
    let edges = pool_edges(pools, table);
    lemma_token_table_distinct(pools);
    lemma_token_table_len(pools);
    assert forall|k: int| 0 <= k < tokens.len() implies table.contains(#[trigger] tokens[k]) by {
        let step = if k < tokens.len() - 1 {
            k
        } else {
            k - 1
        };
        assert(pools[crossed[step] as int].joins(tokens[step], tokens[step + 1]));
        lemma_token_table_holds(pools, crossed[step] as int);
    }
    let nodes = Seq::new(tokens.len(), |k: int| position(table, tokens[k]) as usize);
    let tags = Seq::new(crossed.len(), |k: int| crossed[k] as u64);
    assert forall|k: int| 0 <= k < tokens.len() implies 0 <= position(table, #[trigger] tokens[k])
        < table.len() && table[position(table, tokens[k])] == tokens[k] by {
        assert(table.contains(tokens[k]));
    }
    assert(named(table, nodes) =~= tokens);
    assert(pool_indices(tags) =~= crossed);
    let s = position(table, start) as usize;
    assert(table.contains(tokens[0]));
    assert(simple_cycle(nodes, s)) by {
        assert(nodes[0] == s);
        assert(nodes.last() == s);
        assert forall|a: int, b: int|
            0 <= a < nodes.len() - 1 && 0 <= b < nodes.len() - 1 && a != b implies nodes.drop_last()[a]
            != nodes.drop_last()[b] by {
            assert(tokens.drop_last()[a] != tokens.drop_last()[b]);
            assert(table[position(table, tokens[a])] == tokens[a]);
            assert(table[position(table, tokens[b])] == tokens[b]);
        }
    }
    assert(tagged(edges, nodes, tags)) by {
        assert forall|k: int| 0 <= k < tags.len() implies edges.contains(
            (nodes[k], nodes[k + 1], #[trigger] tags[k]),
        ) by {
            let p = crossed[k] as int;
            assert(pools[p].joins(tokens[k], tokens[k + 1]));
            lemma_pool_has_edges(pools, table, p);
            if pools[p].token0 == tokens[k] && pools[p].token1 == tokens[k + 1] {
                assert(edges[2 * p] == (nodes[k], nodes[k + 1], tags[k]));
            } else {
                assert(edges[2 * p + 1] == (nodes[k], nodes[k + 1], tags[k]));
            }
        }
    }
    assert(seq![s].is_prefix_of(nodes)) by {
        assert(seq![s] =~= nodes.subrange(0, 1));
    }
    assert(Seq::<u64>::empty().is_prefix_of(tags)) by {
        assert(Seq::<u64>::empty() =~= tags.subrange(0, 0));
    }
    if tokens.len() == 3 {
        assert(crossed[0] != crossed[1]);
        assert(tags[0] == crossed[0] as u64 && tags[1] == crossed[1] as u64);
    }
    lemma_routes_complete(edges, s, seq![s], Seq::empty(), limit, (nodes, tags));
    let by_node = routes_from(edges, s, limit);
    let at = choose|at: int| 0 <= at < by_node.len() && by_node[at] == (nodes, tags);
    assert(token_routes(pools, start, limit)[at] == (tokens, crossed));
}

/// Every route that fits is the route of an enumerated cycle: the cycle of a
/// route that the enumeration holds is among the enumerated cycles.
pub proof fn lemma_token_cycles_complete(
    pools: Seq<UniV2Pool>,
    start: Token,
    limit: nat,
    tokens: Seq<Token>,
    crossed: Seq<usize>,
)
    requires
        indexable(pools),
        route_fits(pools, tokens, crossed, start),
        tokens.len() <= limit + 1,
    ensures
        token_cycles(pools, start, limit).contains(tokens),
{
    lemma_token_routes_complete(pools, start, limit, tokens, crossed);
    lemma_token_routes_are_cycles(pools, start, limit);
    let routes = token_routes(pools, start, limit);
    let at = choose|at: int| 0 <= at < routes.len() && routes[at] == (tokens, crossed);
    assert(route_tokens(routes)[at] == tokens);
}

/// No cycle has more hops than the graph has tokens, so the search bounded
/// by the number of tokens is the unbounded search: it holds every route
/// that fits, whatever its length.
pub proof fn lemma_all_routes_found(
    pools: Seq<UniV2Pool>,
    start: Token,
    tokens: Seq<Token>,
    crossed: Seq<usize>,
)
    requires
        indexable(pools),
        route_fits(pools, tokens, crossed, start),
    ensures
        token_routes(pools, start, token_table(pools).len()).contains((tokens, crossed)),
{
    let table = token_table(pools);
    let inner = tokens.drop_last();
    lemma_token_table_distinct(pools);
    assert forall|t: Token| inner.to_set().contains(t) implies table.to_set().contains(t) by {
        let k = choose|k: int| 0 <= k < inner.len() && inner[k] == t;
        assert(pools[crossed[k] as int].joins(tokens[k], tokens[k + 1]));
        lemma_token_table_holds(pools, crossed[k] as int);
    }
    inner.unique_seq_to_set();
    table.unique_seq_to_set();
    vstd::seq_lib::seq_to_set_is_finite(table);
    vstd::set_lib::lemma_len_subset(inner.to_set(), table.to_set());
    lemma_token_routes_complete(pools, start, table.len(), tokens, crossed);
}

/// What the scan for a pool that is not taken yet finds is such a pool.
pub proof fn lemma_first_unused(pools: Seq<UniV2Pool>, a: Token, b: Token, used: Seq<usize>, from: int)
    requires
        0 <= from,
    ensures
        from <= first_unused(pools, a, b, used, from) || first_unused(pools, a, b, used, from)
            == pools.len(),
        first_unused(pools, a, b, used, from) <= pools.len(),
        first_unused(pools, a, b, used, from) < pools.len() ==> unused_joining(
            pools,
            a,
            b,
            used,
            first_unused(pools, a, b, used, from),
        ),
    decreases pools.len() - from,
{
    if from < pools.len() && !unused_joining(pools, a, b, used, from) {
        lemma_first_unused(pools, a, b, used, from + 1);
    }
}

/// Once a path has run out of pools it stays without, however it goes on.
pub proof fn lemma_route_indices_stay_none(pools: Seq<UniV2Pool>, path: Seq<Token>, upto: int)
    requires
        0 <= upto <= path.len(),
        route_indices(pools, path.take(upto)) is None,
    ensures
        route_indices(pools, path) is None,
    decreases path.len(),
{
    if upto < path.len() {
        assert(path.drop_last().take(upto) == path.take(upto));
        lemma_route_indices_stay_none(pools, path.drop_last(), upto);
    } else {
        assert(path.take(upto) == path);
    }
}

/// The pools that a path is given are pools of the graph, and no pool is
/// given twice.
pub proof fn lemma_route_indices_distinct(pools: Seq<UniV2Pool>, path: Seq<Token>)
    ensures
        route_indices(pools, path) matches Some(indices) ==> indices.no_duplicates() && forall|
            k: int,
        | 0 <= k < indices.len() ==> #[trigger] indices[k] < pools.len(),
    decreases path.len(),
{
    if path.len() >= 2 {
        lemma_route_indices_distinct(pools, path.drop_last());
        match route_indices(pools, path.drop_last()) {
            None => {},
            Some(before) => {
                let a = path[path.len() - 2];
                let b = path[path.len() - 1];
                let i = first_unused(pools, a, b, before, 0);
                lemma_first_unused(pools, a, b, before, 0);
                if joined(pools, a, b) && i < pools.len() {
                    let after = before.push(i as usize);
                    assert(!before.contains(i as usize));
                    assert forall|x: int, y: int|
                        0 <= x < after.len() && 0 <= y < after.len() && x != y implies after[x]
                        != after[y] by {
                        if x == before.len() {
                            assert(before[y] == after[y]);
                        } else if y == before.len() {
                            assert(before[x] == after[x]);
                        } else {
                            assert(before[x] != before[y]);
                        }
                    }
                }
            },
        }
    }
}

/// Enumeration depends on nothing but the pools and their order: graphs
/// built from the same pools yield the same cycles in the same order.
pub proof fn lemma_enumeration_deterministic(
    first: PoolGraph,
    second: PoolGraph,
    start: Token,
    limit: nat,
)
    requires
        first.pools() == second.pools(),
    ensures
        first.cycles(start, limit) == second.cycles(start, limit),
{
}

/// No token occurs twice in a token table.
pub proof fn lemma_token_table_distinct(pools: Seq<UniV2Pool>)
    ensures
        token_table(pools).no_duplicates(),
    decreases pools.len(),
{
    if pools.len() > 0 {
        lemma_token_table_distinct(pools.drop_last());
    }
}

/// A token table holds both tokens of every pool it was built from.
pub proof fn lemma_token_table_holds(pools: Seq<UniV2Pool>, i: int)
    requires
        0 <= i < pools.len(),
    ensures
        token_table(pools).contains(pools[i].token0),
        token_table(pools).contains(pools[i].token1),
    decreases pools.len(),
{
    let before = token_table(pools.drop_last());
    let mid = with_token(before, pools.last().token0);
    let all = with_token(mid, pools.last().token1);
    if i < pools.len() - 1 {
        lemma_token_table_holds(pools.drop_last(), i);
        let j0 = before.index_of(pools[i].token0);
        let j1 = before.index_of(pools[i].token1);
        assert(mid[j0] == pools[i].token0 && all[j0] == pools[i].token0);
        assert(mid[j1] == pools[i].token1 && all[j1] == pools[i].token1);
    } else {
        if before.contains(pools[i].token0) {
            let j0 = before.index_of(pools[i].token0);
            assert(mid[j0] == pools[i].token0 && all[j0] == pools[i].token0);
        } else {
            assert(mid[before.len() as int] == pools[i].token0);
            assert(all[before.len() as int] == pools[i].token0);
        }
        if mid.contains(pools[i].token1) {
        } else {
            assert(all[mid.len() as int] == pools[i].token1);
        }
    }
}

/// A token table has at most two tokens per pool.
pub proof fn lemma_token_table_len(pools: Seq<UniV2Pool>)
    ensures
        token_table(pools).len() <= 2 * pools.len(),
    decreases pools.len(),
{
    if pools.len() > 0 {
        lemma_token_table_len(pools.drop_last());
    }
}

/// There are exactly two edges per pool.
pub proof fn lemma_pool_edges_len(pools: Seq<UniV2Pool>, table: Seq<Token>)
    ensures
        pool_edges(pools, table).len() == 2 * pools.len(),
    decreases pools.len(),
{
    if pools.len() > 0 {
        lemma_pool_edges_len(pools.drop_last(), table);
    }
}

} // verus!
