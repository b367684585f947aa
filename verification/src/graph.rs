//! The token graph of a set of pools.

use vstd::prelude::*;
use crate::cycles::cycles_from;
use crate::cycles::edges_within;
use crate::cycles::lemma_cycles_sound;
use crate::cycles::lemma_routes_are_cycles;
use crate::cycles::pending;
use crate::cycles::route_nodes;
use crate::cycles::routes_from;
use crate::cycles::routes_through;
use crate::cycles::simple_cycle;
use crate::cycles::steps_pending;
use crate::cycles::steps_through;
use crate::cycles::tagged;
use crate::cycles::tags_before;
use crate::digraph::graph_add_edge;
use crate::digraph::graph_add_node;
use crate::digraph::graph_edge_list;
use crate::digraph::graph_edges;
use crate::digraph::graph_new;
use crate::digraph::graph_node_count;
use crate::digraph::graph_node_weight;
use crate::digraph::graph_nodes;
use crate::digraph::graph_out_edges;
use crate::digraph::outgoing;
use crate::graph_laws::lemma_dropped_last;
use crate::graph_laws::lemma_outgoing_within;
use crate::graph_laws::lemma_pool_edges_len;
use crate::graph_laws::lemma_pool_edges_within;
use crate::graph_laws::lemma_pushed;
use crate::graph_laws::lemma_route_indices_stay_none;
use crate::graph_laws::lemma_token_cycles_simple;
use crate::graph_laws::lemma_token_routes_are_cycles;
use crate::graph_laws::lemma_token_routes_fit;
use crate::graph_laws::lemma_token_table_distinct;
use crate::graph_laws::lemma_token_table_holds;
use crate::graph_laws::lemma_token_table_len;
use crate::pool::ArbError;
use crate::pool::UniV2Pool;
use crate::token::Token;
use petgraph::graph::Graph;

verus! {

/// The distinct tokens of `pools`, in the order in which they first appear
/// (a pool's first token before its second).
pub open spec fn token_table(pools: Seq<UniV2Pool>) -> Seq<Token>
    decreases pools.len(),
{
    if pools.len() == 0 {
        Seq::empty()
    } else {
        with_token(with_token(token_table(pools.drop_last()), pools.last().token0), pools.last().token1)
    }
}

/// `table`, with `token` appended unless it is there already.
pub open spec fn with_token(table: Seq<Token>, token: Token) -> Seq<Token> {
    if table.contains(token) {
        table
    } else {
        table.push(token)
    }
}

/// The place of `token` in `table`; meaningful when the table holds it.
pub open spec fn position(table: Seq<Token>, token: Token) -> int {
    table.index_of(token)
}

/// The edges of the token graph: for each pool, in order, one edge from its
/// first token to its second and one back, both tagged with the pool's index.
pub open spec fn pool_edges(pools: Seq<UniV2Pool>, table: Seq<Token>) -> Seq<(usize, usize, u64)>
    decreases pools.len(),
{
    if pools.len() == 0 {
        Seq::empty()
    } else {
        let pool = pools.last();
        let a = position(table, pool.token0) as usize;
        let b = position(table, pool.token1) as usize;
        let tag = (pools.len() - 1) as u64;
        pool_edges(pools.drop_last(), table).push((a, b, tag)).push((b, a, tag))
    }
}

/// Some pool trades between `a` and `b`.
pub open spec fn joined(pools: Seq<UniV2Pool>, a: Token, b: Token) -> bool {
    exists|i: int| 0 <= i < pools.len() && (#[trigger] pools[i]).joins(a, b)
}

/// The index of the first pool that trades between `a` and `b`; meaningful
/// when there is one.
pub open spec fn first_joining(pools: Seq<UniV2Pool>, a: Token, b: Token) -> int {
    choose|i: int|
        0 <= i < pools.len() && (#[trigger] pools[i]).joins(a, b) && forall|k: int|
            0 <= k < i ==> !(#[trigger] pools[k]).joins(a, b)
}

/// The first pool that trades between `a` and `b`, if any does.
pub open spec fn pool_between(pools: Seq<UniV2Pool>, a: Token, b: Token) -> Option<UniV2Pool> {
    if joined(pools, a, b) {
        Some(pools[first_joining(pools, a, b)])
    } else {
        None
    }
}

/// The indices of the pools that trade between `a` and `b`, in order.
pub open spec fn joining(pools: Seq<UniV2Pool>, a: Token, b: Token) -> Seq<usize>
    decreases pools.len(),
{
    if pools.len() == 0 {
        Seq::empty()
    } else {
        let before = joining(pools.drop_last(), a, b);
        if pools.last().joins(a, b) {
            before.push((pools.len() - 1) as usize)
        } else {
            before
        }
    }
}

/// `path` is not empty, each of its tokens is joined to the next by some
/// pool, and it either ends where it starts or some pool joins its end to
/// its start.
pub open spec fn route_exists(pools: Seq<UniV2Pool>, path: Seq<Token>) -> bool {
    &&& path.len() > 0
    &&& forall|k: int| 0 <= k < path.len() - 1 ==> joined(pools, #[trigger] path[k], path[k + 1])
    &&& (path.last() == path[0] || joined(pools, path.last(), path[0]))
}

/// Pool `i` trades between `a` and `b` and is not among `used`.
pub open spec fn unused_joining(
    pools: Seq<UniV2Pool>,
    a: Token,
    b: Token,
    used: Seq<usize>,
    i: int,
) -> bool {
    0 <= i < pools.len() && pools[i].joins(a, b) && !used.contains(i as usize)
}

/// The index of the first pool from `from` on that trades between `a` and `b`
/// and is not among `used`; the number of pools if there is none.
pub open spec fn first_unused(
    pools: Seq<UniV2Pool>,
    a: Token,
    b: Token,
    used: Seq<usize>,
    from: int,
) -> int
    decreases pools.len() - from,
{
    if from < 0 || from >= pools.len() {
        pools.len() as int
    } else if unused_joining(pools, a, b, used, from) {
        from
    } else {
        first_unused(pools, a, b, used, from + 1)
    }
}

/// For each token of `path` and the one after it, in order, the index of the
/// first pool that joins the two and serves no earlier step. A step that no
/// pool at all joins is passed over; a step whose pools are all taken by
/// earlier steps leaves the path without pools, as it would use a pool
/// twice.
pub open spec fn route_indices(pools: Seq<UniV2Pool>, path: Seq<Token>) -> Option<Seq<usize>>
    decreases path.len(),
{
    if path.len() < 2 {
        Some(Seq::empty())
    } else {
        match route_indices(pools, path.drop_last()) {
            None => None,
            Some(before) => {
                let a = path[path.len() - 2];
                let b = path[path.len() - 1];
                if !joined(pools, a, b) {
                    Some(before)
                } else if first_unused(pools, a, b, before, 0) < pools.len() {
                    Some(before.push(first_unused(pools, a, b, before, 0) as usize))
                } else {
                    None
                }
            },
        }
    }
}

/// The pools at the given indices.
pub open spec fn pools_at(pools: Seq<UniV2Pool>, indices: Seq<usize>) -> Seq<UniV2Pool> {
    indices.map_values(|i: usize| pools[i as int])
}

/// The pools along `cycle` once it is closed by a step back to its first
/// token, each pool once; nothing if the cycle has no route or would use a
/// pool twice.
pub open spec fn closed_route_pools(pools: Seq<UniV2Pool>, cycle: Seq<Token>) -> Option<
    Seq<UniV2Pool>,
> {
    if route_exists(pools, cycle) {
        match route_indices(pools, cycle.push(cycle[0])) {
            Some(indices) => Some(pools_at(pools, indices)),
            None => None,
        }
    } else {
        None
    }
}

/// The pool lists of those `cycles` that have one, in order.
pub open spec fn routes_pools(pools: Seq<UniV2Pool>, cycles: Seq<Seq<Token>>) -> Seq<
    Seq<UniV2Pool>,
>
    decreases cycles.len(),
{
    if cycles.len() == 0 {
        Seq::empty()
    } else {
        let before = routes_pools(pools, cycles.drop_last());
        match closed_route_pools(pools, cycles.last()) {
            Some(list) => before.push(list),
            None => before,
        }
    }
}

/// The tokens that the nodes of `nodes` stand for.
pub open spec fn named(table: Seq<Token>, nodes: Seq<usize>) -> Seq<Token> {
    nodes.map_values(|i: usize| table[i as int])
}

/// The cycles of at most `limit` hops that the search from `start` finds in
/// the token graph of `pools`, as token sequences in search order. A token
/// that the graph does not have has no cycles.
pub open spec fn token_cycles(pools: Seq<UniV2Pool>, start: Token, limit: nat) -> Seq<Seq<Token>> {
    let table = token_table(pools);
    if table.contains(start) {
        cycles_from(pool_edges(pools, table), position(table, start) as usize, limit).map_values(
            |cycle: Seq<usize>| named(table, cycle),
        )
    } else {
        Seq::empty()
    }
}

/// The pool indices that edge tags stand for.
pub open spec fn pool_indices(tags: Seq<u64>) -> Seq<usize> {
    tags.map_values(|tag: u64| tag as usize)
}

/// The routes of at most `limit` hops that the search from `start` finds in
/// the token graph of `pools`: the cycles of [`token_cycles`], each with the
/// index of the pool that serves each hop.
pub open spec fn token_routes(pools: Seq<UniV2Pool>, start: Token, limit: nat) -> Seq<
    (Seq<Token>, Seq<usize>),
> {
    let table = token_table(pools);
    if table.contains(start) {
        routes_from(pool_edges(pools, table), position(table, start) as usize, limit).map_values(
            |route: (Seq<usize>, Seq<u64>)| (named(table, route.0), pool_indices(route.1)),
        )
    } else {
        Seq::empty()
    }
}

/// The tokens of each route.
pub open spec fn route_tokens(routes: Seq<(Seq<Token>, Seq<usize>)>) -> Seq<Seq<Token>> {
    routes.map_values(|route: (Seq<Token>, Seq<usize>)| route.0)
}

/// `tokens` is a cycle through `start` that repeats no token in between and
/// has at least two hops; `crossed` names one pool per hop, each trading
/// between the two tokens of its hop, and no pool twice.
pub open spec fn route_fits(
    pools: Seq<UniV2Pool>,
    tokens: Seq<Token>,
    crossed: Seq<usize>,
    start: Token,
) -> bool {
    &&& simple_cycle(tokens, start)
    &&& crossed.len() == tokens.len() - 1
    &&& forall|k: int|
        0 <= k < crossed.len() ==> (#[trigger] crossed[k]) < pools.len() && pools[crossed[k] as int].joins(
            tokens[k],
            tokens[k + 1],
        )
    &&& crossed.no_duplicates()
}

/// What each route holds.
pub open spec fn routes_view(routes: Seq<Route>) -> Seq<(Seq<Token>, Seq<usize>)> {
    routes.map_values(|route: Route| (route.tokens@, route.pools@))
}

/// What each pair of vectors holds.
pub open spec fn route_views(routes: Seq<(Vec<usize>, Vec<u64>)>) -> Seq<(Seq<usize>, Seq<u64>)> {
    routes.map_values(|route: (Vec<usize>, Vec<u64>)| (route.0@, route.1@))
}

/// A cycle with the pools that it crosses: `pools[k]` is the index of the
/// pool that takes the trade from `tokens[k]` to `tokens[k + 1]`.
#[derive(Clone, Debug, PartialEq, Eq)]
pub struct Route {
    pub tokens: Vec<Token>,
    pub pools: Vec<usize>,
}

/// The pool indices that the tags stand for.
fn pool_indices_of(tags: &Vec<u64>) -> (indices: Vec<usize>)
    ensures
        indices@ == pool_indices(tags@),
{
    let mut indices: Vec<usize> = Vec::new();
    let mut k: usize = 0;
    while k < tags.len()
        invariant
            k <= tags.len(),
            indices@ == pool_indices(tags@.take(k as int)),
        decreases tags.len() - k,
    {
        indices.push(tags[k] as usize);
        assert(indices@ =~= pool_indices(tags@.take(k + 1)));
        k += 1;
    }
    assert(tags@.take(tags@.len() as int) == tags@);
    indices
}

/// The pools are few enough for a graph whose nodes and edges are indexed
/// with 32 bits.
pub open spec fn indexable(pools: Seq<UniV2Pool>) -> bool {
    2 * pools.len() < u32::MAX
}

/// What `token` is joined to in `pools`: for each pool that trades it, in
/// order, the pool's index with the token on the pool's other side.
pub open spec fn adjacency(pools: Seq<UniV2Pool>, token: Token) -> Seq<(usize, Token)>
    decreases pools.len(),
{
    if pools.len() == 0 {
        Seq::empty()
    } else {
        let pool = pools.last();
        let index = (pools.len() - 1) as usize;
        let before = adjacency(pools.drop_last(), token);
        let forth = if pool.token0 == token {
            before.push((index, pool.token1))
        } else {
            before
        };
        if pool.token1 == token {
            forth.push((index, pool.token0))
        } else {
            forth
        }
    }
}

/// The adjacency lists of the token graph of `pools`: one entry per distinct
/// token, in the order in which the tokens first appear, each with what the
/// token is joined to.
pub fn build_graph(pools: &Vec<UniV2Pool>) -> (lists: Vec<(Token, Vec<(usize, Token)>)>)
    ensures
        lists@.len() == token_table(pools@).len(),
        forall|k: int|
            0 <= k < lists@.len() ==> (#[trigger] lists@[k]).0 == token_table(pools@)[k]
                && lists@[k].1@ == adjacency(pools@, token_table(pools@)[k]),
{
    let mut tokens: Vec<Token> = Vec::new();
    let mut i: usize = 0;
    while i < pools.len()
        invariant
            i <= pools.len(),
            tokens@ == token_table(pools@.take(i as int)),
        decreases pools.len() - i,
    {
        assert(pools@.take(i + 1).drop_last() == pools@.take(i as int));
        let pool = pools[i];
        if find_token(&tokens, pool.token0).is_none() {
            tokens.push(pool.token0);
        }
        if find_token(&tokens, pool.token1).is_none() {
            tokens.push(pool.token1);
        }
        i += 1;
    }
    assert(pools@.take(pools@.len() as int) == pools@);
    let mut lists: Vec<(Token, Vec<(usize, Token)>)> = Vec::new();
    let mut k: usize = 0;
    while k < tokens.len()
        invariant
            k <= tokens.len(),
            tokens@ == token_table(pools@),
            lists@.len() == k,
            forall|j: int|
                0 <= j < k ==> (#[trigger] lists@[j]).0 == tokens@[j] && lists@[j].1@ == adjacency(
                    pools@,
                    tokens@[j],
                ),
        decreases tokens.len() - k,
    {
        let token = tokens[k];
        let mut joined_to: Vec<(usize, Token)> = Vec::new();
        let mut p: usize = 0;
        while p < pools.len()
            invariant
                p <= pools.len(),
                joined_to@ == adjacency(pools@.take(p as int), token),
            decreases pools.len() - p,
        {
            assert(pools@.take(p + 1).drop_last() == pools@.take(p as int));
            let pool = pools[p];
            if pool.token0 == token {
                joined_to.push((p, pool.token1));
            }
            if pool.token1 == token {
                joined_to.push((p, pool.token0));
            }
            p += 1;
        }
        assert(pools@.take(pools@.len() as int) == pools@);
        lists.push((token, joined_to));
        k += 1;
    }
    lists
}

/// A token graph: one node per distinct token and two directed edges per
/// pool, so that parallel pools between the same two tokens stay apart.
pub struct PoolGraph {
    graph: Graph<Token, u64>,
    tokens: Vec<Token>,
    pools: Vec<UniV2Pool>,
}

impl PoolGraph {
    #[verifier::type_invariant]
    spec fn wf(&self) -> bool {
        &&& self.tokens@ == token_table(self.pools@)
        &&& graph_nodes(self.graph) == self.tokens@
        &&& graph_edges(self.graph) == pool_edges(self.pools@, self.tokens@)
        &&& indexable(self.pools@)
    }

    /// The pools the graph was built from, in their order.
    pub closed spec fn pools(&self) -> Seq<UniV2Pool> {
        self.pools@
    }

    /// The graph's tokens by node index.
    pub open spec fn tokens(&self) -> Seq<Token> {
        token_table(self.pools())
    }

    /// The graph's edges as `(source node, target node, pool index)`.
    pub open spec fn edges(&self) -> Seq<(usize, usize, u64)> {
        pool_edges(self.pools(), self.tokens())
    }

    /// The cycles through `start` with at most `limit` hops, in search order.
    pub open spec fn cycles(&self, start: Token, limit: nat) -> Seq<Seq<Token>> {
        token_cycles(self.pools(), start, limit)
    }

    /// The cycles through `start` with at most `limit` hops, each with the
    /// pools that it crosses, in search order.
    pub open spec fn routes(&self, start: Token, limit: nat) -> Seq<(Seq<Token>, Seq<usize>)> {
        token_routes(self.pools(), start, limit)
    }

    /// A route over nodes and tags as a route over tokens and pool indices.
    pub open spec fn named_route(&self, route: (Seq<usize>, Seq<u64>)) -> (Seq<Token>, Seq<usize>) {
        (named(self.tokens(), route.0), pool_indices(route.1))
    }

    /// Builds the token graph of `pools`. Nothing is dropped or merged:
    /// every pool gets its own pair of edges.
    ///
    /// The graph indexes nodes and edges with 32 bits, which bounds the
    /// number of pools.
    pub fn new(pools: &Vec<UniV2Pool>) -> (built: PoolGraph)
        requires
            indexable(pools@),
        ensures
            built.pools() == pools@,
    {
        let mut graph = graph_new();
        let mut tokens: Vec<Token> = Vec::new();
        let mut i: usize = 0;
        while i < pools.len()
            invariant
                i <= pools.len(),
                2 * pools@.len() < u32::MAX,
                tokens@ == token_table(pools@.take(i as int)),
                graph_nodes(graph) == tokens@,
                graph_edges(graph) == Seq::<(usize, usize, u64)>::empty(),
            decreases pools.len() - i,
        {
            proof {
                lemma_token_table_len(pools@.take(i as int));
                assert(pools@.take(i + 1).drop_last() == pools@.take(i as int));
            }
            let pool = pools[i];
            if find_token(&tokens, pool.token0).is_none() {
                graph_add_node(&mut graph, pool.token0);
                tokens.push(pool.token0);
            }
            if find_token(&tokens, pool.token1).is_none() {
                graph_add_node(&mut graph, pool.token1);
                tokens.push(pool.token1);
            }
            i += 1;
        }
        assert(pools@.take(pools@.len() as int) == pools@);
        let mut k: usize = 0;
        while k < pools.len()
            invariant
                k <= pools.len(),
                2 * pools@.len() < u32::MAX,
                tokens@ == token_table(pools@),
                graph_nodes(graph) == tokens@,
                graph_edges(graph) == pool_edges(pools@.take(k as int), tokens@),
            decreases pools.len() - k,
        {
            proof {
                lemma_token_table_distinct(pools@);
                lemma_token_table_holds(pools@, k as int);
                lemma_pool_edges_len(pools@.take(k as int), tokens@);
                assert(pools@.take(k + 1).drop_last() == pools@.take(k as int));
            }
            let pool = pools[k];
            let n1 = find_token(&tokens, pool.token0).unwrap();
            let n2 = find_token(&tokens, pool.token1).unwrap();
            graph_add_edge(&mut graph, n1, n2, k as u64);
            graph_add_edge(&mut graph, n2, n1, k as u64);
            k += 1;
        }
        assert(pools@.take(pools@.len() as int) == pools@);
        PoolGraph { graph, tokens, pools: pools.clone() }
    }

    /// Builds the token graph of `pools`, or reports that the pools are too
    /// many for a graph whose nodes and edges are indexed with 32 bits.
    pub fn build(pools: &Vec<UniV2Pool>) -> (built: Result<PoolGraph, ArbError>)
        ensures
            match built {
                Ok(graph) => indexable(pools@) && graph.pools() == pools@,
                Err(e) => !indexable(pools@) && e == ArbError::Overflow,
            },
    {
        if pools.len() > (u32::MAX / 2) as usize {
            return Err(ArbError::Overflow);
        }
        Ok(PoolGraph::new(pools))
    }

    /// The node index of `token`, if the graph has it.
    pub fn token_index(&self, token: Token) -> (found: Option<usize>)
        ensures
            match found {
                Some(i) => self.tokens().contains(token) && i == position(self.tokens(), token),
                None => !self.tokens().contains(token),
            },
    {
        proof {
            use_type_invariant(self);
            lemma_token_table_distinct(self.pools@);
        }
        find_token(&self.tokens, token)
    }

    /// The number of distinct tokens.
    pub fn node_count(&self) -> (n: usize)
        ensures
            n == self.tokens().len(),
    {
        proof {
            use_type_invariant(self);
        }
        graph_node_count(&self.graph)
    }

    /// The graph's tokens by node index, for whoever draws or exports the
    /// graph.
    pub fn nodes(&self) -> (list: Vec<Token>)
        ensures
            list@ == self.tokens(),
    {
        proof {
            use_type_invariant(self);
        }
        let n = graph_node_count(&self.graph);
        let mut list: Vec<Token> = Vec::new();
        let mut i: usize = 0;
        while i < n
            invariant
                i <= n,
                n == self.tokens().len(),
                graph_nodes(self.graph) == self.tokens(),
                list@ == self.tokens().take(i as int),
            decreases n - i,
        {
            list.push(graph_node_weight(&self.graph, i));
            assert(list@ =~= self.tokens().take(i + 1));
            i += 1;
        }
        assert(self.tokens().take(n as int) == self.tokens());
        list
    }

    /// The graph's edges as `(source node, target node, pool index)`, two
    /// per pool in the order of the pools.
    pub fn edge_list(&self) -> (list: Vec<(usize, usize, u64)>)
        ensures
            list@ == self.edges(),
    {
        proof {
            use_type_invariant(self);
        }
        graph_edge_list(&self.graph)
    }

    /// The cycles through the node `start_idx` with at most `limit` hops,
    /// each with the pool tags of its edges, in search order.
    ///
    /// The search keeps its own stack: the path from the start, and for each
    /// node of the path the node's outgoing edges and a cursor to the next
    /// edge to try. Each step either tries one edge, which closes a cycle,
    /// leads one node down or is passed over, or turns back from a node
    /// whose edges are used up.
    #[verifier::rlimit(40)]
    fn dfs_cycle_detection(&self, start_idx: usize, limit: usize) -> (routes: Vec<
        (Vec<usize>, Vec<u64>),
    >)
        requires
            start_idx < self.tokens().len(),
        ensures
            route_views(routes@) == routes_from(self.edges(), start_idx, limit as nat),
    {
        proof {
            use_type_invariant(self);
            lemma_pool_edges_within(self.pools@);
        }
        let n = graph_node_count(&self.graph);
        let mut visited: Vec<bool> = Vec::new();
        let mut j: usize = 0;
        while j < n
            invariant
                j <= n,
                visited@.len() == j,
                forall|k: int| 0 <= k < j ==> !visited@[k],
            decreases n - j,
        {
            visited.push(false);
            j += 1;
        }
        visited.set(start_idx, true);
        let mut stack: Vec<usize> = Vec::new();
        stack.push(start_idx);
        let mut tags: Vec<u64> = Vec::new();
        let mut cursors: Vec<usize> = Vec::new();
        cursors.push(0);
        let mut frames: Vec<Vec<(usize, u64)>> = Vec::new();
        frames.push(graph_out_edges(&self.graph, start_idx));
        let mut routes: Vec<(Vec<usize>, Vec<u64>)> = Vec::new();
        let ghost edges = self.edges();
        let ghost all = routes_from(edges, start_idx, limit as nat);
        proof {
            assert(stack@ =~= seq![start_idx]);
            assert(tags@ =~= Seq::<u64>::empty());
            assert(stack@.drop_last() =~= Seq::<usize>::empty());
            assert(route_views(routes@) =~= Seq::<(Seq<usize>, Seq<u64>)>::empty());
            assert(cursors@.last() == 0);
            assert(pending(
                edges,
                start_idx,
                stack@.drop_last(),
                tags_before(tags@),
                cursors@.drop_last(),
                limit as nat,
            ) =~= Seq::<(Seq<usize>, Seq<u64>)>::empty());
            assert(pending(edges, start_idx, stack@, tags@, cursors@, limit as nat) =~= all);
            assert forall|v: usize| v < visited@.len() implies (visited@[v as int]
                <==> stack@.contains(v)) by {
                if v == start_idx {
                    assert(stack@[0] == v);
                }
            }
        }
        while stack.len() > 0
            invariant
                edges == self.edges(),
                edges_within(edges, self.tokens().len()),
                graph_edges(self.graph) == edges,
                graph_nodes(self.graph) == self.tokens(),
                n == self.tokens().len(),
                start_idx < n,
                visited@.len() == n,
                cursors@.len() == stack@.len(),
                frames@.len() == stack@.len(),
                stack@.len() > 0 ==> tags@.len() == stack@.len() - 1,
                stack@.no_duplicates(),
                forall|v: usize| v < n ==> (visited@[v as int] <==> stack@.contains(v)),
                forall|k: int| 0 <= k < stack@.len() ==> stack@[k] < n,
                forall|k: int|
                    0 <= k < stack@.len() ==> (#[trigger] frames@[k])@ == outgoing(edges, stack@[k]),
                route_views(routes@) + pending(
                    edges,
                    start_idx,
                    stack@,
                    tags@,
                    cursors@,
                    limit as nat,
                ) == all,
            decreases steps_pending(edges, start_idx, stack@, cursors@, limit as nat),
        {
            let depth = stack.len() - 1;
            let node = stack[depth];
            let i = cursors[depth];
            let ghost path = stack@;
            let ghost along = tags@;
            let ghost marks = cursors@;
            let ghost so_far = route_views(routes@);
            let ghost below = pending(
                edges,
                start_idx,
                path.drop_last(),
                tags_before(along),
                marks.drop_last(),
                limit as nat,
            );
            let ghost steps_below = steps_pending(
                edges,
                start_idx,
                path.drop_last(),
                marks.drop_last(),
                limit as nat,
            );
            assert(path.last() == node && marks.last() == i);
            assert(frames@[depth as int]@ == outgoing(edges, node));
            if i >= frames[depth].len() {
                // The node's edges are used up: turn back.
                stack.pop();
                cursors.pop();
                frames.pop();
                if tags.len() > 0 {
                    tags.pop();
                }
                visited.set(node, false);
                proof {
                    assert(stack@ =~= path.drop_last());
                    assert(cursors@ =~= marks.drop_last());
                    assert(tags@ =~= tags_before(along));
                    assert(Seq::<(Seq<usize>, Seq<u64>)>::empty() + below =~= below);
                    assert forall|v: usize| v < n implies (visited@[v as int] <==> stack@.contains(
                        v,
                    )) by {
                        lemma_dropped_last(path, v);
                        if v == node && stack@.contains(v) {
                            let at = choose|at: int| 0 <= at < stack@.len() && stack@[at] == v;
                            assert(path[at] == path[path.len() - 1]);
                        }
                    }
                }
            } else {
                let target = frames[depth][i].0;
                let tag = frames[depth][i].1;
                cursors.set(depth, i + 1);
                let ghost rest = routes_through(
                    edges,
                    start_idx,
                    path,
                    along,
                    limit as nat,
                    (i + 1) as nat,
                );
                let ghost steps_rest = steps_through(
                    edges,
                    start_idx,
                    path,
                    limit as nat,
                    (i + 1) as nat,
                );
                proof {
                    lemma_outgoing_within(edges, n as nat, node);
                    assert(cursors@.drop_last() =~= marks.drop_last());
                    assert(pending(edges, start_idx, path, along, cursors@, limit as nat) == rest
                        + below);
                    assert(steps_pending(edges, start_idx, path, cursors@, limit as nat)
                        == steps_rest + steps_below);
                }
                if target == start_idx {
                    let back_by_another = stack.len() > 2 || (stack.len() == 2 && tags[0] != tag);
                    if back_by_another && stack.len() <= limit {
                        let mut cycle = stack.clone();
                        cycle.push(start_idx);
                        let mut pools = tags.clone();
                        pools.push(tag);
                        routes.push((cycle, pools));
                        let ghost closed = (path.push(start_idx), along.push(tag));
                        assert(route_views(routes@) =~= so_far + seq![closed]);
                        assert((so_far + seq![closed]) + (rest + below) =~= so_far + ((seq![closed]
                            + rest) + below));
                    } else {
                        assert(so_far + (rest + below) =~= so_far + ((Seq::<
                            (Seq<usize>, Seq<u64>),
                        >::empty() + rest) + below));
                    }
                } else if !visited[target] && stack.len() < limit {
                    visited.set(target, true);
                    stack.push(target);
                    tags.push(tag);
                    cursors.push(0);
                    frames.push(graph_out_edges(&self.graph, target));
                    proof {
                        let longer = path.push(target);
                        let more = along.push(tag);
                        assert(stack@.drop_last() =~= path);
                        assert(tags_before(tags@) =~= along);
                        assert(!path.contains(target));
                        assert(cursors@.drop_last() =~= marks.update(depth as int, (i + 1) as usize));
                        let deeper = routes_through(edges, start_idx, longer, more, limit as nat, 0);
                        assert(pending(edges, start_idx, stack@, tags@, cursors@, limit as nat)
                            == deeper + (rest + below));
                        assert(so_far + (deeper + (rest + below)) =~= so_far + ((deeper + rest)
                            + below));
                        assert forall|v: usize| v < n implies (visited@[v as int]
                            <==> stack@.contains(v)) by {
                            lemma_pushed(path, target, v);
                        }
                        assert forall|k: int| 0 <= k < stack@.len() implies (
                        #[trigger] frames@[k])@ == outgoing(edges, stack@[k]) by {
                            if k < path.len() {
                                assert(stack@[k] == path[k]);
                            }
                        }
                    }
                } else {
                    assert(so_far + (rest + below) =~= so_far + ((Seq::<
                        (Seq<usize>, Seq<u64>),
                    >::empty() + rest) + below));
                }
            }
        }
        assert(pending(edges, start_idx, stack@, tags@, cursors@, limit as nat) =~= Seq::<
            (Seq<usize>, Seq<u64>),
        >::empty());
        assert(route_views(routes@) + Seq::<(Seq<usize>, Seq<u64>)>::empty() =~= route_views(
            routes@,
        ));
        routes
    }

    /// The tokens that the node indices in `nodes` stand for.
    fn name_nodes(&self, nodes: &Vec<usize>) -> (names: Vec<Token>)
        requires
            forall|k: int| 0 <= k < nodes@.len() ==> nodes@[k] < self.tokens().len(),
        ensures
            names@ == named(self.tokens(), nodes@),
    {
        proof {
            use_type_invariant(self);
        }
        let mut names: Vec<Token> = Vec::new();
        let mut k: usize = 0;
        while k < nodes.len()
            invariant
                k <= nodes.len(),
                graph_nodes(self.graph) == self.tokens(),
                forall|j: int| 0 <= j < nodes@.len() ==> nodes@[j] < self.tokens().len(),
                names@ == named(self.tokens(), nodes@.take(k as int)),
            decreases nodes.len() - k,
        {
            names.push(graph_node_weight(&self.graph, nodes[k]));
            assert(names@ =~= named(self.tokens(), nodes@.take(k + 1)));
            k += 1;
        }
        assert(nodes@.take(nodes@.len() as int) == nodes@);
        names
    }

    /// The cycles through `start` with at most `max_length` hops, each with
    /// the pools that it crosses, in the order in which a depth-first search
    /// over each token's edges, newest pool first, meets them. A route names
    /// its tokens, with `start` at both ends, and for each hop the index of
    /// the pool that serves it; parallel pools between the same two tokens
    /// give routes of their own. A token that the graph does not have yields
    /// no routes.
    pub fn detect_routes_bounded(&self, start: Token, max_length: usize) -> (found: Vec<Route>)
        ensures
            routes_view(found@) == self.routes(start, max_length as nat),
            forall|i: int|
                0 <= i < found@.len() ==> route_fits(
                    self.pools(),
                    (#[trigger] found@[i]).tokens@,
                    found@[i].pools@,
                    start,
                ) && found@[i].tokens@.len() <= max_length + 1,
    {
        proof {
            use_type_invariant(self);
            lemma_token_routes_fit(self.pools@, start, max_length as nat);
        }
        let mut found: Vec<Route> = Vec::new();
        match self.token_index(start) {
            None => {},
            Some(start_idx) => {
                let routes = self.dfs_cycle_detection(start_idx, max_length);
                let ghost by_node = routes_from(self.edges(), start_idx, max_length as nat);
                assert(route_views(routes@) =~= by_node);
                proof {
                    lemma_pool_edges_within(self.pools@);
                    lemma_routes_are_cycles(
                        self.edges(),
                        start_idx,
                        seq![start_idx],
                        Seq::empty(),
                        max_length as nat,
                        0,
                    );
                    lemma_cycles_sound(
                        self.edges(),
                        self.tokens().len(),
                        start_idx,
                        seq![start_idx],
                        Seq::empty(),
                        max_length as nat,
                        0,
                    );
                    assert forall|c: int, k: int|
                        0 <= c < by_node.len() && 0 <= k < by_node[c].0.len() implies (
                    #[trigger] by_node[c].0[k]) < self.tokens().len() by {
                        let cycles = cycles_from(self.edges(), start_idx, max_length as nat);
                        assert(cycles[c] == route_nodes(by_node)[c]);
                        assert(cycles[c][k] < self.tokens().len());
                    }
                }
                let mut i: usize = 0;
                while i < routes.len()
                    invariant
                        i <= routes.len(),
                        route_views(routes@) == by_node,
                        forall|c: int, k: int|
                            0 <= c < by_node.len() && 0 <= k < by_node[c].0.len() ==> (
                            #[trigger] by_node[c].0[k]) < self.tokens().len(),
                        routes_view(found@) == by_node.take(i as int).map_values(
                            |route: (Seq<usize>, Seq<u64>)| self.named_route(route),
                        ),
                    decreases routes.len() - i,
                {
                    assert(route_views(routes@)[i as int] == by_node[i as int]);
                    assert forall|k: int| 0 <= k < routes@[i as int].0@.len() implies routes@[i as int].0@[k]
                        < self.tokens().len() by {
                        assert(by_node[i as int].0[k] < self.tokens().len());
                    }
                    let ghost before = routes_view(found@);
                    let tokens = self.name_nodes(&routes[i].0);
                    let pools = pool_indices_of(&routes[i].1);
                    found.push(Route { tokens, pools });
                    assert(routes_view(found@) =~= before.push(self.named_route(by_node[i as int])));
                    assert(by_node.take(i + 1) =~= by_node.take(i as int).push(by_node[i as int]));
                    assert(routes_view(found@) =~= by_node.take(i + 1).map_values(
                        |route: (Seq<usize>, Seq<u64>)| self.named_route(route),
                    ));
                    i += 1;
                }
                assert(by_node.take(routes@.len() as int) == by_node);
            },
        }
        assert(routes_view(found@) == self.routes(start, max_length as nat));
        assert forall|i: int| 0 <= i < found@.len() implies route_fits(
            self.pools(),
            (#[trigger] found@[i]).tokens@,
            found@[i].pools@,
            start,
        ) && found@[i].tokens@.len() <= max_length + 1 by {
            assert(routes_view(found@)[i] == (found@[i].tokens@, found@[i].pools@));
        }
        found
    }

    /// All cycles through `start`, each with the pools that it crosses, in
    /// search order. No cycle has more hops than the graph has tokens, so
    /// this is the bounded search with that bound.
    pub fn detect_routes(&self, start: Token) -> (found: Vec<Route>)
        ensures
            routes_view(found@) == self.routes(start, self.tokens().len()),
            forall|i: int|
                0 <= i < found@.len() ==> route_fits(
                    self.pools(),
                    (#[trigger] found@[i]).tokens@,
                    found@[i].pools@,
                    start,
                ),
    {
        let limit = self.node_count();
        self.detect_routes_bounded(start, limit)
    }

    /// The pools that a route crosses, in order; `None` if the route names a
    /// pool that the graph does not have.
    pub fn route_pools(&self, route: &Route) -> (crossed: Option<Vec<UniV2Pool>>)
        ensures
            crossed is Some <==> forall|k: int|
                0 <= k < route.pools@.len() ==> #[trigger] route.pools@[k] < self.pools().len(),
            crossed matches Some(list) ==> list@.len() == route.pools@.len() && forall|k: int|
                0 <= k < list@.len() ==> #[trigger] list@[k] == self.pools()[route.pools@[k] as int],
    {
        let mut list: Vec<UniV2Pool> = Vec::new();
        let mut k: usize = 0;
        while k < route.pools.len()
            invariant
                k <= route.pools@.len(),
                list@.len() == k,
                forall|j: int| 0 <= j < k ==> #[trigger] route.pools@[j] < self.pools().len(),
                forall|j: int|
                    0 <= j < k ==> #[trigger] list@[j] == self.pools()[route.pools@[j] as int],
            decreases route.pools.len() - k,
        {
            let index = route.pools[k];
            if index >= self.pools.len() {
                return None;
            }
            list.push(self.pools[index]);
            k += 1;
        }
        Some(list)
    }

    /// The cycles through `start` with at most `max_length` hops, in the
    /// order in which a depth-first search over each token's edges, newest
    /// pool first, meets them. A cycle is the list of its tokens, with
    /// `start` at both ends. A token that the graph does not have yields no
    /// cycles.
    pub fn detect_cycles_bounded(&self, start: Token, max_length: usize) -> (found: Vec<Vec<Token>>)
        ensures
            views(found@) == self.cycles(start, max_length as nat),
            forall|i: int|
                0 <= i < found@.len() ==> {
                    &&& simple_cycle((#[trigger] found@[i])@, start)
                    &&& found@[i]@.len() <= max_length + 1
                    &&& route_exists(self.pools(), found@[i]@)
                },
    {
        proof {
            use_type_invariant(self);
            lemma_token_cycles_simple(self.pools(), start, max_length as nat);
            lemma_token_routes_are_cycles(self.pools(), start, max_length as nat);
        }
        let routes = self.detect_routes_bounded(start, max_length);
        let ghost all = routes_view(routes@);
        let mut found: Vec<Vec<Token>> = Vec::new();
        let mut i: usize = 0;
        while i < routes.len()
            invariant
                i <= routes.len(),
                all == routes_view(routes@),
                views(found@) == route_tokens(all.take(i as int)),
            decreases routes.len() - i,
        {
            let ghost before = views(found@);
            found.push(routes[i].tokens.clone());
            assert(all[i as int].0 == routes@[i as int].tokens@);
            assert(views(found@) =~= before.push(routes@[i as int].tokens@));
            assert(all.take(i + 1) =~= all.take(i as int).push(all[i as int]));
            assert(views(found@) =~= route_tokens(all.take(i + 1)));
            i += 1;
        }
        assert(all.take(routes@.len() as int) == all);
        assert forall|i: int| 0 <= i < found@.len() implies {
            &&& simple_cycle((#[trigger] found@[i])@, start)
            &&& found@[i]@.len() <= max_length + 1
            &&& route_exists(self.pools(), found@[i]@)
        } by {
            assert(found@[i]@ == views(found@)[i]);
        }
        found
    }

    /// All cycles through `start`, in search order: every sequence of at
    /// least two distinct tokens from `start` back to `start` in which each
    /// token is joined to the next by a pool of its own, once for each
    /// choice of pools along it. A loop of two hops takes two pools between
    /// the same two tokens. No cycle has more hops than the graph has
    /// tokens, so this is the bounded search with that bound.
    pub fn detect_cycles(&self, start: Token) -> (found: Vec<Vec<Token>>)
        ensures
            views(found@) == self.cycles(start, self.tokens().len()),
            forall|i: int|
                0 <= i < found@.len() ==> {
                    &&& simple_cycle((#[trigger] found@[i])@, start)
                    &&& route_exists(self.pools(), found@[i]@)
                },
    {
        let limit = self.node_count();
        self.detect_cycles_bounded(start, limit)
    }

    /// The first pool, in the order in which the graph was given its pools,
    /// that trades between the two tokens in either direction.
    pub fn get_pool(&self, token0: Token, token1: Token) -> (found: Option<&UniV2Pool>)
        ensures
            found is Some <==> joined(self.pools(), token0, token1),
            found matches Some(pool) ==> Some(*pool) == pool_between(self.pools(), token0, token1),
    {
        let mut i: usize = 0;
        while i < self.pools.len()
            invariant
                i <= self.pools.len(),
                forall|k: int| 0 <= k < i ==> !(#[trigger] self.pools@[k]).joins(token0, token1),
            decreases self.pools.len() - i,
        {
            if self.pools[i].connects(token0, token1) {
                proof {
                    let first = first_joining(self.pools@, token0, token1);
                    assert(self.pools@[i as int].joins(token0, token1));
                    assert(first == i);
                }
                return Some(&self.pools[i]);
            }
            i += 1;
        }
        None
    }

    /// The indices of all pools that trade between the two tokens, in either
    /// direction: parallel pools are all listed, in the order in which the
    /// graph was given them.
    pub fn pools_between(&self, token0: Token, token1: Token) -> (found: Vec<usize>)
        ensures
            found@ == joining(self.pools(), token0, token1),
    {
        let mut found: Vec<usize> = Vec::new();
        let mut i: usize = 0;
        while i < self.pools.len()
            invariant
                i <= self.pools.len(),
                found@ == joining(self.pools@.take(i as int), token0, token1),
            decreases self.pools.len() - i,
        {
            assert(self.pools@.take(i + 1).drop_last() == self.pools@.take(i as int));
            if self.pools[i].connects(token0, token1) {
                found.push(i);
            }
            i += 1;
        }
        assert(self.pools@.take(self.pools@.len() as int) == self.pools@);
        found
    }

    /// Whether every step of `path` has a pool: each token must be joined to
    /// the next, and the last to the first unless they are the same token.
    /// An empty path has no route.
    pub fn verify_path_exists(&self, path: &[Token]) -> (exists: bool)
        ensures
            exists == route_exists(self.pools(), path@),
    {
        if path.len() == 0 {
            return false;
        }
        let mut k: usize = 0;
        while k + 1 < path.len()
            invariant
                0 < path@.len(),
                k < path@.len(),
                forall|j: int| 0 <= j < k ==> joined(self.pools(), #[trigger] path@[j], path@[j + 1]),
            decreases path.len() - k,
        {
            if self.get_pool(path[k], path[k + 1]).is_none() {
                return false;
            }
            k += 1;
        }
        let last = path[path.len() - 1];
        let first = path[0];
        if last == first {
            return true;
        }
        self.get_pool(last, first).is_some()
    }

    /// Whether `index` is among `used`.
    fn is_used(used: &Vec<usize>, index: usize) -> (yes: bool)
        ensures
            yes == used@.contains(index),
    {
        let mut k: usize = 0;
        while k < used.len()
            invariant
                k <= used.len(),
                forall|j: int| 0 <= j < k ==> used@[j] != index,
            decreases used.len() - k,
        {
            if used[k] == index {
                return true;
            }
            k += 1;
        }
        false
    }

    /// The first pool that trades between the two tokens and is not among
    /// `used`.
    fn first_unused_pool(&self, a: Token, b: Token, used: &Vec<usize>) -> (found: Option<usize>)
        ensures
            match found {
                Some(i) => i < self.pools().len() && i == first_unused(
                    self.pools(),
                    a,
                    b,
                    used@,
                    0,
                ) && !used@.contains(i),
                None => first_unused(self.pools(), a, b, used@, 0) == self.pools().len(),
            },
    {
        let mut i: usize = 0;
        while i < self.pools.len()
            invariant
                i <= self.pools.len(),
                first_unused(self.pools@, a, b, used@, 0) == first_unused(
                    self.pools@,
                    a,
                    b,
                    used@,
                    i as int,
                ),
            decreases self.pools.len() - i,
        {
            if self.pools[i].connects(a, b) && !Self::is_used(used, i) {
                return Some(i);
            }
            i += 1;
        }
        None
    }

    /// The pools along `cycle`, closed by a step from its last token back to
    /// its first: for each step the first pool that joins the two tokens and
    /// serves no earlier step, so that no pool is listed twice. A step
    /// between a token and itself that no pool serves is passed over, so a
    /// cycle may be given with or without its first token repeated at the
    /// end. `None` when the cycle has no route, or when a step finds all of
    /// its pools taken: such a cycle would use a pool twice.
    #[verifier::rlimit(40)]
    pub fn convert_cycle_to_pools(&self, cycle: &[Token]) -> (converted: Option<Vec<UniV2Pool>>)
        ensures
            match converted {
                Some(list) => closed_route_pools(self.pools(), cycle@) == Some(list@),
                None => closed_route_pools(self.pools(), cycle@) is None,
            },
            converted is Some ==> {
                let indices = route_indices(self.pools(), cycle@.push(cycle@[0]))->Some_0;
                &&& indices.no_duplicates()
                &&& forall|k: int| 0 <= k < indices.len() ==> #[trigger] indices[k] < self.pools().len()
            },
    {
        if !self.verify_path_exists(cycle) {
            return None;
        }
        let mut circular: Vec<Token> = Vec::new();
        let mut j: usize = 0;
        while j < cycle.len()
            invariant
                j <= cycle@.len(),
                circular@ == cycle@.take(j as int),
            decreases cycle.len() - j,
        {
            circular.push(cycle[j]);
            assert(circular@ =~= cycle@.take(j + 1));
            j += 1;
        }
        assert(cycle@.take(cycle@.len() as int) == cycle@);
        circular.push(cycle[0]);
        assert(circular@ == cycle@.push(cycle@[0]));
        let mut used: Vec<usize> = Vec::new();
        let mut k: usize = 0;
        while k + 1 < circular.len()
            invariant
                k < circular@.len(),
                circular@ == cycle@.push(cycle@[0]),
                route_indices(self.pools(), circular@.take(k + 1)) == Some(used@),
                used@.no_duplicates(),
                forall|i: int| 0 <= i < used@.len() ==> #[trigger] used@[i] < self.pools().len(),
            decreases circular.len() - k,
        {
            let ghost walked = circular@.take(k + 2);
            assert(walked.drop_last() == circular@.take(k + 1));
            assert(walked[walked.len() - 2] == circular@[k as int]);
            assert(walked[walked.len() - 1] == circular@[k + 1]);
            if self.get_pool(circular[k], circular[k + 1]).is_some() {
                match self.first_unused_pool(circular[k], circular[k + 1], &used) {
                    Some(index) => {
                        used.push(index);
                    },
                    None => {
                        proof {
                            assert(joined(self.pools(), walked[walked.len() - 2], walked.last()));
                            assert(route_indices(self.pools(), walked) is None);
                            lemma_route_indices_stay_none(self.pools(), circular@, k + 2);
                        }
                        return None;
                    },
                }
            }
            k += 1;
        }
        assert(circular@.take(circular@.len() as int) == circular@);
        let mut list: Vec<UniV2Pool> = Vec::new();
        let mut i: usize = 0;
        while i < used.len()
            invariant
                i <= used.len(),
                forall|j: int| 0 <= j < used@.len() ==> #[trigger] used@[j] < self.pools().len(),
                list@ == pools_at(self.pools(), used@.take(i as int)),
            decreases used.len() - i,
        {
            list.push(self.pools[used[i]]);
            assert(list@ =~= pools_at(self.pools(), used@.take(i + 1)));
            i += 1;
        }
        assert(used@.take(used@.len() as int) == used@);
        Some(list)
    }

    /// The pool lists of those `cycles` that have one, in order; see
    /// [`PoolGraph::convert_cycle_to_pools`]. No list holds a pool twice.
    pub fn convert_cycles_to_pool_paths(&self, cycles: Vec<Vec<Token>>) -> (paths: Vec<
        Vec<UniV2Pool>,
    >)
        ensures
            views(paths@) == routes_pools(self.pools(), views(cycles@)),
    {
        let mut paths: Vec<Vec<UniV2Pool>> = Vec::new();
        let mut i: usize = 0;
        while i < cycles.len()
            invariant
                i <= cycles.len(),
                views(paths@) == routes_pools(self.pools(), views(cycles@).take(i as int)),
            decreases cycles.len() - i,
        {
            assert(views(cycles@).take(i + 1).drop_last() == views(cycles@).take(i as int));
            assert(views(cycles@).take(i + 1).last() == cycles@[i as int]@);
            let ghost before = views(paths@);
            match self.convert_cycle_to_pools(cycles[i].as_slice()) {
                Some(list) => {
                    paths.push(list);
                    assert(views(paths@) =~= before.push(list@));
                },
                None => {},
            }
            i += 1;
        }
        assert(views(cycles@).take(cycles@.len() as int) == views(cycles@));
        paths
    }
}

/// The first place of `token` in `tokens`, if it is there.
fn find_token(tokens: &Vec<Token>, token: Token) -> (found: Option<usize>)
    ensures
        match found {
            Some(j) => j < tokens@.len() && tokens@[j as int] == token && (tokens@.no_duplicates()
                ==> j == position(tokens@, token)),
            None => !tokens@.contains(token),
        },
{
    let mut j: usize = 0;
    while j < tokens.len()
        invariant
            j <= tokens.len(),
            forall|k: int| 0 <= k < j ==> tokens@[k] != token,
        decreases tokens.len() - j,
    {
        if tokens[j] == token {
            proof {
                if tokens@.no_duplicates() {
                    let chosen = position(tokens@, token);
                    assert(tokens@[j as int] == token);
                    assert(0 <= chosen < tokens@.len() && tokens@[chosen] == token);
                }
            }
            return Some(j);
        }
        j += 1;
    }
    None
}

/// The contents of each vector, in order.
pub open spec fn views<T>(vectors: Seq<Vec<T>>) -> Seq<Seq<T>> {
    vectors.map_values(|v: Vec<T>| v@)
}

} // verus!
