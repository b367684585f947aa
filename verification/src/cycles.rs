//! Closed routes through a directed multigraph, as the depth-first search
//! from a start node finds them.
//!
//! Everything here is stated over the plain edge list of a graph, each edge a
//! `(source, target, tag)` triple.

use vstd::prelude::*;
use crate::digraph::outgoing;

verus! {

/// Every edge starts and ends at a node below `n`.
pub open spec fn edges_within(edges: Seq<(usize, usize, u64)>, n: nat) -> bool {
    forall|k: int| 0 <= k < edges.len() ==> (#[trigger] edges[k]).0 < n && edges[k].1 < n
}

/// Some edge leads from `a` to `b`.
pub open spec fn has_edge(edges: Seq<(usize, usize, u64)>, a: usize, b: usize) -> bool {
    exists|k: int| 0 <= k < edges.len() && (#[trigger] edges[k]).0 == a && edges[k].1 == b
}

/// Each node of `path` is followed by one that an edge leads to.
pub open spec fn linked(edges: Seq<(usize, usize, u64)>, path: Seq<usize>) -> bool {
    forall|k: int| 0 <= k < path.len() - 1 ==> has_edge(edges, #[trigger] path[k], path[k + 1])
}

/// `cycle` leaves `start`, returns to it after at least two hops, and
/// visits no node twice on the way.
pub open spec fn simple_cycle<T>(cycle: Seq<T>, start: T) -> bool {
    &&& cycle.len() >= 3
    &&& cycle[0] == start
    &&& cycle.last() == start
    &&& cycle.drop_last().no_duplicates()
}

/// An edge tagged `tag` that leads from the end of `path` back to its start
/// closes a cycle: the path has at least two nodes and at most `limit`, and
/// where it has just two, the edge back is not tagged like the edge out, so
/// that a loop of two hops goes out by one edge and back by another.
pub open spec fn closes(path: Seq<usize>, tags: Seq<u64>, tag: u64, limit: nat) -> bool {
    2 <= path.len() <= limit && (path.len() > 2 || tags[0] != tag)
}

/// The cycles that the search records while it stands at the end of `path`,
/// which it came down along the edges tagged `tags`, and tries that node's
/// outgoing edges from the one numbered `from` on.
///
/// An edge back to `start` closes a cycle where [`closes`] says so; an edge
/// to a node off the path is followed while the path has fewer than `limit`
/// nodes; every other edge is passed over. Cycles come out in the order in
/// which the search meets them.
pub open spec fn cycles_through(
    edges: Seq<(usize, usize, u64)>,
    start: usize,
    path: Seq<usize>,
    tags: Seq<u64>,
    limit: nat,
    from: nat,
) -> Seq<Seq<usize>>
    decreases limit - path.len(), outgoing(edges, path.last()).len() - from,
{
    let out = outgoing(edges, path.last());
    if path.len() == 0 || from >= out.len() {
        Seq::empty()
    } else {
        let target = out[from as int].0;
        let tag = out[from as int].1;
        let here = if target == start {
            if closes(path, tags, tag, limit) {
                seq![path.push(start)]
            } else {
                Seq::empty()
            }
        } else if path.contains(target) || path.len() >= limit {
            Seq::empty()
        } else {
            cycles_through(edges, start, path.push(target), tags.push(tag), limit, 0)
        };
        here + cycles_through(edges, start, path, tags, limit, (from + 1) as nat)
    }
}

/// All cycles from `start` with at most `limit` hops, in search order.
pub open spec fn cycles_from(edges: Seq<(usize, usize, u64)>, start: usize, limit: nat) -> Seq<
    Seq<usize>,
> {
    cycles_through(edges, start, seq![start], Seq::empty(), limit, 0)
}

/// What leaves a node is an edge of the graph.
pub proof fn lemma_outgoing_are_edges(edges: Seq<(usize, usize, u64)>, node: usize)
    ensures
        forall|j: int|
            0 <= j < outgoing(edges, node).len() ==> exists|k: int|
                0 <= k < edges.len() && #[trigger] edges[k] == (
                    node,
                    (#[trigger] outgoing(edges, node)[j]).0,
                    outgoing(edges, node)[j].1,
                ),
    decreases edges.len(),
{
    if edges.len() > 0 {
        let init = edges.drop_last();
        lemma_outgoing_are_edges(init, node);
        let out = outgoing(edges, node);
        let rest = outgoing(init, node);
        assert forall|j: int| 0 <= j < out.len() implies exists|k: int|
            0 <= k < edges.len() && #[trigger] edges[k] == (node, (#[trigger] out[j]).0, out[j].1) by {
            if edges.last().0 == node && j == 0 {
                assert(edges[edges.len() - 1] == (node, out[j].0, out[j].1));
            } else {
                let shift = if edges.last().0 == node { j - 1 } else { j };
                assert(out[j] == rest[shift]);
                let k = choose|k: int|
                    0 <= k < init.len() && #[trigger] init[k] == (node, rest[shift].0, rest[shift].1);
                assert(edges[k] == init[k]);
            }
        }
    }
}

/// Every cycle that the search records is a simple cycle through `start`
/// that continues `path`, follows edges of the graph, stays within the
/// graph's nodes and has at most `limit` hops.
pub proof fn lemma_cycles_sound(
    edges: Seq<(usize, usize, u64)>,
    n: nat,
    start: usize,
    path: Seq<usize>,
    tags: Seq<u64>,
    limit: nat,
    from: nat,
)
    requires
        edges_within(edges, n),
        path.len() > 0,
        path[0] == start,
        path.no_duplicates(),
        linked(edges, path),
        forall|k: int| 0 <= k < path.len() ==> path[k] < n,
    ensures
        forall|i: int|
            #![trigger cycles_through(edges, start, path, tags, limit, from)[i]]
            0 <= i < cycles_through(edges, start, path, tags, limit, from).len() ==> {
                let cycle = cycles_through(edges, start, path, tags, limit, from)[i];
                &&& simple_cycle(cycle, start)
                &&& cycle.len() <= limit + 1
                &&& linked(edges, cycle)
                &&& path.is_prefix_of(cycle)
                &&& forall|k: int| 0 <= k < cycle.len() ==> cycle[k] < n
            },
    decreases limit - path.len(), outgoing(edges, path.last()).len() - from,
{
    let out = outgoing(edges, path.last());
    if from < out.len() {
        let target = out[from as int].0;
        lemma_outgoing_are_edges(edges, path.last());
        let k = choose|k: int|
            0 <= k < edges.len() && #[trigger] edges[k] == (path.last(), target, out[from as int].1);
        assert(has_edge(edges, path.last(), target));
        assert(target < n);
        let rest = cycles_through(edges, start, path, tags, limit, (from + 1) as nat);
        lemma_cycles_sound(edges, n, start, path, tags, limit, (from + 1) as nat);
        if target == start {
            if closes(path, tags, out[from as int].1, limit) {
                let cycle = path.push(start);
                assert(cycle.drop_last() == path);
                assert(linked(edges, cycle)) by {
                    assert forall|j: int| 0 <= j < cycle.len() - 1 implies has_edge(
                        edges,
                        #[trigger] cycle[j],
                        cycle[j + 1],
                    ) by {
                        if j < path.len() - 1 {
                            assert(cycle[j] == path[j] && cycle[j + 1] == path[j + 1]);
                        }
                    }
                }
                assert(path.is_prefix_of(cycle));
            }
        } else if path.contains(target) || path.len() >= limit {
        } else {
            let longer = path.push(target);
            assert(longer.no_duplicates());
            assert(linked(edges, longer)) by {
                assert forall|j: int| 0 <= j < longer.len() - 1 implies has_edge(
                    edges,
                    #[trigger] longer[j],
                    longer[j + 1],
                ) by {
                    if j < path.len() - 1 {
                        assert(longer[j] == path[j] && longer[j + 1] == path[j + 1]);
                    }
                }
            }
            lemma_cycles_sound(edges, n, start, longer, tags.push(out[from as int].1), limit, 0);
            let deeper = cycles_through(edges, start, longer, tags.push(out[from as int].1), limit, 0);
            assert forall|i: int| 0 <= i < deeper.len() implies path.is_prefix_of(
                #[trigger] deeper[i],
            ) by {
                assert(longer.is_prefix_of(deeper[i]));
                assert(path =~= longer.subrange(0, path.len() as int));
                assert(path =~= deeper[i].subrange(0, path.len() as int));
            }
        }
    }
}

/// The cycles of [`cycles_through`], each with the tags of the edges that it
/// follows: `tags` holds the tags of the edges along `path`, and every cycle
/// comes with one tag per hop.
pub open spec fn routes_through(
    edges: Seq<(usize, usize, u64)>,
    start: usize,
    path: Seq<usize>,
    tags: Seq<u64>,
    limit: nat,
    from: nat,
) -> Seq<(Seq<usize>, Seq<u64>)>
    decreases limit - path.len(), outgoing(edges, path.last()).len() - from,
{
    let out = outgoing(edges, path.last());
    if path.len() == 0 || from >= out.len() {
        Seq::empty()
    } else {
        let target = out[from as int].0;
        let tag = out[from as int].1;
        let here = if target == start {
            if closes(path, tags, tag, limit) {
                seq![(path.push(start), tags.push(tag))]
            } else {
                Seq::empty()
            }
        } else if path.contains(target) || path.len() >= limit {
            Seq::empty()
        } else {
            routes_through(edges, start, path.push(target), tags.push(tag), limit, 0)
        };
        here + routes_through(edges, start, path, tags, limit, (from + 1) as nat)
    }
}

/// All cycles from `start` with at most `limit` hops, in search order, each
/// with the tags of its edges.
pub open spec fn routes_from(edges: Seq<(usize, usize, u64)>, start: usize, limit: nat) -> Seq<
    (Seq<usize>, Seq<u64>),
> {
    routes_through(edges, start, seq![start], Seq::empty(), limit, 0)
}

/// The nodes of each route.
pub open spec fn route_nodes(routes: Seq<(Seq<usize>, Seq<u64>)>) -> Seq<Seq<usize>> {
    routes.map_values(|route: (Seq<usize>, Seq<u64>)| route.0)
}

/// `tags` names, hop by hop, an edge of the graph along `path`.
pub open spec fn tagged(edges: Seq<(usize, usize, u64)>, path: Seq<usize>, tags: Seq<u64>) -> bool {
    &&& tags.len() == path.len() - 1
    &&& forall|k: int|
        0 <= k < tags.len() ==> edges.contains((path[k], path[k + 1], #[trigger] tags[k]))
}

/// Leaving the tags out of the routes gives the cycles.
pub proof fn lemma_routes_are_cycles(
    edges: Seq<(usize, usize, u64)>,
    start: usize,
    path: Seq<usize>,
    tags: Seq<u64>,
    limit: nat,
    from: nat,
)
    ensures
        route_nodes(routes_through(edges, start, path, tags, limit, from)) == cycles_through(
            edges,
            start,
            path,
            tags,
            limit,
            from,
        ),
    decreases limit - path.len(), outgoing(edges, path.last()).len() - from,
{
    let out = outgoing(edges, path.last());
    let routes = routes_through(edges, start, path, tags, limit, from);
    let cycles = cycles_through(edges, start, path, tags, limit, from);
    if path.len() == 0 || from >= out.len() {
        assert(route_nodes(routes) =~= cycles);
    } else {
        let target = out[from as int].0;
        let tag = out[from as int].1;
        lemma_routes_are_cycles(edges, start, path, tags, limit, (from + 1) as nat);
        let rest = routes_through(edges, start, path, tags, limit, (from + 1) as nat);
        if target == start {
            if closes(path, tags, tag, limit) {
                let here = seq![(path.push(start), tags.push(tag))];
                assert(route_nodes(here + rest) =~= seq![path.push(start)] + route_nodes(rest));
            } else {
                assert(Seq::<(Seq<usize>, Seq<u64>)>::empty() + rest =~= rest);
                assert(Seq::<Seq<usize>>::empty() + route_nodes(rest) =~= route_nodes(rest));
            }
        } else if path.contains(target) || path.len() >= limit {
            assert(Seq::<(Seq<usize>, Seq<u64>)>::empty() + rest =~= rest);
            assert(Seq::<Seq<usize>>::empty() + route_nodes(rest) =~= route_nodes(rest));
        } else {
            lemma_routes_are_cycles(edges, start, path.push(target), tags.push(tag), limit, 0);
            let deeper = routes_through(edges, start, path.push(target), tags.push(tag), limit, 0);
            assert(route_nodes(deeper + rest) =~= route_nodes(deeper) + route_nodes(rest));
        }
    }
}

/// Every route's tags name, hop by hop, edges of the graph along the route.
pub proof fn lemma_routes_tagged(
    edges: Seq<(usize, usize, u64)>,
    start: usize,
    path: Seq<usize>,
    tags: Seq<u64>,
    limit: nat,
    from: nat,
)
    requires
        path.len() > 0,
        tagged(edges, path, tags),
    ensures
        forall|i: int|
            #![trigger routes_through(edges, start, path, tags, limit, from)[i]]
            0 <= i < routes_through(edges, start, path, tags, limit, from).len() ==> {
                let route = routes_through(edges, start, path, tags, limit, from)[i];
                &&& tagged(edges, route.0, route.1)
                &&& route.0.len() > 3 || route.1[0] != route.1[1]
            },
    decreases limit - path.len(), outgoing(edges, path.last()).len() - from,
{
    let out = outgoing(edges, path.last());
    if from < out.len() {
        let target = out[from as int].0;
        let tag = out[from as int].1;
        lemma_outgoing_are_edges(edges, path.last());
        let k = choose|k: int| 0 <= k < edges.len() && #[trigger] edges[k] == (path.last(), target, tag);
        assert(edges.contains((path.last(), target, tag)));
        lemma_routes_tagged(edges, start, path, tags, limit, (from + 1) as nat);
        let longer = path.push(target);
        let more = tags.push(tag);
        assert(tagged(edges, longer, more)) by {
            assert forall|j: int| 0 <= j < more.len() implies edges.contains(
                (longer[j], longer[j + 1], #[trigger] more[j]),
            ) by {
                if j < tags.len() {
                    assert(edges.contains((path[j], path[j + 1], tags[j])));
                }
            }
        }
        let here = if target == start {
            if closes(path, tags, tag, limit) {
                seq![(longer, more)]
            } else {
                Seq::empty()
            }
        } else if path.contains(target) || path.len() >= limit {
            Seq::empty()
        } else {
            lemma_routes_tagged(edges, start, longer, more, limit, 0);
            routes_through(edges, start, longer, more, limit, 0)
        };
        let rest = routes_through(edges, start, path, tags, limit, (from + 1) as nat);
        let routes = routes_through(edges, start, path, tags, limit, from);
        assert(routes == here + rest);
        assert forall|i: int| 0 <= i < routes.len() implies tagged(
            edges,
            (#[trigger] routes[i]).0,
            routes[i].1,
        ) && (routes[i].0.len() > 3 || routes[i].1[0] != routes[i].1[1]) by {
            if i < here.len() {
                assert(routes[i] == here[i]);
            } else {
                assert(routes[i] == rest[i - here.len()]);
            }
        }
    }
}

/// The tags without the last, if there is one.
pub open spec fn tags_before(tags: Seq<u64>) -> Seq<u64> {
    if tags.len() > 0 {
        tags.drop_last()
    } else {
        tags
    }
}

/// What a search that has come down `path` has yet to record: for each node
/// of the path, deepest first, the routes from that node's outgoing edge at
/// the node's cursor on.
pub open spec fn pending(
    edges: Seq<(usize, usize, u64)>,
    start: usize,
    path: Seq<usize>,
    tags: Seq<u64>,
    cursors: Seq<usize>,
    limit: nat,
) -> Seq<(Seq<usize>, Seq<u64>)>
    decreases path.len(),
{
    if path.len() == 0 {
        Seq::empty()
    } else {
        routes_through(edges, start, path, tags, limit, cursors.last() as nat) + pending(
            edges,
            start,
            path.drop_last(),
            tags_before(tags),
            cursors.drop_last(),
            limit,
        )
    }
}

/// The number of steps that the search takes from the end of `path` and the
/// outgoing edge numbered `from` on: one per edge that it tries, here and
/// further down, and one to turn back from each node.
pub open spec fn steps_through(
    edges: Seq<(usize, usize, u64)>,
    start: usize,
    path: Seq<usize>,
    limit: nat,
    from: nat,
) -> nat
    decreases limit - path.len(), outgoing(edges, path.last()).len() - from,
{
    let out = outgoing(edges, path.last());
    if path.len() == 0 || from >= out.len() {
        1
    } else {
        let target = out[from as int].0;
        let below = if target != start && !path.contains(target) && path.len() < limit {
            steps_through(edges, start, path.push(target), limit, 0)
        } else {
            0
        };
        1 + below + steps_through(edges, start, path, limit, (from + 1) as nat)
    }
}

/// The number of steps that a search that has come down `path` has yet to
/// take.
pub open spec fn steps_pending(
    edges: Seq<(usize, usize, u64)>,
    start: usize,
    path: Seq<usize>,
    cursors: Seq<usize>,
    limit: nat,
) -> nat
    decreases path.len(),
{
    if path.len() == 0 {
        0
    } else {
        steps_through(edges, start, path, limit, cursors.last() as nat) + steps_pending(
            edges,
            start,
            path.drop_last(),
            cursors.drop_last(),
            limit,
        )
    }
}

/// Every edge of the graph is among what leaves its source.
pub proof fn lemma_edges_are_outgoing(edges: Seq<(usize, usize, u64)>, k: int)
    requires
        0 <= k < edges.len(),
    ensures
        exists|j: int|
            0 <= j < outgoing(edges, edges[k].0).len() && #[trigger] outgoing(edges, edges[k].0)[j]
                == (edges[k].1, edges[k].2),
    decreases edges.len(),
{
    let node = edges[k].0;
    let out = outgoing(edges, node);
    let init = edges.drop_last();
    let rest = outgoing(init, node);
    if k == edges.len() - 1 {
        assert(out[0] == (edges[k].1, edges[k].2));
    } else {
        assert(init[k] == edges[k]);
        lemma_edges_are_outgoing(init, k);
        let j = choose|j: int| 0 <= j < rest.len() && #[trigger] rest[j] == (init[k].1, init[k].2);
        if edges.last().0 == node {
            assert(out[j + 1] == rest[j]);
        } else {
            assert(out[j] == rest[j]);
        }
    }
}

/// What the search records, with tags, for the outgoing edge numbered `i` of
/// the last node of `path`.
pub open spec fn routes_over_edge(
    edges: Seq<(usize, usize, u64)>,
    start: usize,
    path: Seq<usize>,
    tags: Seq<u64>,
    limit: nat,
    i: nat,
) -> Seq<(Seq<usize>, Seq<u64>)> {
    let target = outgoing(edges, path.last())[i as int].0;
    let tag = outgoing(edges, path.last())[i as int].1;
    if target == start {
        if closes(path, tags, tag, limit) {
            seq![(path.push(start), tags.push(tag))]
        } else {
            Seq::empty()
        }
    } else if path.contains(target) || path.len() >= limit {
        Seq::empty()
    } else {
        routes_through(edges, start, path.push(target), tags.push(tag), limit, 0)
    }
}

/// What the search records for one outgoing edge is part of what it records
/// from any earlier edge on, tags included.
pub proof fn lemma_edge_routes_recorded(
    edges: Seq<(usize, usize, u64)>,
    start: usize,
    path: Seq<usize>,
    tags: Seq<u64>,
    limit: nat,
    from: nat,
    i: nat,
    route: (Seq<usize>, Seq<u64>),
)
    requires
        path.len() > 0,
        from <= i < outgoing(edges, path.last()).len(),
        routes_over_edge(edges, start, path, tags, limit, i).contains(route),
    ensures
        routes_through(edges, start, path, tags, limit, from).contains(route),
    decreases i - from,
{
    let first = routes_over_edge(edges, start, path, tags, limit, from);
    let rest = routes_through(edges, start, path, tags, limit, (from + 1) as nat);
    assert(routes_through(edges, start, path, tags, limit, from) == first + rest);
    if i == from {
        let at = choose|at: int| 0 <= at < first.len() && first[at] == route;
        assert((first + rest)[at] == route);
    } else {
        lemma_edge_routes_recorded(edges, start, path, tags, limit, (from + 1) as nat, i, route);
        let at = choose|at: int| 0 <= at < rest.len() && rest[at] == route;
        assert((first + rest)[first.len() + at] == route);
    }
}

/// The search misses no route: standing at the end of `path`, which it came
/// down along the edges tagged `tags`, it records every simple cycle through
/// `start` that continues the path, with every choice of edges along it,
/// within `limit` hops.
pub proof fn lemma_routes_complete(
    edges: Seq<(usize, usize, u64)>,
    start: usize,
    path: Seq<usize>,
    tags: Seq<u64>,
    limit: nat,
    route: (Seq<usize>, Seq<u64>),
)
    requires
        0 < path.len() < route.0.len(),
        tags.len() == path.len() - 1,
        path.is_prefix_of(route.0),
        tags.is_prefix_of(route.1),
        simple_cycle(route.0, start),
        tagged(edges, route.0, route.1),
        route.0.len() > 3 || route.1[0] != route.1[1],
        route.0.len() <= limit + 1,
    ensures
        routes_through(edges, start, path, tags, limit, 0).contains(route),
    decreases route.0.len() - path.len(),
{
    let cycle = route.0;
    let chosen = route.1;
    let inner = cycle.drop_last();
    let next = cycle[path.len() as int];
    let tag = chosen[path.len() - 1];
    let last = path.last();
    assert(forall|k: int| 0 <= k < path.len() ==> path[k] == cycle[k]);
    assert(forall|k: int| 0 <= k < tags.len() ==> tags[k] == chosen[k]);
    assert(last == cycle[path.len() - 1]);
    assert(edges.contains((cycle[path.len() - 1], cycle[path.len() - 1 + 1], chosen[path.len() - 1])));
    let e = choose|e: int| 0 <= e < edges.len() && edges[e] == (last, next, tag);
    lemma_edges_are_outgoing(edges, e);
    let out = outgoing(edges, last);
    let i = choose|i: int| 0 <= i < out.len() && #[trigger] out[i] == (edges[e].1, edges[e].2);
    assert(out[i].0 == next && out[i].1 == tag);
    let found = routes_over_edge(edges, start, path, tags, limit, i as nat);
    if path.len() == cycle.len() - 1 {
        assert(next == start);
        assert(cycle =~= path.push(start));
        assert(chosen =~= tags.push(tag));
        assert(found[0] == route);
    } else {
        assert(inner[path.len() as int] == next);
        assert(inner[0] == start);
        assert(next != start);
        if path.contains(next) {
            let at = choose|at: int| 0 <= at < path.len() && path[at] == next;
            assert(inner[at] == next);
            assert(false);
        }
        let longer = path.push(next);
        let more = tags.push(tag);
        assert(longer.is_prefix_of(cycle)) by {
            assert(longer =~= cycle.subrange(0, longer.len() as int));
        }
        assert(more.is_prefix_of(chosen)) by {
            assert(more =~= chosen.subrange(0, more.len() as int));
        }
        lemma_routes_complete(edges, start, longer, more, limit, route);
    }
    lemma_edge_routes_recorded(edges, start, path, tags, limit, 0, i as nat, route);
}

} // verus!
