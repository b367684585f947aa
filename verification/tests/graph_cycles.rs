use pool_arbitrage::graph::build_graph;
use pool_arbitrage::graph::PoolGraph;
use pool_arbitrage::graph::Route;
use pool_arbitrage::pool::ArbError;
use pool_arbitrage::pool::UniV2Pool;
use pool_arbitrage::token::Token;

fn token(n: u128) -> Token {
    Token::new(0, n)
}

fn pool(address: u128, a: u128, b: u128, reserve0: u128, reserve1: u128) -> UniV2Pool {
    UniV2Pool {
        address: Token::new(1, address),
        token0: token(a),
        token1: token(b),
        reserve0,
        reserve1,
        router_fee: 30,
        fees0: 5,
        fees1: 5,
    }
}

fn path(tokens: &[u128]) -> Vec<Token> {
    tokens.iter().map(|&n| token(n)).collect()
}

fn triangle() -> Vec<UniV2Pool> {
    vec![pool(10, 0, 1, 1000, 2000), pool(11, 1, 2, 1500, 2500), pool(12, 2, 0, 3000, 1000)]
}

/// Six tokens on a ring, with four chords.
fn ring_with_chords() -> Vec<UniV2Pool> {
    vec![
        pool(0x10, 0, 1, 1000, 2000),
        pool(0x11, 1, 2, 1500, 2500),
        pool(0x12, 2, 3, 3000, 1000),
        pool(0x13, 3, 4, 2000, 3000),
        pool(0x14, 4, 5, 2500, 3500),
        pool(0x15, 5, 0, 3000, 4000),
        pool(0x16, 0, 2, 1000, 1500),
        pool(0x17, 1, 3, 500, 2000),
        pool(0x18, 3, 5, 1200, 3000),
        pool(0x19, 4, 1, 3000, 1000),
    ]
}

#[test]
fn triangle_has_two_cycles_in_search_order() {
    let graph = PoolGraph::new(&triangle());
    let cycles = graph.detect_cycles(token(0));
    // The edge of the pool added last is tried first.
    assert_eq!(cycles, vec![path(&[0, 2, 1, 0]), path(&[0, 1, 2, 0])]);
}

#[test]
fn unknown_start_token_yields_no_cycles() {
    let graph = PoolGraph::new(&triangle());
    assert!(graph.detect_cycles(token(9)).is_empty());
    assert!(graph.detect_cycles_bounded(token(9), 5).is_empty());
}

#[test]
fn graph_without_pools_has_no_cycles() {
    let graph = PoolGraph::new(&Vec::new());
    assert_eq!(graph.node_count(), 0);
    assert!(graph.detect_cycles(token(0)).is_empty());
}

#[test]
fn enumeration_is_repeatable() {
    let graph = PoolGraph::new(&ring_with_chords());
    assert_eq!(graph.detect_cycles(token(1)), graph.detect_cycles(token(1)));
    let again = PoolGraph::new(&ring_with_chords());
    assert_eq!(graph.detect_cycles(token(1)), again.detect_cycles(token(1)));
}

#[test]
fn ring_with_chords_cycles_through_token_four() {
    let graph = PoolGraph::new(&ring_with_chords());
    let cycles = graph.detect_cycles(token(4));
    assert_eq!(cycles.len(), 32);
    assert_eq!(cycles[0], path(&[4, 1, 3, 5, 4]));
    assert_eq!(cycles[1], path(&[4, 1, 3, 4]));
    assert_eq!(cycles[2], path(&[4, 1, 3, 2, 0, 5, 4]));
    assert_eq!(cycles[8], path(&[4, 1, 0, 2, 3, 4]));
    assert_eq!(cycles[31], path(&[4, 3, 2, 1, 0, 5, 4]));
}

#[test]
fn every_cycle_starts_and_ends_at_the_start_and_repeats_nothing_between() {
    let graph = PoolGraph::new(&ring_with_chords());
    for start in 0..6u128 {
        let cycles = graph.detect_cycles(token(start));
        assert!(!cycles.is_empty());
        for cycle in &cycles {
            assert!(cycle.len() >= 3);
            assert_eq!(cycle[0], token(start));
            assert_eq!(cycle[cycle.len() - 1], token(start));
            let inner = &cycle[..cycle.len() - 1];
            for a in 0..inner.len() {
                for b in (a + 1)..inner.len() {
                    assert_ne!(inner[a], inner[b]);
                }
            }
            assert!(graph.verify_path_exists(cycle));
        }
    }
}

#[test]
fn bound_on_hops_cuts_longer_cycles() {
    let graph = PoolGraph::new(&ring_with_chords());
    assert_eq!(
        graph.detect_cycles_bounded(token(4), 3),
        vec![path(&[4, 1, 3, 4]), path(&[4, 5, 3, 4]), path(&[4, 3, 5, 4]), path(&[4, 3, 1, 4])]
    );
    assert_eq!(graph.detect_cycles_bounded(token(4), 4).len(), 10);
    assert!(graph.detect_cycles_bounded(token(4), 2).is_empty());
    assert!(graph.detect_cycles_bounded(token(4), 0).is_empty());
    assert_eq!(graph.detect_cycles_bounded(token(4), 6), graph.detect_cycles(token(4)));
}

#[test]
fn two_parallel_pools_make_a_loop_of_two_hops() {
    // Out through one pool and back through the other, either way round.
    let pools = vec![pool(1, 0, 1, 100, 10), pool(2, 0, 1, 90, 15)];
    let graph = PoolGraph::new(&pools);
    assert_eq!(graph.detect_cycles(token(0)), vec![path(&[0, 1, 0]), path(&[0, 1, 0])]);
    assert_eq!(
        graph.detect_routes(token(0)),
        vec![
            Route { tokens: path(&[0, 1, 0]), pools: vec![1, 0] },
            Route { tokens: path(&[0, 1, 0]), pools: vec![0, 1] },
        ]
    );
    assert!(graph.detect_cycles(token(0)).contains(&path(&[0, 1, 0])));
    assert!(graph.detect_cycles_bounded(token(0), 1).is_empty());
    assert_eq!(graph.detect_cycles_bounded(token(0), 2).len(), 2);
}

#[test]
fn one_pool_alone_makes_no_loop() {
    // Out and back through the same pool is no cycle.
    let graph = PoolGraph::new(&vec![pool(1, 0, 1, 100, 10)]);
    assert!(graph.detect_cycles(token(0)).is_empty());
    assert!(graph.detect_routes(token(1)).is_empty());
}

#[test]
fn parallel_pools_keep_their_own_edges() {
    let pools = vec![
        pool(1, 0, 1, 100, 10),
        pool(2, 0, 1, 90, 15),
        pool(3, 1, 2, 50, 50),
        pool(4, 2, 0, 70, 70),
    ];
    let graph = PoolGraph::new(&pools);
    assert_eq!(graph.node_count(), 3);
    assert_eq!(graph.nodes(), path(&[0, 1, 2]));
    assert_eq!(
        graph.edge_list(),
        vec![(0, 1, 0), (1, 0, 0), (0, 1, 1), (1, 0, 1), (1, 2, 2), (2, 1, 2), (2, 0, 3), (0, 2, 3)]
    );
    // Each of the two pools between tokens 0 and 1 gives the triangle once
    // in each direction, and together they give the loop of two hops.
    let cycles = graph.detect_cycles(token(0));
    assert_eq!(
        cycles,
        vec![
            path(&[0, 2, 1, 0]),
            path(&[0, 2, 1, 0]),
            path(&[0, 1, 2, 0]),
            path(&[0, 1, 0]),
            path(&[0, 1, 2, 0]),
            path(&[0, 1, 0]),
        ]
    );
}

#[test]
fn self_pool_is_never_part_of_a_cycle() {
    let mut pools = triangle();
    pools.push(pool(13, 0, 0, 10, 10));
    let graph = PoolGraph::new(&pools);
    assert_eq!(graph.node_count(), 3);
    assert_eq!(
        graph.detect_cycles(token(0)),
        vec![path(&[0, 2, 1, 0]), path(&[0, 1, 2, 0])]
    );
}

#[test]
fn token_index_follows_first_appearance() {
    let graph = PoolGraph::new(&ring_with_chords());
    assert_eq!(graph.token_index(token(0)), Some(0));
    assert_eq!(graph.token_index(token(3)), Some(3));
    assert_eq!(graph.token_index(token(5)), Some(5));
    assert_eq!(graph.token_index(token(6)), None);
    let reversed = PoolGraph::new(&vec![pool(1, 7, 3, 1, 1), pool(2, 3, 9, 1, 1)]);
    assert_eq!(reversed.nodes(), path(&[7, 3, 9]));
    assert_eq!(reversed.token_index(token(9)), Some(2));
}

#[test]
fn get_pool_finds_the_first_pool_either_way_round() {
    let pools = vec![pool(1, 0, 1, 100, 10), pool(2, 1, 0, 90, 15), pool(3, 1, 2, 50, 50)];
    let graph = PoolGraph::new(&pools);
    assert_eq!(graph.get_pool(token(0), token(1)), Some(&pools[0]));
    assert_eq!(graph.get_pool(token(1), token(0)), Some(&pools[0]));
    assert_eq!(graph.get_pool(token(2), token(1)), Some(&pools[2]));
    assert_eq!(graph.get_pool(token(0), token(2)), None);
    assert_eq!(graph.get_pool(token(0), token(0)), None);
}

#[test]
fn verify_path_exists_checks_every_step() {
    let graph = PoolGraph::new(&ring_with_chords());
    assert!(graph.verify_path_exists(&path(&[4, 1, 3, 4])));
    // An open path is closed by a step from its end to its start.
    assert!(graph.verify_path_exists(&path(&[4, 1, 3])));
    // No pool joins tokens 0 and 3.
    assert!(!graph.verify_path_exists(&path(&[4, 5, 0, 3, 4])));
    // No pool joins tokens 2 and 4 to close the path.
    assert!(!graph.verify_path_exists(&path(&[4, 1, 2])));
    assert!(graph.verify_path_exists(&path(&[4])));
    assert!(!graph.verify_path_exists(&[]));
}

#[test]
fn convert_cycle_to_pools_lists_the_pool_of_each_step() {
    let pools = ring_with_chords();
    let graph = PoolGraph::new(&pools);
    let closed = graph.convert_cycle_to_pools(&path(&[4, 1, 3, 4]));
    assert_eq!(closed, Some(vec![pools[9], pools[7], pools[3]]));
    let open = graph.convert_cycle_to_pools(&path(&[4, 1, 3]));
    assert_eq!(open, Some(vec![pools[9], pools[7], pools[3]]));
    assert_eq!(graph.convert_cycle_to_pools(&path(&[4, 1, 2])), None);
    assert_eq!(graph.convert_cycle_to_pools(&[]), None);
}

#[test]
fn convert_cycles_to_pool_paths_drops_cycles_without_route() {
    let pools = ring_with_chords();
    let graph = PoolGraph::new(&pools);
    let paths = graph.convert_cycles_to_pool_paths(vec![
        path(&[4, 1, 3, 4]),
        path(&[4, 1, 2]),
        path(&[0, 1, 2, 0]),
    ]);
    assert_eq!(
        paths,
        vec![vec![pools[9], pools[7], pools[3]], vec![pools[0], pools[1], pools[6]]]
    );
}

#[test]
fn every_enumerated_cycle_converts_to_as_many_pools_as_hops() {
    let graph = PoolGraph::new(&ring_with_chords());
    let cycles = graph.detect_cycles(token(3));
    let hops: Vec<usize> = cycles.iter().map(|cycle| cycle.len() - 1).collect();
    let paths = graph.convert_cycles_to_pool_paths(cycles);
    assert_eq!(paths.iter().map(|p| p.len()).collect::<Vec<usize>>(), hops);
}

#[test]
fn build_graph_lists_neighbours_by_pool() {
    let lists = build_graph(&triangle());
    assert_eq!(
        lists,
        vec![
            (token(0), vec![(0, token(1)), (2, token(2))]),
            (token(1), vec![(0, token(0)), (1, token(2))]),
            (token(2), vec![(1, token(1)), (2, token(0))]),
        ]
    );
    assert!(build_graph(&Vec::new()).is_empty());
    let looped = build_graph(&vec![pool(1, 5, 5, 1, 1)]);
    assert_eq!(looped, vec![(token(5), vec![(0, token(5)), (0, token(5))])]);
}

fn four_pools() -> Vec<UniV2Pool> {
    vec![pool(1, 0, 1, 100, 10), pool(2, 0, 1, 90, 15), pool(3, 1, 2, 50, 50), pool(4, 2, 0, 70, 70)]
}

#[test]
fn routes_tell_parallel_pools_apart() {
    let graph = PoolGraph::new(&four_pools());
    let routes = graph.detect_routes(token(0));
    let route = |tokens: &[u128], pools: &[usize]| Route { tokens: path(tokens), pools: pools.to_vec() };
    assert_eq!(
        routes,
        vec![
            route(&[0, 2, 1, 0], &[3, 2, 1]),
            route(&[0, 2, 1, 0], &[3, 2, 0]),
            route(&[0, 1, 2, 0], &[1, 2, 3]),
            route(&[0, 1, 0], &[1, 0]),
            route(&[0, 1, 2, 0], &[0, 2, 3]),
            route(&[0, 1, 0], &[0, 1]),
        ]
    );
}

#[test]
fn routes_and_cycles_agree() {
    let graph = PoolGraph::new(&ring_with_chords());
    for start in 0..6u128 {
        let routes = graph.detect_routes(token(start));
        let cycles = graph.detect_cycles(token(start));
        assert_eq!(routes.iter().map(|r| r.tokens.clone()).collect::<Vec<_>>(), cycles);
        let bounded = graph.detect_routes_bounded(token(start), 4);
        assert_eq!(
            bounded.iter().map(|r| r.tokens.clone()).collect::<Vec<_>>(),
            graph.detect_cycles_bounded(token(start), 4)
        );
    }
    assert!(graph.detect_routes(token(9)).is_empty());
}

#[test]
fn every_route_crosses_pools_that_serve_its_hops_and_none_twice() {
    let pools = ring_with_chords();
    let graph = PoolGraph::new(&pools);
    for route in graph.detect_routes(token(2)) {
        assert_eq!(route.pools.len(), route.tokens.len() - 1);
        for (k, &index) in route.pools.iter().enumerate() {
            assert!(pools[index].connects(route.tokens[k], route.tokens[k + 1]));
            assert!(!route.pools[..k].contains(&index));
        }
        let crossed = graph.route_pools(&route).unwrap();
        assert_eq!(crossed, route.pools.iter().map(|&i| pools[i]).collect::<Vec<_>>());
    }
}

#[test]
fn route_pools_refuses_unknown_pools() {
    let graph = PoolGraph::new(&triangle());
    let route = Route { tokens: path(&[0, 1, 2, 0]), pools: vec![0, 1, 3] };
    assert_eq!(graph.route_pools(&route), None);
    let empty = Route { tokens: Vec::new(), pools: Vec::new() };
    assert_eq!(graph.route_pools(&empty), Some(Vec::new()));
}

#[test]
fn pools_between_lists_every_parallel_pool() {
    let graph = PoolGraph::new(&four_pools());
    assert_eq!(graph.pools_between(token(0), token(1)), vec![0, 1]);
    assert_eq!(graph.pools_between(token(1), token(0)), vec![0, 1]);
    assert_eq!(graph.pools_between(token(2), token(0)), vec![3]);
    assert_eq!(graph.pools_between(token(0), token(0)), Vec::<usize>::new());
}

#[test]
fn build_reports_what_new_would_not_take() {
    let graph = PoolGraph::build(&triangle()).unwrap();
    assert_eq!(graph.node_count(), 3);
    assert_eq!(graph.detect_cycles(token(0)), PoolGraph::new(&triangle()).detect_cycles(token(0)));
    // The refusal takes more pools than fit in memory here.
    assert!(!matches!(PoolGraph::build(&Vec::new()), Err(ArbError::Overflow)));
}

#[test]
fn tokens_are_ordered_by_leading_then_trailing_bits() {
    assert!(Token::new(0, 5) < Token::new(1, 0));
    assert!(Token::new(1, 2) < Token::new(1, 3));
    assert!(Token::new(2, 0) > Token::new(1, u128::MAX));
}

#[test]
fn converting_a_loop_of_two_hops_takes_two_pools() {
    let pools = four_pools();
    let graph = PoolGraph::new(&pools);
    assert_eq!(graph.convert_cycle_to_pools(&path(&[0, 1, 0])), Some(vec![pools[0], pools[1]]));
    assert_eq!(graph.convert_cycle_to_pools(&path(&[1, 0])), Some(vec![pools[0], pools[1]]));
    // Every enumerated cycle converts to pools that are all different.
    for route in graph.detect_routes(token(0)) {
        let list = graph.convert_cycle_to_pools(&route.tokens).unwrap();
        assert_eq!(list.len(), route.pools.len());
        for a in 0..list.len() {
            for b in (a + 1)..list.len() {
                assert_ne!(list[a].address, list[b].address);
            }
        }
    }
}

#[test]
fn converting_refuses_to_use_a_pool_twice() {
    let single = PoolGraph::new(&vec![pool(1, 0, 1, 1000, 1000)]);
    assert_eq!(single.convert_cycle_to_pools(&path(&[0, 1, 0])), None);
    assert_eq!(single.convert_cycle_to_pools(&path(&[0, 1])), None);
    assert!(single.convert_cycles_to_pool_paths(vec![path(&[0, 1, 0])]).is_empty());
    // Back and forth along one side of a triangle.
    let graph = PoolGraph::new(&triangle());
    assert_eq!(graph.convert_cycle_to_pools(&path(&[0, 1, 0, 2, 0])), None);
    // With a second pool on that side the walk gets as far as the step
    // back from token 2, whose only pool is taken.
    let wider = PoolGraph::new(&four_pools());
    assert_eq!(wider.convert_cycle_to_pools(&path(&[0, 1, 0, 2])), None);
}
