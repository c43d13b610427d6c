use brontes::actions::Protocol;
use brontes::market::PoolPairInformation;
use brontes::pool::{PoolStates, PoolUpdate};
use brontes::primitives::{Address, Pair, U256};
use brontes::rational::Rational;
use brontes::shortest::{pair_routes, route_edges, route_weight, routes_of_length, shortest_routes, take_lightest, K_SHORTEST};
use brontes::subgraph::PairSubGraph;

fn token(n: u64) -> Address {
    Address::from_u64(n)
}

fn pool(n: u64, token_0: u64, token_1: u64) -> PoolPairInformation {
    PoolPairInformation {
        pool_addr: Address::from_u64(1000 + n),
        dex_type: Protocol::UniswapV2,
        token_0: token(token_0),
        token_1: token(token_1),
    }
}

fn states(reserves: &[(u64, u64, u64, u64, u64)]) -> PoolStates {
    let mut states = PoolStates::new();
    for &(n, token_0, token_1, reserve_0, reserve_1) in reserves {
        states.update(
            &PoolUpdate {
                block: 1,
                tx_idx: 0,
                protocol: Protocol::UniswapV2,
                pool: Address::from_u64(1000 + n),
                token_0: token(token_0),
                token_1: token(token_1),
                reserve_0: U256::from_u64(reserve_0),
                reserve_1: U256::from_u64(reserve_1),
            },
            0,
            0,
        );
    }
    states
}

/// Pools: 0: 1-2, 1: 2-3, 2: 1-3, 3: 3-1 (a second pool between 1 and 3), 4: 2-4, 5: 4-3.
fn universe() -> Vec<PoolPairInformation> {
    vec![pool(0, 1, 2), pool(1, 2, 3), pool(2, 1, 3), pool(3, 3, 1), pool(4, 2, 4), pool(5, 4, 3)]
}

#[test]
fn routes_of_a_length_are_all_simple_paths_of_that_length() {
    let pools = universe();
    let pair = Pair(token(1), token(3));
    assert_eq!(routes_of_length(&pools, pair, 1), vec![vec![(2, true)], vec![(3, false)]]);
    assert_eq!(routes_of_length(&pools, pair, 2), vec![vec![(0, true), (1, true)]]);
    assert_eq!(routes_of_length(&pools, pair, 3), vec![vec![(0, true), (4, true), (5, true)]]);
    assert!(routes_of_length(&pools, pair, 4).is_empty());
    // No route leads from a token to itself, and none to a token that no pool holds.
    assert!(routes_of_length(&pools, Pair(token(1), token(1)), 2).is_empty());
    assert!(routes_of_length(&pools, Pair(token(1), token(9)), 1).is_empty());
}

#[test]
fn shortest_routes_come_by_hops_and_then_by_depth() {
    let pools = universe();
    let pair = Pair(token(1), token(3));
    // Pool 3 is deeper than pool 2, so it comes first among the one-hop routes.
    let states = states(&[
        (0, 1, 2, 10, 10),
        (1, 2, 3, 10, 10),
        (2, 1, 3, 5, 5),
        (3, 3, 1, 50, 50),
        (4, 2, 4, 10, 10),
        (5, 4, 3, 10, 10),
    ]);
    let all = shortest_routes(&pools, pair, K_SHORTEST, 4, &states);
    assert_eq!(
        all,
        vec![
            vec![(3, false)],
            vec![(2, true)],
            vec![(0, true), (1, true)],
            vec![(0, true), (4, true), (5, true)],
        ]
    );
    assert_eq!(shortest_routes(&pools, pair, 1, 4, &states), vec![vec![(3, false)]]);
    assert_eq!(shortest_routes(&pools, pair, 3, 4, &states).len(), 3);
    assert_eq!(shortest_routes(&pools, pair, 5, 1, &states).len(), 2);
    assert!(shortest_routes(&pools, pair, 0, 4, &states).is_empty());
    assert!(shortest_routes(&pools, pair, 5, 0, &states).is_empty());
}

#[test]
fn a_pool_without_liquidity_weighs_more_than_any_other() {
    let pools = universe();
    let pair = Pair(token(1), token(3));
    // Pool 3 has no state at all, pool 2 has an empty side.
    let some = states(&[(2, 1, 3, 5, 0), (0, 1, 2, 10, 10), (1, 2, 3, 10, 10)]);
    assert!(route_weight(&pools, &vec![(3, false)], &some).is_none());
    assert!(route_weight(&pools, &vec![(2, true)], &some).is_none());
    // 1 / (10 + 10) + 1 / (10 + 10)
    let weight = route_weight(&pools, &vec![(0, true), (1, true)], &some).unwrap();
    assert!(weight.equals(&Rational::from_ratio(1, 10).unwrap()));
    assert!(route_weight(&pools, &vec![], &some).unwrap().is_zero());
    // Among equal weights the route that was found first comes first.
    assert_eq!(shortest_routes(&pools, pair, 2, 1, &some), vec![vec![(2, true)], vec![(3, false)]]);
}

#[test]
fn lightest_weights_are_taken_in_order() {
    let ratio = |n: u64, d: u64| Some(Rational::from_ratio(n, d).unwrap());
    let weights = vec![ratio(1, 2), None, ratio(1, 3), ratio(2, 4), ratio(1, 5)];
    assert_eq!(take_lightest(&weights, 3), vec![4, 2, 0]);
    assert_eq!(take_lightest(&weights, 9), vec![4, 2, 0, 3, 1]);
    assert!(take_lightest(&weights, 0).is_empty());
    assert!(take_lightest(&vec![], 3).is_empty());
}

#[test]
fn routes_become_the_edges_of_a_subgraph() {
    let pools = universe();
    let pair = Pair(token(1), token(3));
    let states = states(&[
        (0, 1, 2, 1000, 2000),
        (1, 2, 3, 1000, 3000),
        (2, 1, 3, 1, 5),
        (3, 3, 1, 5, 1),
        (4, 2, 4, 10, 10),
        (5, 4, 3, 10, 10),
    ]);
    let edges = route_edges(&pools, &vec![(0, true), (4, true), (5, true)]);
    assert_eq!(edges.len(), 3);
    assert_eq!((edges[0].distance_to_start_node, edges[0].distance_to_end_node), (0, 2));
    assert_eq!((edges[2].distance_to_start_node, edges[2].distance_to_end_node), (2, 0));
    assert_eq!(edges[1].info.info, pools[4]);
    assert!(edges[1].info.token_0_in);

    let (routes, edges) = pair_routes(&pools, pair, 3, 4, &states);
    assert_eq!(routes.len(), 3);
    assert_eq!(edges.len(), 3);
    let graph = PairSubGraph::init(pair, edges);
    assert!(graph.is_priced_by(&states));
    // The two direct pools make one bundle of price 5; the deep route over
    // token 2 gives 2 * 3 and is the cheapest.
    assert!(graph.fetch_price(&states).unwrap().equals(&Rational::from_u64(6)));
}
