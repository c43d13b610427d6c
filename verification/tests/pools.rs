use brontes::actions::Protocol;
use brontes::market::{PoolPairInfoDirection, PoolPairInformation, SubGraphEdge};
use brontes::metadata::{Metadata, PoolInfo};
use brontes::pool::{power_of_ten, scale, PoolState, PoolStates, PoolUpdate};
use brontes::primitives::{Address, Pair, U256};
use brontes::rational::Rational;
use brontes::subgraph::PairSubGraph;

fn token(n: u64) -> Address {
    Address::from_u64(n)
}

fn pool(n: u64) -> Address {
    Address::from_u64(1000 + n)
}

fn update(pool_no: u64, block: u64, reserve_0: u64, reserve_1: u64) -> PoolUpdate {
    PoolUpdate {
        block,
        tx_idx: 0,
        protocol: Protocol::UniswapV2,
        pool: pool(pool_no),
        token_0: token(1),
        token_1: token(2),
        reserve_0: U256::from_u64(reserve_0),
        reserve_1: U256::from_u64(reserve_1),
    }
}

fn direction(pool_no: u64, token_0: u64, token_1: u64, token_0_in: bool) -> PoolPairInfoDirection {
    PoolPairInfoDirection {
        info: PoolPairInformation {
            pool_addr: pool(pool_no),
            dex_type: Protocol::UniswapV2,
            token_0: token(token_0),
            token_1: token(token_1),
        },
        token_0_in,
    }
}

fn ratio(n: u64, d: u64) -> Rational {
    Rational::from_ratio(n, d).unwrap()
}

#[test]
fn reserves_are_scaled_by_decimals() {
    assert!(power_of_ten(0).equals(&Rational::one()));
    assert!(power_of_ten(3).equals(&Rational::from_u64(1000)));
    assert!(scale(&U256::from_u64(1500), 3).equals(&ratio(3, 2)));
    assert!(scale(&U256::from_u64(5), 1).equals(&ratio(1, 2)));
    assert!(scale(&U256::zero(), 18).is_zero());
}

#[test]
fn price_and_tvl_are_read_off_the_reserves() {
    // 4.0 of token 1 and 80.0 of token 2.
    let state = PoolState::from_update(&update(1, 5, 4000, 80), 3, 0);
    assert!(state.get_price(token(1)).equals(&Rational::from_u64(20)));
    assert!(state.get_price(token(2)).equals(&ratio(1, 20)));
    let (t0, t1) = state.get_tvl(token(1));
    assert!(t0.equals(&Rational::from_u64(4)) && t1.equals(&Rational::from_u64(4)));
    let (t0, t1) = state.get_tvl(token(2));
    assert!(t0.equals(&Rational::from_u64(80)) && t1.equals(&Rational::from_u64(80)));
    assert!(state.is_live(token(1)) && state.is_live(token(2)));
    // A token that the pool does not hold has no price and no liquidity.
    assert!(!state.is_live(token(3)));
    assert!(state.get_price(token(3)).is_zero());
    assert!(state.get_tvl(token(3)).0.is_zero());
    // A pool with an empty side prices nothing.
    let drained = PoolState::from_update(&update(1, 5, 4000, 0), 3, 0);
    assert!(!drained.is_live(token(1)));
    assert!(drained.get_price(token(1)).is_zero());
    assert!(drained.get_tvl(token(2)).1.is_zero());
    assert_eq!(state.address(), pool(1));
    assert_eq!(state.tokens(), (token(1), token(2)));
    assert_eq!(state.protocol(), Protocol::UniswapV2);
    assert_eq!(state.last_updated_block(), 5);
}

#[test]
fn pool_states_move_forward_in_block_order() {
    let mut states = PoolStates::new();
    assert!(!states.contains(pool(1)));
    assert!(states.get(pool(1)).is_none());
    states.update(&update(1, 5, 10, 20), 0, 0);
    states.update(&update(2, 5, 1, 1), 0, 0);
    assert!(states.contains(pool(1)) && states.contains(pool(2)));
    assert!(states.get(pool(1)).unwrap().get_price(token(1)).equals(&Rational::from_u64(2)));
    // A later block replaces the state, the same block too.
    states.update(&update(1, 6, 10, 30), 0, 0);
    assert!(states.get(pool(1)).unwrap().get_price(token(1)).equals(&Rational::from_u64(3)));
    states.update(&update(1, 6, 10, 40), 0, 0);
    assert!(states.get(pool(1)).unwrap().get_price(token(1)).equals(&Rational::from_u64(4)));
    // An older block is dropped.
    states.update(&update(1, 4, 10, 50), 0, 0);
    assert!(states.get(pool(1)).unwrap().get_price(token(1)).equals(&Rational::from_u64(4)));
    assert_eq!(states.get(pool(1)).unwrap().last_updated_block(), 6);
    assert!(states.get(pool(2)).unwrap().get_price(token(1)).equals(&Rational::one()));
    let copy = states.get(pool(1)).unwrap().duplicate();
    assert_eq!(copy.address(), pool(1));
}

#[test]
fn metadata_answers_from_its_tables() {
    let mut db = Metadata::new();
    assert_eq!(db.protocol_of(pool(1)), None);
    assert_eq!(db.decimals(token(1)), None);
    db.put_pool(pool(1), PoolInfo { protocol: Protocol::SushiSwapV2, token_0: token(1), token_1: token(2) });
    db.put_decimals(token(1), 6);
    db.put_decimals(token(1), 18);
    db.put_factory(Address::from_u64(5), Protocol::UniswapV2);
    assert_eq!(db.protocol_of(pool(1)), Some(Protocol::SushiSwapV2));
    assert_eq!(db.tokens_of(pool(1)), Some((token(1), token(2))));
    assert_eq!(db.tokens_of(pool(2)), None);
    assert_eq!(db.decimals(token(1)), Some(18));
    assert_eq!(db.factory_protocol(Address::from_u64(5)), Some(Protocol::UniswapV2));
    assert_eq!(db.factory_protocol(Address::from_u64(6)), None);
}

#[test]
fn subgraph_coverage_is_checked_pool_by_pool() {
    let routes = vec![vec![
        SubGraphEdge::new(direction(1, 1, 2, true), 0, 1),
        SubGraphEdge::new(direction(2, 2, 3, true), 1, 0),
    ]];
    let graph = PairSubGraph::init(Pair(token(1), token(3)), routes);
    let mut states = PoolStates::new();
    assert!(!graph.is_priced_by(&states));
    states.update(&update(1, 1, 10, 10), 0, 0);
    assert!(!graph.is_priced_by(&states));
    states.update(&update(2, 1, 10, 10), 0, 0);
    assert!(graph.is_priced_by(&states));
}

#[test]
fn a_new_pool_is_taken_in_only_close_to_the_shortest_route() {
    // Routes 1 -> 3 directly and 1 -> 2 -> 3.
    let routes = vec![
        vec![SubGraphEdge::new(direction(1, 1, 3, true), 0, 0)],
        vec![
            SubGraphEdge::new(direction(2, 1, 2, true), 0, 1),
            SubGraphEdge::new(direction(3, 2, 3, true), 1, 0),
        ],
    ];
    let mut graph = PairSubGraph::init(Pair(token(1), token(3)), routes);
    // A second pool from 1 to 3 lies on a route of one hop.
    assert!(graph.add_new_node(direction(4, 1, 3, true)));
    // A second pool from 2 to 3 lies on a route of two hops: one more than the shortest.
    assert!(graph.add_new_node(direction(5, 3, 2, false)));
    // A pool with a token that is no node is left out.
    assert!(!graph.add_new_node(direction(6, 1, 9, true)));
    // A pool from 3 to 2 leads to no route: nothing arrives at 3 before the end
    // and nothing leaves it.
    assert!(!graph.add_new_node(direction(7, 2, 3, false)));

    // The pools that were taken in are priced with the others.
    let mut states = PoolStates::new();
    let put = |states: &mut PoolStates, n: u64, t0: u64, t1: u64, r0: u64, r1: u64| {
        states.update(
            &PoolUpdate {
                block: 1,
                tx_idx: 0,
                protocol: Protocol::UniswapV2,
                pool: pool(n),
                token_0: token(t0),
                token_1: token(t1),
                reserve_0: U256::from_u64(r0),
                reserve_1: U256::from_u64(r1),
            },
            0,
            0,
        )
    };
    put(&mut states, 1, 1, 3, 100, 100);
    put(&mut states, 2, 1, 2, 1, 1);
    put(&mut states, 3, 2, 3, 1, 1);
    assert!(!graph.is_priced_by(&states));
    put(&mut states, 4, 1, 3, 100, 300);
    put(&mut states, 5, 3, 2, 1, 1);
    assert!(graph.is_priced_by(&states));
    // The direct bundle now holds pools 1 and 4: (100 + 300) / (100 + 100).
    assert!(graph.fetch_price(&states).unwrap().equals(&Rational::from_u64(2)));
}

#[test]
fn a_route_too_long_is_not_taken_in() {
    // The only route has one hop; a pool on a three-hop route is too far.
    let routes = vec![
        vec![SubGraphEdge::new(direction(1, 1, 4, true), 0, 0)],
        vec![
            SubGraphEdge::new(direction(2, 1, 2, true), 0, 2),
            SubGraphEdge::new(direction(3, 2, 3, true), 1, 1),
            SubGraphEdge::new(direction(4, 3, 4, true), 2, 0),
        ],
    ];
    let mut graph = PairSubGraph::init(Pair(token(1), token(4)), routes);
    assert!(!graph.add_new_node(direction(5, 2, 3, true)));
    assert!(graph.add_new_node(direction(6, 1, 4, true)));
}

#[test]
fn price_symmetry_needs_mirrored_routes() {
    // Forward the bundle of pools 1 and 2 is the cheapest route; backward
    // the route over token 3 is, and the two prices do not multiply to one.
    let forward = vec![
        vec![SubGraphEdge::new(direction(1, 1, 2, true), 0, 0), SubGraphEdge::new(direction(2, 1, 2, true), 0, 0)],
        vec![
            SubGraphEdge::new(direction(3, 1, 3, true), 0, 1),
            SubGraphEdge::new(direction(4, 3, 2, true), 1, 0),
        ],
    ];
    let backward = vec![
        vec![SubGraphEdge::new(direction(1, 1, 2, false), 0, 0), SubGraphEdge::new(direction(2, 1, 2, false), 0, 0)],
        vec![
            SubGraphEdge::new(direction(4, 3, 2, false), 0, 1),
            SubGraphEdge::new(direction(3, 1, 3, false), 1, 0),
        ],
    ];
    let mut states = PoolStates::new();
    let mut put = |n: u64, t0: u64, t1: u64, r0: u64, r1: u64| {
        states.update(
            &PoolUpdate {
                block: 1,
                tx_idx: 0,
                protocol: Protocol::UniswapV2,
                pool: pool(n),
                token_0: token(t0),
                token_1: token(t1),
                reserve_0: U256::from_u64(r0),
                reserve_1: U256::from_u64(r1),
            },
            0,
            0,
        )
    };
    put(1, 1, 2, 1, 1);
    put(2, 1, 2, 1, 3);
    put(3, 1, 3, 6, 6);
    put(4, 3, 2, 6, 6);
    let there = PairSubGraph::init(Pair(token(1), token(2)), forward);
    let back = PairSubGraph::init(Pair(token(2), token(1)), backward);
    let p = there.fetch_price(&states).unwrap();
    let q = back.fetch_price(&states).unwrap();
    assert!(p.equals(&Rational::from_u64(2)));
    assert!(q.equals(&Rational::one()));
}
