use brontes::actions::Protocol;
use brontes::market::{
    local_weighted_price, quote_bundle, PoolPairInfoDirection, PoolPairInformation, SubGraphEdge,
};
use brontes::pool::{PoolStates, PoolUpdate};
use brontes::primitives::{Address, Pair, U256};
use brontes::rational::Rational;
use brontes::subgraph::{mentions, PairSubGraph};

fn token(n: u64) -> Address {
    Address::from_u64(n)
}

fn pool(n: u64) -> Address {
    Address::from_u64(1000 + n)
}

fn edge(pool_no: u64, token_0: u64, token_1: u64, token_0_in: bool, before: usize, after: usize) -> SubGraphEdge {
    SubGraphEdge::new(
        PoolPairInfoDirection {
            info: PoolPairInformation {
                pool_addr: pool(pool_no),
                dex_type: Protocol::UniswapV2,
                token_0: token(token_0),
                token_1: token(token_1),
            },
            token_0_in,
        },
        before,
        after,
    )
}

fn reserves(states: &mut PoolStates, pool_no: u64, token_0: u64, token_1: u64, reserve_0: u64, reserve_1: u64, decimals: u8) {
    states.update(
        &PoolUpdate {
            block: 1,
            tx_idx: 0,
            protocol: Protocol::UniswapV2,
            pool: pool(pool_no),
            token_0: token(token_0),
            token_1: token(token_1),
            reserve_0: U256::from_u64(reserve_0),
            reserve_1: U256::from_u64(reserve_1),
        },
        decimals,
        decimals,
    );
}

#[test]
fn pricing_triangle_takes_the_deep_route() {
    // A = 1, B = 2, C = 3; TVLs 100, 10 and 1, every price 1.
    let routes = vec![
        vec![edge(1, 1, 2, true, 0, 1), edge(2, 2, 3, true, 1, 0)],
        vec![edge(3, 1, 3, true, 0, 0)],
    ];
    let graph = PairSubGraph::init(Pair(token(1), token(3)), routes);
    let mut states = PoolStates::new();
    reserves(&mut states, 1, 1, 2, 500, 500, 1);
    reserves(&mut states, 2, 2, 3, 50, 50, 1);
    reserves(&mut states, 3, 1, 3, 5, 5, 1);
    assert!(graph.is_priced_by(&states));
    let price = graph.fetch_price(&states).unwrap();
    assert!(price.equals(&Rational::one()));
}

#[test]
fn pricing_triangle_prices_along_the_cheapest_route() {
    // The two-hop route is deep and gives 2 * 3 = 6; the direct pool is
    // shallow and would give 5.
    let routes = vec![
        vec![edge(1, 1, 2, true, 0, 1), edge(2, 2, 3, true, 1, 0)],
        vec![edge(3, 1, 3, true, 0, 0)],
    ];
    let graph = PairSubGraph::init(Pair(token(1), token(3)), routes);
    let mut states = PoolStates::new();
    reserves(&mut states, 1, 1, 2, 1000, 2000, 0);
    reserves(&mut states, 2, 2, 3, 1000, 3000, 0);
    reserves(&mut states, 3, 1, 3, 1, 5, 0);
    let price = graph.fetch_price(&states).unwrap();
    assert!(price.equals(&Rational::from_u64(6)));
}

#[test]
fn parallel_pools_bundle_gives_the_weighted_mean() {
    // Two A-B pools: TVL 100 at price 1, TVL 300 at price 1.04.
    let bundle = vec![edge(1, 1, 2, true, 0, 0), edge(2, 1, 2, true, 0, 0)];
    let mut states = PoolStates::new();
    reserves(&mut states, 1, 1, 2, 50, 50, 0);
    reserves(&mut states, 2, 1, 2, 150, 156, 0);
    let mean = local_weighted_price(&bundle, &states).unwrap();
    assert!(mean.equals(&Rational::from_ratio(103, 100).unwrap()));

    let graph = PairSubGraph::init(Pair(token(1), token(2)), vec![bundle]);
    let price = graph.fetch_price(&states).unwrap();
    assert!(price.equals(&Rational::from_ratio(103, 100).unwrap()));
    assert!(!price.equals(&Rational::from_ratio(104, 100).unwrap()));
}

#[test]
fn bundle_quote_is_factor_and_cost() {
    // One pool with reserves 4 and 8: price 2, both sides worth 4.
    let bundle = vec![edge(1, 1, 2, true, 0, 0)];
    let mut states = PoolStates::new();
    reserves(&mut states, 1, 1, 2, 4, 8, 0);
    let (factor, cost) = quote_bundle(&bundle, &states).unwrap();
    assert!(factor.equals(&Rational::from_ratio(1, 2).unwrap()));
    // tvl = 4 * 2 + 4 * (2 / 2) = 12
    assert!(cost.equals(&Rational::from_ratio(1, 12).unwrap()));
}

#[test]
fn price_of_the_flipped_pair_is_the_reciprocal() {
    let forward = vec![vec![edge(1, 1, 2, true, 0, 0), edge(2, 1, 2, true, 0, 0)]];
    let backward = vec![vec![edge(1, 1, 2, false, 0, 0), edge(2, 1, 2, false, 0, 0)]];
    let mut states = PoolStates::new();
    reserves(&mut states, 1, 1, 2, 50, 70, 0);
    reserves(&mut states, 2, 1, 2, 150, 156, 0);
    let there = PairSubGraph::init(Pair(token(1), token(2)), forward);
    let back = PairSubGraph::init(Pair(token(2), token(1)), backward);
    let p = there.fetch_price(&states).unwrap();
    let q = back.fetch_price(&states).unwrap();
    assert!(p.times(&q).equals(&Rational::one()));
}

#[test]
fn no_price_without_liquidity_or_route() {
    let routes = vec![vec![edge(1, 1, 2, true, 0, 0)]];
    let graph = PairSubGraph::init(Pair(token(1), token(2)), routes);
    let mut states = PoolStates::new();
    reserves(&mut states, 1, 1, 2, 0, 8, 0);
    assert!(graph.fetch_price(&states).is_none());

    // The only pool leads from 2 to 1, not from 1 to 2.
    let wrong_way = vec![vec![edge(1, 1, 2, false, 0, 0)]];
    let graph = PairSubGraph::init(Pair(token(1), token(2)), wrong_way);
    let mut states = PoolStates::new();
    reserves(&mut states, 1, 1, 2, 4, 8, 0);
    assert!(graph.fetch_price(&states).is_none());
}

#[test]
fn subgraph_needs_both_tokens_of_the_pair() {
    let routes = vec![vec![edge(1, 1, 2, true, 0, 0)], vec![], vec![edge(2, 4, 5, false, 0, 0)]];
    assert!(mentions(&routes, token(1)));
    assert!(mentions(&routes, token(2)));
    assert!(mentions(&routes, token(5)));
    assert!(!mentions(&routes, token(3)));
    assert!(!mentions(&vec![], token(1)));
}

#[test]
fn a_pool_without_liquidity_leaves_the_bundle_as_it_is() {
    // The same bundle with a drained pool at its end, in its middle and at its start.
    let mut states = PoolStates::new();
    reserves(&mut states, 1, 1, 2, 50, 50, 0);
    reserves(&mut states, 2, 1, 2, 150, 156, 0);
    reserves(&mut states, 3, 1, 2, 0, 0, 0);
    reserves(&mut states, 4, 1, 2, 7, 0, 0);
    let live = vec![edge(1, 1, 2, true, 0, 0), edge(2, 1, 2, true, 0, 0)];
    let (factor, cost) = quote_bundle(&live, &states).unwrap();
    let bundles = vec![
        vec![edge(1, 1, 2, true, 0, 0), edge(2, 1, 2, true, 0, 0), edge(3, 1, 2, true, 0, 0)],
        vec![edge(1, 1, 2, true, 0, 0), edge(4, 1, 2, true, 0, 0), edge(2, 1, 2, true, 0, 0)],
        vec![edge(3, 1, 2, true, 0, 0), edge(1, 1, 2, true, 0, 0), edge(2, 1, 2, true, 0, 0), edge(4, 1, 2, true, 0, 0)],
    ];
    for bundle in bundles {
        let (f, c) = quote_bundle(&bundle, &states).unwrap();
        assert!(f.equals(&factor));
        assert!(c.equals(&cost));
        let graph = PairSubGraph::init(Pair(token(1), token(2)), vec![bundle]);
        assert!(graph.fetch_price(&states).unwrap().equals(&Rational::from_ratio(103, 100).unwrap()));
    }
    // One live pool and one without reserves: the price of the live pool.
    let graph = PairSubGraph::init(
        Pair(token(1), token(2)),
        vec![vec![edge(1, 1, 2, true, 0, 0), edge(3, 1, 2, true, 0, 0)]],
    );
    assert!(graph.fetch_price(&states).unwrap().equals(&Rational::one()));
    // A bundle of pools without liquidity cannot be crossed.
    assert!(quote_bundle(&vec![edge(3, 1, 2, true, 0, 0), edge(4, 1, 2, true, 0, 0)], &states).is_none());
}

#[test]
fn a_chain_of_bundles_gives_the_product_of_their_prices() {
    // 1 -> 2 at price 2, 2 -> 3 at price 3 (with a drained pool beside it), 3 -> 4 at price 1/2.
    let routes = vec![vec![
        edge(1, 1, 2, true, 0, 2),
        edge(2, 2, 3, true, 1, 1),
        edge(3, 2, 3, true, 1, 1),
        edge(4, 4, 3, false, 2, 0),
    ]];
    let mut states = PoolStates::new();
    reserves(&mut states, 1, 1, 2, 10, 20, 0);
    reserves(&mut states, 2, 2, 3, 10, 30, 0);
    reserves(&mut states, 3, 2, 3, 0, 0, 0);
    reserves(&mut states, 4, 4, 3, 5, 10, 0);
    let graph = PairSubGraph::init(Pair(token(1), token(4)), routes);
    assert!(graph.fetch_price(&states).unwrap().equals(&Rational::from_u64(3)));
}

#[test]
fn pools_seven_times_as_deep_give_the_same_price() {
    // The triangle with a shallow direct pool and a deep route over a third token.
    let routes = || {
        vec![
            vec![edge(1, 1, 2, true, 0, 0)],
            vec![edge(2, 1, 3, true, 0, 1), edge(3, 3, 2, true, 1, 0)],
        ]
    };
    let mut states = PoolStates::new();
    reserves(&mut states, 1, 1, 2, 1, 3, 0);
    reserves(&mut states, 2, 1, 3, 1000, 2000, 0);
    reserves(&mut states, 3, 3, 2, 2000, 1000, 0);
    let mut deep = PoolStates::new();
    reserves(&mut deep, 1, 1, 2, 7, 21, 0);
    reserves(&mut deep, 2, 1, 3, 7000, 14000, 0);
    reserves(&mut deep, 3, 3, 2, 14000, 7000, 0);
    let graph = PairSubGraph::init(Pair(token(1), token(2)), routes());
    let before = graph.fetch_price(&states).unwrap();
    let after = graph.fetch_price(&deep).unwrap();
    assert!(before.equals(&Rational::from_u64(1)));
    assert!(after.equals(&before));
}

#[test]
fn a_drained_pool_on_a_side_road_leaves_the_price() {
    // 1 -> 2 at price 2, and beside it a drained pool from 1 to a token that nothing else holds.
    let mut states = PoolStates::new();
    reserves(&mut states, 1, 1, 2, 10, 20, 0);
    reserves(&mut states, 2, 1, 5, 0, 0, 0);
    reserves(&mut states, 3, 2, 1, 0, 7, 0);
    let plain = PairSubGraph::init(Pair(token(1), token(2)), vec![vec![edge(1, 1, 2, true, 0, 0)]]);
    let more = PairSubGraph::init(
        Pair(token(1), token(2)),
        vec![
            vec![edge(1, 1, 2, true, 0, 0)],
            vec![edge(2, 1, 5, true, 0, 1)],
            vec![edge(3, 2, 1, true, 0, 0)],
        ],
    );
    let before = plain.fetch_price(&states).unwrap();
    let after = more.fetch_price(&states).unwrap();
    assert!(before.equals(&Rational::from_u64(2)));
    assert!(after.equals(&before));
}
