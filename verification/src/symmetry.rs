//! Price symmetry: crossing a bundle one way and back gives price one, and
//! so does following a route and then its mirror image.

use vstd::prelude::*;
use crate::primitives::Address;
use crate::pool::PoolStateView;
use crate::route::{Market, first_edges, lemma_chain_price};
use crate::market::{
    SubGraphEdge, PoolPairInfoDirection, edge_price, edge_weight, lemma_edge_not_negative,
    lemma_sums_not_negative, local_price, sum_priced, sum_weight,
};

verus! {

/// A pool of a bundle crossed the other way: what was before it on the
/// route is now behind it.
pub open spec fn flipped_edge(e: SubGraphEdge) -> SubGraphEdge {
    SubGraphEdge {
        info: PoolPairInfoDirection { info: e.info.info, token_0_in: !e.info.token_0_in },
        distance_to_start_node: e.distance_to_end_node,
        distance_to_end_node: e.distance_to_start_node,
    }
}

/// A bundle crossed the other way.
pub open spec fn flipped(bundle: Seq<SubGraphEdge>) -> Seq<SubGraphEdge> {
    bundle.map_values(|e: SubGraphEdge| flipped_edge(e))
}

/// Whether the state of a pool is about the two tokens that the bundle
/// says the pool has, which are two different tokens.
pub open spec fn matched(e: SubGraphEdge, states: Map<Address, PoolStateView>) -> bool {
    let s = states[e.pool()];
    &&& e.info.info.token_0 != e.info.info.token_1
    &&& (s.token_0 == e.info.info.token_0 && s.token_1 == e.info.info.token_1) || (s.token_0
        == e.info.info.token_1 && s.token_1 == e.info.info.token_0)
}

/// Whether every pool of a bundle is matched by its state.
pub open spec fn bundle_matched(bundle: Seq<SubGraphEdge>, states: Map<Address, PoolStateView>) -> bool {
    forall|i: int| 0 <= i < bundle.len() ==> matched(#[trigger] bundle[i], states)
}

/// For a matched pool, price times liquidity one way is the liquidity the
/// other way; and a pool with liquidity has a price.
pub proof fn lemma_edge_mirror(e: SubGraphEdge, states: Map<Address, PoolStateView>)
    requires
        matched(e, states),
    ensures
        edge_price(e, states) * edge_weight(e, states) == edge_weight(flipped_edge(e), states),
        edge_price(flipped_edge(e), states) * edge_weight(flipped_edge(e), states) == edge_weight(
            e,
            states,
        ),
        edge_weight(e, states) > 0real ==> edge_weight(flipped_edge(e), states) > 0real,
{
    let s = states[e.pool()];
    let u = e.info.base();
    let v = e.info.quote();
    let f = flipped_edge(e);
    assert(f.info.base() == v);
    assert(f.pool() == e.pool());
    let a = s.base_reserve(u);
    let b = s.other_reserve(u);
    assert(s.base_reserve(v) == b);
    assert(s.other_reserve(v) == a);
    if s.live(u) {
        assert(s.live(v));
        assert((b / a) * (a + a) == b + b) by (nonlinear_arith)
            requires
                a > 0real,
        ;
        assert((a / b) * (b + b) == a + a) by (nonlinear_arith)
            requires
                b > 0real,
        ;
    } else {
        assert(!s.live(v));
    }
}

/// For a matched bundle, the sum of price times liquidity one way is the
/// sum of liquidity the other way.
pub proof fn lemma_bundle_mirror(bundle: Seq<SubGraphEdge>, states: Map<Address, PoolStateView>)
    requires
        bundle_matched(bundle, states),
    ensures
        sum_priced(bundle, states) == sum_weight(flipped(bundle), states),
        sum_priced(flipped(bundle), states) == sum_weight(bundle, states),
        sum_weight(bundle, states) > 0real ==> sum_weight(flipped(bundle), states) > 0real,
    decreases bundle.len(),
{
    if bundle.len() > 0 {
        let rest = bundle.drop_last();
        assert forall|i: int| 0 <= i < rest.len() implies matched(#[trigger] rest[i], states) by {
            assert(rest[i] == bundle[i]);
        }
        lemma_bundle_mirror(rest, states);
        assert(matched(bundle[bundle.len() - 1], states));
        lemma_edge_mirror(bundle.last(), states);
        assert(flipped(bundle).drop_last() =~= flipped(rest));
        assert(flipped(bundle).last() == flipped_edge(bundle.last()));
        lemma_sums_not_negative(rest, states);
        lemma_sums_not_negative(flipped(rest), states);
        lemma_edge_not_negative(bundle.last(), states);
        lemma_edge_not_negative(flipped_edge(bundle.last()), states);
    }
}

/// Price symmetry of a bundle: the price of a matched bundle with
/// liquidity, times the price of the same bundle crossed the other way, is
/// one.
pub proof fn lemma_bundle_symmetry(bundle: Seq<SubGraphEdge>, states: Map<Address, PoolStateView>)
    requires
        bundle_matched(bundle, states),
        sum_weight(bundle, states) != 0real,
    ensures
        local_price(bundle, states) * local_price(flipped(bundle), states) == 1real,
{
    lemma_bundle_mirror(bundle, states);
    lemma_sums_not_negative(bundle, states);
    let w = sum_weight(bundle, states);
    let x = sum_priced(bundle, states);
    assert((x / w) * (w / x) == 1real) by (nonlinear_arith)
        requires
            w > 0real,
            x > 0real,
    ;
}

/// The product of the prices of a sequence of bundles.
pub open spec fn price_along(bundles: Seq<Seq<SubGraphEdge>>, states: Map<Address, PoolStateView>) -> real
    decreases bundles.len(),
{
    if bundles.len() == 0 {
        1real
    } else {
        price_along(bundles.drop_last(), states) * local_price(bundles.last(), states)
    }
}

/// The mirror image of a sequence of bundles: the same bundles from the
/// last to the first, each crossed the other way.
pub open spec fn mirrored(bundles: Seq<Seq<SubGraphEdge>>) -> Seq<Seq<SubGraphEdge>> {
    Seq::new(bundles.len(), |i: int| flipped(bundles[bundles.len() - 1 - i]))
}

/// The product of the prices of a sequence of bundles with one more bundle
/// put in front.
proof fn lemma_price_along_front(
    first: Seq<SubGraphEdge>,
    rest: Seq<Seq<SubGraphEdge>>,
    states: Map<Address, PoolStateView>,
)
    ensures
        price_along(seq![first] + rest, states) == local_price(first, states) * price_along(
            rest,
            states,
        ),
    decreases rest.len(),
{
    let all = seq![first] + rest;
    if rest.len() == 0 {
        assert(all.drop_last() =~= Seq::<Seq<SubGraphEdge>>::empty());
        assert(all.last() == first);
        assert(price_along(all.drop_last(), states) == 1real);
    } else {
        assert(all.drop_last() =~= seq![first] + rest.drop_last());
        assert(all.last() == rest.last());
        lemma_price_along_front(first, rest.drop_last(), states);
        let a = local_price(first, states);
        let b = price_along(rest.drop_last(), states);
        let c = local_price(rest.last(), states);
        assert((a * b) * c == a * (b * c)) by (nonlinear_arith);
    }
}

/// Price symmetry of a route: the price along matched bundles with
/// liquidity, times the price along their mirror image, is one.
pub proof fn lemma_price_symmetry(bundles: Seq<Seq<SubGraphEdge>>, states: Map<Address, PoolStateView>)
    requires
        forall|i: int|
            0 <= i < bundles.len() ==> bundle_matched(#[trigger] bundles[i], states) && sum_weight(
                bundles[i],
                states,
            ) != 0real,
    ensures
        price_along(bundles, states) * price_along(mirrored(bundles), states) == 1real,
    decreases bundles.len(),
{
    if bundles.len() == 0 {
        assert(mirrored(bundles) =~= Seq::<Seq<SubGraphEdge>>::empty());
    } else {
        let rest = bundles.drop_last();
        let last = bundles.last();
        assert forall|i: int| 0 <= i < rest.len() implies bundle_matched(
            #[trigger] rest[i],
            states,
        ) && sum_weight(rest[i], states) != 0real by {
            assert(rest[i] == bundles[i]);
        }
        lemma_price_symmetry(rest, states);
        assert(mirrored(bundles) =~= seq![flipped(last)] + mirrored(rest));
        lemma_price_along_front(flipped(last), mirrored(rest), states);
        assert(bundle_matched(bundles[bundles.len() - 1], states));
        lemma_bundle_symmetry(last, states);
        let a = price_along(rest, states);
        let b = local_price(last, states);
        let c = local_price(flipped(last), states);
        let d = price_along(mirrored(rest), states);
        assert((a * b) * (c * d) == 1real) by (nonlinear_arith)
            requires
                a * d == 1real,
                b * c == 1real,
        ;
    }
}

/// The bundles that a walk crosses, in order.
pub open spec fn bundles_along(m: Market, walk: Seq<int>) -> Seq<Seq<SubGraphEdge>> {
    Seq::new(walk.len(), |i: int| m.bundle(walk[i]))
}

/// The price that a walk gives is the product of the prices of the bundles
/// that it crosses.
pub proof fn lemma_route_price_along(m: Market, walk: Seq<int>)
    ensures
        m.route_price(walk) == price_along(bundles_along(m, walk), m.states),
    decreases walk.len(),
{
    if walk.len() > 0 {
        lemma_route_price_along(m, walk.drop_last());
        assert(bundles_along(m, walk).drop_last() =~= bundles_along(m, walk.drop_last()));
        assert(bundles_along(m, walk).last() == m.bundle(walk.last()));
    } else {
        assert(bundles_along(m, walk) =~= Seq::<Seq<SubGraphEdge>>::empty());
    }
}

/// Price symmetry: where the route that prices a pair and the route that
/// prices the flipped pair are mirror images of each other, over matched
/// bundles with liquidity and the same pool states, the two prices
/// multiply to one.
pub proof fn lemma_route_symmetry(m: Market, walk: Seq<int>, back: Market, walk_back: Seq<int>)
    requires
        m.states == back.states,
        bundles_along(back, walk_back) == mirrored(bundles_along(m, walk)),
        forall|i: int|
            0 <= i < walk.len() ==> bundle_matched(#[trigger] m.bundle(walk[i]), m.states)
                && sum_weight(m.bundle(walk[i]), m.states) != 0real,
    ensures
        m.route_price(walk) * back.route_price(walk_back) == 1real,
{
    lemma_route_price_along(m, walk);
    lemma_route_price_along(back, walk_back);
    let bundles = bundles_along(m, walk);
    assert forall|i: int| 0 <= i < bundles.len() implies bundle_matched(
        #[trigger] bundles[i],
        m.states,
    ) && sum_weight(bundles[i], m.states) != 0real by {
        assert(bundles[i] == m.bundle(walk[i]));
    }
    lemma_price_symmetry(bundles, m.states);
}

/// Price symmetry on a chain: where the market of a pair is one chain of
/// matched bundles and the market of the flipped pair is the same chain the
/// other way round, over the same pool states, the price of the pair times
/// the price of the flipped pair is one.
pub proof fn lemma_chain_symmetry(
    m: Market,
    nodes: Seq<int>,
    back: Market,
    back_nodes: Seq<int>,
    there: Option<real>,
    here: Option<real>,
)
    requires
        m.is_chain_over(nodes),
        back.is_chain_over(back_nodes),
        back.states == m.states,
        back.edges.len() == m.edges.len(),
        forall|i: int|
            0 <= i < m.edges.len() ==> #[trigger] back.bundle(i) == flipped(
                m.bundle(m.edges.len() - 1 - i),
            ),
        forall|i: int| 0 <= i < m.edges.len() ==> bundle_matched(#[trigger] m.bundle(i), m.states),
        m.priced(nodes[0], nodes.last(), there),
        back.priced(back_nodes[0], back_nodes.last(), here),
    ensures
        there is Some,
        here is Some,
        there->0 * here->0 == 1real,
{
    let k = m.edges.len() as int;
    lemma_chain_price(m, nodes, there);
    lemma_chain_price(back, back_nodes, here);
    let walk = first_edges(k);
    assert(bundles_along(back, walk) =~= mirrored(bundles_along(m, walk))) by {
        assert forall|i: int| 0 <= i < k implies bundles_along(back, walk)[i] == mirrored(
            bundles_along(m, walk),
        )[i] by {
            assert(back.bundle(i) == flipped(m.bundle(k - 1 - i)));
        }
    }
    assert forall|i: int| 0 <= i < walk.len() implies bundle_matched(
        #[trigger] m.bundle(walk[i]),
        m.states,
    ) && sum_weight(m.bundle(walk[i]), m.states) != 0real by {
        assert(m.crossable(i));
        assert(bundle_matched(m.bundle(i), m.states));
    }
    lemma_route_symmetry(m, walk, back, walk);
}

} // verus!
