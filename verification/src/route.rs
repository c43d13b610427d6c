//! Routes through a pair's graph: what they cost and what price they give.

use vstd::prelude::*;
use crate::primitives::Address;
use crate::pool::PoolStateView;
use crate::market::{
    SubGraphEdge, bundle_covered, lemma_usable_positive, step_cost, step_factor, usable,
};

verus! {

/// A graph of bundles with the pool states that price them: the edges as
/// source, target and bundle, the bundles, the states, and the number of
/// nodes.
pub struct Market {
    pub edges: Seq<(usize, usize, usize)>,
    pub bundles: Seq<Seq<SubGraphEdge>>,
    pub states: Map<Address, PoolStateView>,
    pub nodes: nat,
}

impl Market {
    /// Whether edge `k` joins two nodes of the graph and carries a bundle
    /// whose pools all have a state.
    pub open spec fn edge_wf(self, k: int) -> bool {
        &&& self.edges[k].0 < self.nodes
        &&& self.edges[k].1 < self.nodes
        &&& self.edges[k].2 < self.bundles.len()
        &&& bundle_covered(self.bundles[self.edges[k].2 as int], self.states)
    }

    /// Whether every edge is well formed.
    pub open spec fn wf(self) -> bool {
        forall|k: int| 0 <= k < self.edges.len() ==> #[trigger] self.edge_wf(k)
    }

    /// The bundle of edge `k`.
    pub open spec fn bundle(self, k: int) -> Seq<SubGraphEdge> {
        self.bundles[self.edges[k].2 as int]
    }

    /// Whether `k` is an edge whose bundle can be crossed.
    pub open spec fn crossable(self, k: int) -> bool {
        0 <= k < self.edges.len() && usable(self.bundle(k), self.states)
    }

    /// What crossing edge `k` costs.
    pub open spec fn cost(self, k: int) -> real {
        step_cost(self.bundle(k), self.states)
    }

    /// By what crossing edge `k` multiplies the node price.
    pub open spec fn factor(self, k: int) -> real {
        step_factor(self.bundle(k), self.states)
    }

    /// Whether `walk`, a sequence of edges, leads from `from` to `to` over
    /// crossable edges, each starting where the one before it ends.
    pub open spec fn is_route(self, walk: Seq<int>, from: int, to: int) -> bool
        decreases walk.len(),
    {
        if walk.len() == 0 {
            from == to
        } else {
            let k = walk.last();
            &&& self.crossable(k)
            &&& self.edges[k].1 == to
            &&& self.is_route(walk.drop_last(), from, self.edges[k].0 as int)
        }
    }

    /// What a walk costs: the sum of the costs of its edges.
    pub open spec fn route_cost(self, walk: Seq<int>) -> real
        decreases walk.len(),
    {
        if walk.len() == 0 {
            0real
        } else {
            self.route_cost(walk.drop_last()) + self.cost(walk.last())
        }
    }

    /// The node price at the end of a walk that starts with node price one:
    /// the product of the factors of its edges.
    pub open spec fn route_factor(self, walk: Seq<int>) -> real
        decreases walk.len(),
    {
        if walk.len() == 0 {
            1real
        } else {
            self.route_factor(walk.drop_last()) * self.factor(walk.last())
        }
    }

    /// The price that a walk gives: how much of the token at its end one of
    /// the token at its start buys, the product of the prices of its
    /// bundles.
    pub open spec fn route_price(self, walk: Seq<int>) -> real
        decreases walk.len(),
    {
        if walk.len() == 0 {
            1real
        } else {
            self.route_price(walk.drop_last()) * crate::market::local_price(
                self.bundle(walk.last()),
                self.states,
            )
        }
    }

    /// Whether a route from `from` to `to` costs no more than any other.
    pub open spec fn is_cheapest(self, walk: Seq<int>, from: int, to: int) -> bool {
        &&& self.is_route(walk, from, to)
        &&& forall|other: Seq<int>| #[trigger]
            self.is_route(other, from, to) ==> self.route_cost(walk) <= self.route_cost(other)
    }

    /// Whether some route leads from `from` to `to`.
    pub open spec fn connected(self, from: int, to: int) -> bool {
        exists|walk: Seq<int>| #[trigger] self.is_route(walk, from, to)
    }

    /// Whether `price` is what the market says of the pair of nodes: no
    /// price where the two nodes are the same or no route leads from the
    /// first to the second, and otherwise the price that a cheapest route
    /// gives.
    pub open spec fn priced(self, from: int, to: int, price: Option<real>) -> bool {
        &&& price is None <==> from == to || !self.connected(from, to)
        &&& price matches Some(p) ==> exists|walk: Seq<int>|
            #[trigger] self.is_cheapest(walk, from, to) && p == self.route_price(walk)
    }

    /// Whether the market is one chain: edge `i` leads from the `i`-th of
    /// the given nodes to the next, the nodes are all different, and every
    /// edge can be crossed.
    pub open spec fn is_chain_over(self, nodes: Seq<int>) -> bool {
        &&& self.edges.len() >= 1
        &&& nodes.len() == self.edges.len() + 1
        &&& nodes.no_duplicates()
        &&& forall|i: int|
            0 <= i < self.edges.len() ==> #[trigger] self.crossable(i) && self.edges[i].0
                == nodes[i] && self.edges[i].1 == nodes[i + 1]
    }
}

/// The edges `0..j`, in order.
pub open spec fn first_edges(j: int) -> Seq<int> {
    Seq::new(j as nat, |i: int| i)
}

/// In a chain, the first `j` edges are a route from the first node to node
/// `j`.
pub proof fn lemma_chain_route(m: Market, nodes: Seq<int>, j: int)
    requires
        m.is_chain_over(nodes),
        0 <= j <= m.edges.len(),
    ensures
        m.is_route(first_edges(j), nodes[0], nodes[j]),
    decreases j,
{
    if j > 0 {
        lemma_chain_route(m, nodes, j - 1);
        assert(first_edges(j).drop_last() =~= first_edges(j - 1));
        assert(first_edges(j).last() == j - 1);
        assert(m.crossable(j - 1));
    }
}

/// In a chain, the only route from the first node to node `j` is the first
/// `j` edges.
pub proof fn lemma_chain_only_route(m: Market, nodes: Seq<int>, j: int, walk: Seq<int>)
    requires
        m.is_chain_over(nodes),
        0 <= j <= m.edges.len(),
        m.is_route(walk, nodes[0], nodes[j]),
    ensures
        walk == first_edges(j),
    decreases walk.len(),
{
    if walk.len() == 0 {
        assert(nodes[0] == nodes[j]);
        assert(j == 0);
        assert(walk =~= first_edges(0));
    } else {
        let k = walk.last();
        assert(m.crossable(k));
        assert(m.edges[k].1 == nodes[k + 1]);
        assert(nodes[k + 1] == nodes[j]);
        assert(k + 1 == j);
        lemma_chain_only_route(m, nodes, j - 1, walk.drop_last());
        assert(walk =~= walk.drop_last().push(k));
        assert(first_edges(j - 1).push(j - 1) =~= first_edges(j));
    }
}

/// A chain of bundles gives the product of their prices: where the market
/// is one chain of bundles that can be crossed, the price from its first
/// node to its last is the product of the prices of the bundles.
pub proof fn lemma_chain_price(m: Market, nodes: Seq<int>, price: Option<real>)
    requires
        m.is_chain_over(nodes),
        m.priced(nodes[0], nodes.last(), price),
    ensures
        price == Some(m.route_price(first_edges(m.edges.len() as int))),
{
    let k = m.edges.len() as int;
    lemma_chain_route(m, nodes, k);
    assert(nodes[0] != nodes[k]);
    assert(m.connected(nodes[0], nodes[k]));
    let walk = choose|walk: Seq<int>|
        #[trigger] m.is_cheapest(walk, nodes[0], nodes[k]) && price->0 == m.route_price(walk);
    lemma_chain_only_route(m, nodes, k, walk);
}

/// A route extended by a crossable edge that starts at its end is a route
/// to the end of that edge; its cost grows by the cost of the edge and its
/// node price by the factor of the edge.
pub proof fn lemma_route_extend(m: Market, walk: Seq<int>, from: int, k: int)
    requires
        m.crossable(k),
        m.is_route(walk, from, m.edges[k].0 as int),
    ensures
        m.is_route(walk.push(k), from, m.edges[k].1 as int),
        m.route_cost(walk.push(k)) == m.route_cost(walk) + m.cost(k),
        m.route_factor(walk.push(k)) == m.route_factor(walk) * m.factor(k),
        walk.push(k).len() > 0,
{
    assert(walk.push(k).drop_last() =~= walk);
    assert(walk.push(k).last() == k);
}

/// A route costs nothing or more, and leaves a positive node price.
pub proof fn lemma_route_positive(m: Market, walk: Seq<int>, from: int, to: int)
    requires
        m.is_route(walk, from, to),
    ensures
        m.route_cost(walk) >= 0real,
        m.route_factor(walk) > 0real,
        m.route_price(walk) > 0real,
        walk.len() > 0 ==> m.route_cost(walk) > 0real,
    decreases walk.len(),
{
    if walk.len() > 0 {
        let k = walk.last();
        lemma_route_positive(m, walk.drop_last(), from, m.edges[k].0 as int);
        lemma_usable_positive(m.bundle(k), m.states);
        let a = m.route_factor(walk.drop_last());
        let b = m.factor(k);
        assert(a * b > 0real) by (nonlinear_arith)
            requires
                a > 0real,
                b > 0real,
        ;
        let c = m.route_price(walk.drop_last());
        let d = crate::market::local_price(m.bundle(k), m.states);
        assert(c * d > 0real) by (nonlinear_arith)
            requires
                c > 0real,
                d > 0real,
        ;
    }
}

/// The node price at the end of a route is one over the price that the
/// route gives.
pub proof fn lemma_factor_inverts_price(m: Market, walk: Seq<int>, from: int, to: int)
    requires
        m.is_route(walk, from, to),
    ensures
        1real / m.route_factor(walk) == m.route_price(walk),
    decreases walk.len(),
{
    if walk.len() > 0 {
        let k = walk.last();
        let before = walk.drop_last();
        lemma_factor_inverts_price(m, before, from, m.edges[k].0 as int);
        lemma_route_positive(m, before, from, m.edges[k].0 as int);
        lemma_usable_positive(m.bundle(k), m.states);
        let f = m.route_factor(before);
        let p = m.route_price(before);
        let l = crate::market::local_price(m.bundle(k), m.states);
        assert(1real / (f * (1real / l)) == (1real / f) * l) by (nonlinear_arith)
            requires
                f > 0real,
                l > 0real,
        ;
    }
}

} // verus!
