//! Reachability in a subgraph: a subgraph that is made of routes of its
//! pair has every node on a way from the start to the end.

use vstd::prelude::*;
use crate::primitives::{Address, Pair};
use crate::market::{PoolPairInformation, SubGraphEdge};
use crate::shortest::{Step, continues, edges_of, is_simple_route, step_base, step_quote};
use crate::subgraph::{
    SubGraphView, all_edges, lemma_link_position, lemma_position, lemma_position_unique,
    lemma_with_edge, lemma_with_token, link_position, position, with_token,
};

verus! {

impl SubGraphView {
    /// Whether a bundle leads from node `a` to node `b`.
    pub open spec fn joined(self, a: int, b: int) -> bool {
        exists|k: int| 0 <= k < self.links.len() && #[trigger] self.links[k] == (a, b)
    }

    /// Whether node `i` of `nodes` is joined to the next.
    pub open spec fn hop(self, nodes: Seq<int>, i: int) -> bool {
        self.joined(nodes[i], nodes[i + 1])
    }

    /// Whether every node of `nodes` is joined to the next.
    pub open spec fn is_path(self, nodes: Seq<int>) -> bool {
        &&& nodes.len() >= 1
        &&& forall|i: int| 0 <= i < nodes.len() - 1 ==> #[trigger] self.hop(nodes, i)
    }

    /// Whether a way of bundles leads from node `a` to node `b`.
    pub open spec fn reaches(self, a: int, b: int) -> bool {
        exists|nodes: Seq<int>| #[trigger] self.is_path(nodes) && nodes[0] == a && nodes.last() == b
    }

    /// Whether every node can be reached from `start` and can reach `end`.
    pub open spec fn routed(self, start: int, end: int) -> bool {
        forall|v: int|
            0 <= v < self.tokens.len() ==> #[trigger] self.reaches(start, v) && self.reaches(v, end)
    }

    /// Whether the subgraph has a node for each token of the edge and a
    /// bundle that leads from the token that the edge takes to the token
    /// that it gives.
    pub open spec fn carries(self, e: SubGraphEdge) -> bool {
        &&& position(self.tokens, e.info.base()) >= 0
        &&& position(self.tokens, e.info.quote()) >= 0
        &&& self.joined(position(self.tokens, e.info.base()), position(self.tokens, e.info.quote()))
    }
}

/// Whether the edges of a route lead from the base token of the pair to its
/// quote token, each taking the token that the one before it gave.
pub open spec fn is_chain(route: Seq<SubGraphEdge>, pair: Pair) -> bool {
    &&& route.len() >= 1
    &&& route[0].info.base() == pair.0
    &&& route.last().info.quote() == pair.1
    &&& forall|i: int| 0 <= i < route.len() - 1 ==> #[trigger] linked(route, i)
}

/// Whether edge `i + 1` of a route takes the token that edge `i` gives.
pub open spec fn linked(route: Seq<SubGraphEdge>, i: int) -> bool {
    route[i].info.quote() == route[i + 1].info.base()
}

/// A token that has a place keeps it when tokens are added.
pub proof fn lemma_position_kept(tokens: Seq<Address>, more: Seq<Address>, token: Address)
    requires
        tokens.no_duplicates(),
        more.no_duplicates(),
        tokens.len() <= more.len(),
        forall|i: int| 0 <= i < tokens.len() ==> more[i] == tokens[i],
        position(tokens, token) >= 0,
    ensures
        position(more, token) == position(tokens, token),
{
    lemma_position(tokens, token);
    let p = position(tokens, token);
    assert(more[p] == token);
    lemma_position_unique(more, p);
}

/// A well-formed subgraph that takes in an edge carries that edge, and
/// still carries what it carried before.
pub proof fn lemma_with_edge_carries(g: SubGraphView, e: SubGraphEdge, old: SubGraphEdge)
    requires
        g.wf(),
    ensures
        g.with_edge(e).carries(e),
        g.carries(old) ==> g.with_edge(e).carries(old),
{
    let next = g.with_edge(e);
    lemma_with_edge(g, e);
    let t1 = with_token(g.tokens, e.info.info.token_0);
    lemma_with_token(g.tokens, e.info.info.token_0);
    let tokens = with_token(t1, e.info.info.token_1);
    lemma_with_token(t1, e.info.info.token_1);
    assert(next.tokens == tokens);
    lemma_position(t1, e.info.info.token_0);
    lemma_position_kept(t1, tokens, e.info.info.token_0);
    let from = position(tokens, e.info.base());
    let to = position(tokens, e.info.quote());
    assert(from >= 0 && to >= 0);
    let k = link_position(g.links, from, to);
    lemma_link_position(g.links, from, to);
    if k >= 0 {
        assert(next.links[k] == (from, to));
    } else {
        assert(next.links[g.links.len() as int] == (from, to));
    }
    if g.carries(old) {
        assert forall|i: int| 0 <= i < g.tokens.len() implies tokens[i] == g.tokens[i] by {
            assert(t1[i] == g.tokens[i]);
        }
        lemma_position_kept(g.tokens, tokens, old.info.base());
        lemma_position_kept(g.tokens, tokens, old.info.quote());
        let a = position(g.tokens, old.info.base());
        let b = position(g.tokens, old.info.quote());
        let at = choose|at: int| 0 <= at < g.links.len() && #[trigger] g.links[at] == (a, b);
        assert(next.links[at] == (a, b));
    }
}

/// The subgraph that edges make is well formed and carries each of them.
pub proof fn lemma_built_carries(edges: Seq<SubGraphEdge>, i: int)
    requires
        0 <= i < edges.len(),
    ensures
        SubGraphView::built(edges).wf(),
        SubGraphView::built(edges).carries(edges[i]),
    decreases edges.len(),
{
    let before = SubGraphView::built(edges.drop_last());
    lemma_built_wf(edges.drop_last());
    lemma_with_edge(before, edges.last());
    if i < edges.len() - 1 {
        lemma_built_carries(edges.drop_last(), i);
        lemma_with_edge_carries(before, edges.last(), edges[i]);
    } else {
        lemma_with_edge_carries(before, edges.last(), edges.last());
    }
}

/// The subgraph that edges make is well formed.
pub proof fn lemma_built_wf(edges: Seq<SubGraphEdge>)
    ensures
        SubGraphView::built(edges).wf(),
    decreases edges.len(),
{
    if edges.len() > 0 {
        lemma_built_wf(edges.drop_last());
        lemma_with_edge(SubGraphView::built(edges.drop_last()), edges.last());
    }
}

/// Every node of the subgraph that edges make holds a token of one of the
/// edges.
pub proof fn lemma_built_tokens(edges: Seq<SubGraphEdge>, v: int)
    requires
        0 <= v < SubGraphView::built(edges).tokens.len(),
    ensures
        exists|i: int|
            0 <= i < edges.len() && ((#[trigger] edges[i]).info.base() == SubGraphView::built(
                edges,
            ).tokens[v] || edges[i].info.quote() == SubGraphView::built(edges).tokens[v]),
    decreases edges.len(),
{
    if edges.len() > 0 {
        let before = SubGraphView::built(edges.drop_last());
        let e = edges.last();
        lemma_built_wf(edges.drop_last());
        lemma_with_edge(before, e);
        let t1 = with_token(before.tokens, e.info.info.token_0);
        lemma_with_token(before.tokens, e.info.info.token_0);
        lemma_with_token(t1, e.info.info.token_1);
        lemma_position(before.tokens, e.info.info.token_0);
        lemma_position(t1, e.info.info.token_1);
        let after = SubGraphView::built(edges);
        if v < before.tokens.len() {
            lemma_built_tokens(edges.drop_last(), v);
            let i = choose|i: int|
                0 <= i < edges.len() - 1 && ((#[trigger] edges.drop_last()[i]).info.base()
                    == before.tokens[v] || edges.drop_last()[i].info.quote() == before.tokens[v]);
            assert(edges[i] == edges.drop_last()[i]);
            assert(t1[v] == before.tokens[v]);
        } else {
            assert(after.tokens[v] == e.info.info.token_0 || after.tokens[v]
                == e.info.info.token_1);
            assert(edges[edges.len() - 1] == e);
        }
    }
}

/// The nodes of the tokens along the edges `from..to` of a chain, in a
/// subgraph: the node of the token that edge `from` takes, then the node of
/// the token that each edge gives.
pub open spec fn nodes_along(g: SubGraphView, route: Seq<SubGraphEdge>, from: int, to: int) -> Seq<int>
    decreases to - from,
{
    if from >= to {
        seq![position(g.tokens, route[from].info.base())]
    } else {
        nodes_along(g, route, from, to - 1).push(position(g.tokens, route[to - 1].info.quote()))
    }
}

/// In a subgraph that carries every edge of a chain, the nodes along any
/// stretch of the chain are a way from the token that the stretch takes to
/// the token that it gives.
pub proof fn lemma_way_along(g: SubGraphView, route: Seq<SubGraphEdge>, pair: Pair, from: int, to: int)
    requires
        is_chain(route, pair),
        forall|i: int| 0 <= i < route.len() ==> g.carries(#[trigger] route[i]),
        0 <= from <= to <= route.len(),
        from < route.len(),
    ensures
        g.is_path(nodes_along(g, route, from, to)),
        nodes_along(g, route, from, to).len() == to - from + 1,
        nodes_along(g, route, from, to)[0] == position(g.tokens, route[from].info.base()),
        nodes_along(g, route, from, to).last() == if to > from {
            position(g.tokens, route[to - 1].info.quote())
        } else {
            position(g.tokens, route[from].info.base())
        },
    decreases to - from,
{
    if to > from {
        lemma_way_along(g, route, pair, from, to - 1);
        let before = nodes_along(g, route, from, to - 1);
        let all = nodes_along(g, route, from, to);
        assert(g.carries(route[to - 1]));
        if to - 1 > from {
            assert(linked(route, to - 2));
        }
        assert forall|i: int| 0 <= i < all.len() - 1 implies #[trigger] g.hop(all, i) by {
            if i < before.len() - 1 {
                assert(all[i] == before[i] && all[i + 1] == before[i + 1]);
                assert(g.hop(before, i));
            }
        }
    }
}

/// Where the edges of a subgraph hold every edge of a chain of the pair,
/// each node that holds a token of the chain can be reached from the node
/// of the base token and can reach the node of the quote token.
pub proof fn lemma_chain_routed(g: SubGraphView, route: Seq<SubGraphEdge>, pair: Pair, j: int)
    requires
        is_chain(route, pair),
        forall|i: int| 0 <= i < route.len() ==> g.carries(#[trigger] route[i]),
        0 <= j < route.len(),
    ensures
        g.reaches(position(g.tokens, pair.0), position(g.tokens, route[j].info.base())),
        g.reaches(position(g.tokens, pair.0), position(g.tokens, route[j].info.quote())),
        g.reaches(position(g.tokens, route[j].info.base()), position(g.tokens, pair.1)),
        g.reaches(position(g.tokens, route[j].info.quote()), position(g.tokens, pair.1)),
{
    let n = route.len() as int;
    lemma_way_along(g, route, pair, 0, j);
    lemma_way_along(g, route, pair, 0, j + 1);
    lemma_way_along(g, route, pair, j, n);
    if j > 0 {
        assert(linked(route, j - 1));
    }
    assert(g.is_path(nodes_along(g, route, 0, j)));
    assert(g.is_path(nodes_along(g, route, 0, j + 1)));
    assert(g.is_path(nodes_along(g, route, j, n)));
    if j + 1 < n {
        lemma_way_along(g, route, pair, j + 1, n);
        assert(linked(route, j));
        assert(g.is_path(nodes_along(g, route, j + 1, n)));
    } else {
        let alone = seq![position(g.tokens, pair.1)];
        assert(g.is_path(alone));
        assert(alone[0] == position(g.tokens, route[j].info.quote()));
    }
}

/// The edges of several routes, one route after the other, hold every edge
/// of every route.
pub proof fn lemma_all_edges_hold(routes: Seq<Vec<SubGraphEdge>>, r: int, j: int)
    requires
        0 <= r < routes.len(),
        0 <= j < routes[r]@.len(),
    ensures
        exists|i: int| 0 <= i < all_edges(routes).len() && #[trigger] all_edges(routes)[i] == routes[r]@[j],
    decreases routes.len(),
{
    let before = all_edges(routes.drop_last());
    let all = all_edges(routes);
    if r < routes.len() - 1 {
        lemma_all_edges_hold(routes.drop_last(), r, j);
        let i = choose|i: int| 0 <= i < before.len() && #[trigger] before[i] == routes.drop_last()[r]@[j];
        assert(all[i] == before[i]);
    } else {
        assert(all[before.len() + j] == routes[r]@[j]);
    }
}

/// Every edge among the edges of several routes is an edge of one of the
/// routes.
pub proof fn lemma_all_edges_from(routes: Seq<Vec<SubGraphEdge>>, i: int)
    requires
        0 <= i < all_edges(routes).len(),
    ensures
        exists|r: int, j: int|
            0 <= r < routes.len() && 0 <= j < routes[r]@.len() && all_edges(routes)[i]
                == #[trigger] routes[r]@[j],
    decreases routes.len(),
{
    if routes.len() > 0 {
        let before = all_edges(routes.drop_last());
        if i < before.len() {
            lemma_all_edges_from(routes.drop_last(), i);
            let (r, j) = choose|r: int, j: int|
                0 <= r < routes.len() - 1 && 0 <= j < routes.drop_last()[r]@.len() && before[i]
                    == #[trigger] routes.drop_last()[r]@[j];
            assert(routes[r]@[j] == before[i]);
        } else {
            let r = routes.len() - 1;
            assert(routes[r]@[i - before.len()] == all_edges(routes)[i]);
        }
    }
}

/// The subgraph invariant: in the subgraph that routes of a pair make,
/// every node can be reached from the node of the base token and can reach
/// the node of the quote token.
pub proof fn lemma_routes_routed(routes: Seq<Vec<SubGraphEdge>>, pair: Pair)
    requires
        forall|r: int| 0 <= r < routes.len() ==> is_chain((#[trigger] routes[r])@, pair),
    ensures
        SubGraphView::built(all_edges(routes)).routed(
            position(SubGraphView::built(all_edges(routes)).tokens, pair.0),
            position(SubGraphView::built(all_edges(routes)).tokens, pair.1),
        ),
{
    let edges = all_edges(routes);
    let g = SubGraphView::built(edges);
    let start = position(g.tokens, pair.0);
    let end = position(g.tokens, pair.1);
    lemma_built_wf(edges);
    assert forall|v: int| 0 <= v < g.tokens.len() implies #[trigger] g.reaches(start, v) && g.reaches(
        v,
        end,
    ) by {
        lemma_built_tokens(edges, v);
        let i = choose|i: int|
            0 <= i < edges.len() && ((#[trigger] edges[i]).info.base() == g.tokens[v]
                || edges[i].info.quote() == g.tokens[v]);
        lemma_all_edges_from(routes, i);
        let (r, j) = choose|r: int, j: int|
            0 <= r < routes.len() && 0 <= j < routes[r]@.len() && edges[i] == #[trigger] routes[r]@[j];
        let route = routes[r]@;
        assert(is_chain(route, pair));
        assert forall|q: int| 0 <= q < route.len() implies g.carries(#[trigger] route[q]) by {
            lemma_all_edges_hold(routes, r, q);
            let at = choose|at: int| 0 <= at < edges.len() && #[trigger] edges[at] == routes[r]@[q];
            lemma_built_carries(edges, at);
        }
        lemma_chain_routed(g, route, pair, j);
        lemma_position_unique(g.tokens, v);
    }
}

/// Taking in an edge between two nodes keeps every node on a way from the
/// start to the end.
pub proof fn lemma_routed_kept(g: SubGraphView, e: SubGraphEdge, start: int, end: int)
    requires
        g.wf(),
        g.routed(start, end),
        position(g.tokens, e.info.info.token_0) >= 0,
        position(g.tokens, e.info.info.token_1) >= 0,
    ensures
        g.with_edge(e).routed(start, end),
{
    let next = g.with_edge(e);
    let t1 = with_token(g.tokens, e.info.info.token_0);
    assert(t1 == g.tokens);
    assert(with_token(t1, e.info.info.token_1) == g.tokens);
    assert(next.tokens == g.tokens);
    assert forall|a: int, b: int| g.joined(a, b) implies next.joined(a, b) by {
        let k = choose|k: int| 0 <= k < g.links.len() && #[trigger] g.links[k] == (a, b);
        assert(next.links[k] == (a, b));
    }
    assert forall|nodes: Seq<int>| #[trigger] g.is_path(nodes) implies next.is_path(nodes) by {
        assert forall|i: int| 0 <= i < nodes.len() - 1 implies #[trigger] next.hop(nodes, i) by {
            assert(g.hop(nodes, i));
        }
    }
    assert forall|v: int| 0 <= v < next.tokens.len() implies #[trigger] next.reaches(start, v)
        && next.reaches(v, end) by {
        assert(0 <= v < g.tokens.len());
        assert(g.reaches(start, v));
        assert(g.reaches(v, end));
        let there = choose|nodes: Seq<int>|
            #[trigger] g.is_path(nodes) && nodes[0] == start && nodes.last() == v;
        assert(next.is_path(there));
        let on = choose|nodes: Seq<int>|
            #[trigger] g.is_path(nodes) && nodes[0] == v && nodes.last() == end;
        assert(next.is_path(on));
    }
}

/// Steps that lead from a token to a goal start at the token, end at the
/// goal, and each takes the token that the step before it gave.
pub proof fn lemma_steps_linked(
    pools: Seq<PoolPairInformation>,
    steps: Seq<Step>,
    current: Address,
    goal: Address,
    seen: Seq<Address>,
)
    requires
        continues(pools, steps, current, goal, seen),
    ensures
        steps.len() >= 1,
        step_base(pools, steps[0]) == current,
        step_quote(pools, steps.last()) == goal,
        forall|i: int|
            0 <= i < steps.len() - 1 ==> step_quote(pools, #[trigger] steps[i]) == step_base(
                pools,
                steps[i + 1],
            ),
    decreases steps.len(),
{
    if steps.len() > 1 {
        let rest = steps.drop_first();
        let q = step_quote(pools, steps[0]);
        lemma_steps_linked(pools, rest, q, goal, seen.push(q));
        assert(rest.last() == steps.last());
        assert forall|i: int| 0 <= i < steps.len() - 1 implies step_quote(pools, #[trigger] steps[i])
            == step_base(pools, steps[i + 1]) by {
            if i > 0 {
                assert(rest[i - 1] == steps[i]);
                assert(rest[i] == steps[i + 1]);
            } else {
                assert(rest[0] == steps[1]);
            }
        }
    }
}

/// The edges of a route of the pair are a chain of the pair.
pub proof fn lemma_route_is_chain(pools: Seq<PoolPairInformation>, pair: Pair, steps: Seq<Step>)
    requires
        is_simple_route(pools, pair, steps),
    ensures
        is_chain(edges_of(pools, steps), pair),
{
    lemma_steps_linked(pools, steps, pair.0, pair.1, seq![pair.0]);
    let route = edges_of(pools, steps);
    assert forall|i: int| 0 <= i < route.len() - 1 implies #[trigger] linked(route, i) by {
        assert(step_quote(pools, steps[i]) == step_base(pools, steps[i + 1]));
    }
}

} // verus!
