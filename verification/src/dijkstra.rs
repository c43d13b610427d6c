//! The price oracle: a cheapest-route search over a pair's graph, in which
//! crossing a bundle costs the less the deeper its liquidity is, and the
//! node price is carried along each route.

use vstd::prelude::*;
use crate::market::{SubGraphEdge, quote_bundle};
use crate::graph::{
    PoolGraph, edge_of, graph_edges, graph_edges_from, graph_node_count, graph_nodes,
    lemma_outgoing_complete, lemma_outgoing_sound, outgoing,
};
use crate::pool::PoolStates;
use crate::rational::Rational;
use crate::route::{Market, lemma_factor_inverts_price, lemma_route_extend, lemma_route_positive};
use crate::scored::{MinScored, least_index};
use crate::search::{
    Search, least, lemma_close, lemma_improve, lemma_initial, lemma_least, lemma_least_is_settled,
    lemma_oracle, lemma_pop, lemma_unreachable, oracle,
};

verus! {

/// What a vector of bundles holds.
pub open spec fn bundles_view(bundles: Seq<Vec<SubGraphEdge>>) -> Seq<Seq<SubGraphEdge>> {
    bundles.map_values(|b: Vec<SubGraphEdge>| b@)
}

/// The market that a graph, its bundles and a store of pool states make.
pub open spec fn market_of(graph: PoolGraph, bundles: Seq<Vec<SubGraphEdge>>, states: PoolStates) -> Market {
    Market {
        edges: graph_edges(graph),
        bundles: bundles_view(bundles),
        states: states@,
        nodes: graph_node_count(graph),
    }
}

/// Whether a score or node price that the search keeps is the number that
/// the state of the search has in its place.
pub open spec fn slot_tracks(slot: Option<Rational>, number: Option<real>) -> bool {
    match slot {
        Some(r) => r.wf() && number == Some(r.value()),
        None => number is None,
    }
}

/// Whether a frontier entry that the search keeps is the entry that the
/// state of the search has in its place.
pub open spec fn entry_tracks(entry: MinScored<(usize, Rational)>, e: (real, int, real)) -> bool {
    &&& entry.0.wf()
    &&& entry.1.1.wf()
    &&& entry.0.value() == e.0
    &&& entry.1.0 == e.1
    &&& entry.1.1.value() == e.2
}

/// Whether what the search keeps is the state `st`.
pub open spec fn tracks(
    visited: Seq<bool>,
    scores: Seq<Option<Rational>>,
    prices: Seq<Option<Rational>>,
    frontier: Seq<MinScored<(usize, Rational)>>,
    st: Search,
) -> bool {
    &&& visited == st.visited
    &&& scores.len() == st.scores.len()
    &&& prices.len() == st.prices.len()
    &&& frontier.len() == st.frontier.len()
    &&& forall|v: int| 0 <= v < scores.len() ==> slot_tracks(#[trigger] scores[v], st.scores[v])
    &&& forall|v: int| 0 <= v < prices.len() ==> slot_tracks(#[trigger] prices[v], st.prices[v])
    &&& forall|i: int| 0 <= i < frontier.len() ==> entry_tracks(#[trigger] frontier[i], st.frontier[i])
}

/// What a price that the search returns is as a number.
pub open spec fn answer(r: Option<Rational>) -> Option<real> {
    match r {
        Some(p) => Some(p.value()),
        None => None,
    }
}

/// The number of nodes that are not done.
pub open spec fn open_nodes(visited: Seq<bool>) -> nat
    decreases visited.len(),
{
    if visited.len() == 0 {
        0
    } else if visited.last() {
        open_nodes(visited.drop_last())
    } else {
        open_nodes(visited.drop_last()) + 1
    }
}

/// Closing a node that was not done leaves one open node less.
pub proof fn lemma_open_nodes_close(visited: Seq<bool>, u: int)
    requires
        0 <= u < visited.len(),
        !visited[u],
    ensures
        open_nodes(visited.update(u, true)) + 1 == open_nodes(visited),
    decreases visited.len(),
{
    let next = visited.update(u, true);
    if u == visited.len() - 1 {
        assert(next.drop_last() =~= visited.drop_last());
    } else {
        lemma_open_nodes_close(visited.drop_last(), u);
        assert(next.drop_last() =~= visited.drop_last().update(u, true));
    }
}

/// Where everything is done, no node is open.
pub proof fn lemma_open_nodes_none(visited: Seq<bool>)
    requires
        forall|v: int| 0 <= v < visited.len() ==> #[trigger] visited[v],
    ensures
        open_nodes(visited) == 0,
    decreases visited.len(),
{
    if visited.len() > 0 {
        lemma_open_nodes_none(visited.drop_last());
    }
}

/// Where no node is open, everything is done.
pub proof fn lemma_open_nodes_zero(visited: Seq<bool>, v: int)
    requires
        open_nodes(visited) == 0,
        0 <= v < visited.len(),
    ensures
        visited[v],
    decreases visited.len(),
{
    if v < visited.len() - 1 {
        lemma_open_nodes_zero(visited.drop_last(), v);
    }
}

/// Where nothing is done, every node is open.
pub proof fn lemma_open_nodes_all(visited: Seq<bool>)
    requires
        forall|v: int| 0 <= v < visited.len() ==> !visited[v],
    ensures
        open_nodes(visited) == visited.len(),
    decreases visited.len(),
{
    if visited.len() > 0 {
        lemma_open_nodes_all(visited.drop_last());
    }
}

/// Looks at every edge that leaves `node`, a node that is not done and
/// whose score `node_score` is settled, and gives the target of each edge
/// that can be crossed a better score where crossing the edge gives one.
fn expand(
    graph: &PoolGraph,
    bundles: &Vec<Vec<SubGraphEdge>>,
    state: &PoolStates,
    node: usize,
    node_score: &Rational,
    price: &Rational,
    visited: &Vec<bool>,
    scores: &mut Vec<Option<Rational>>,
    node_price: &mut Vec<Option<Rational>>,
    frontier: &mut Vec<MinScored<(usize, Rational)>>,
    Ghost(start): Ghost<int>,
    Ghost(st): Ghost<Search>,
    Ghost(trail): Ghost<Seq<int>>,
) -> (next: Ghost<Search>)
    requires
        state.wf(),
        market_of(*graph, bundles@, *state).wf(),
        st.inv(market_of(*graph, bundles@, *state), start, node as int),
        tracks(visited@, old(scores)@, old(node_price)@, old(frontier)@, st),
        node < graph_node_count(*graph),
        !st.visited[node as int],
        node_score.wf(),
        price.wf(),
        st.scores[node as int] == Some(node_score.value()),
        st.settled(market_of(*graph, bundles@, *state), start, node as int),
        market_of(*graph, bundles@, *state).is_route(trail, start, node as int),
        market_of(*graph, bundles@, *state).route_cost(trail) == node_score.value(),
        market_of(*graph, bundles@, *state).route_factor(trail) == price.value(),
    ensures
        next@.inv(market_of(*graph, bundles@, *state), start, node as int),
        tracks(visited@, final(scores)@, final(node_price)@, final(frontier)@, next@),
        next@.visited == st.visited,
        next@.scores[node as int] == st.scores[node as int],
        forall|k: int|
            0 <= k < graph_edges(*graph).len() && graph_edges(*graph)[k].0 == node
                ==> #[trigger] next@.relaxed(market_of(*graph, bundles@, *state), k),
        next@ == st.expanded(
            market_of(*graph, bundles@, *state),
            node as int,
            node_score.value(),
            price.value(),
            trail,
            outgoing(graph_edges(*graph), node).len() as int,
        ),
{
    let ghost m = market_of(*graph, bundles@, *state);
    let out = graph_edges_from(graph, node);
    let ghost mut cur = st;
    let mut j: usize = 0;
    while j < out.len()
        invariant
            j <= out@.len(),
            state.wf(),
            m == market_of(*graph, bundles@, *state),
            m.wf(),
            out@ == outgoing(m.edges, node),
            cur.inv(m, start, node as int),
            tracks(visited@, scores@, node_price@, frontier@, cur),
            node < m.nodes,
            cur.visited == st.visited,
            !cur.visited[node as int],
            cur.scores[node as int] == Some(node_score.value()),
            st.scores[node as int] == Some(node_score.value()),
            node_score.wf(),
            price.wf(),
            m.is_route(trail, start, node as int),
            m.route_cost(trail) == node_score.value(),
            m.route_factor(trail) == price.value(),
            forall|q: int| 0 <= q < j ==> cur.relaxed(m, #[trigger] edge_of(m.edges, node, q)),
            cur == st.expanded(m, node as int, node_score.value(), price.value(), trail, j as int),
        decreases out@.len() - j,
    {
        let target = out[j].0;
        let b = out[j].1;
        let ghost k = edge_of(m.edges, node, j as int);
        let ghost before = cur;
        proof {
            lemma_outgoing_sound(m.edges, node, j as int);
            assert(m.edge_wf(k));
            assert(bundles_view(bundles@)[b as int] == bundles@[b as int]@);
            if m.crossable(k) {
                lemma_route_extend(m, trail, start, k);
                lemma_route_positive(m, trail.push(k), start, target as int);
                crate::market::lemma_usable_positive(m.bundle(k), m.states);
            }
        }
        if visited[target] {
            proof {
                assert(cur.settled(m, start, target as int));
            }
        } else {
            match quote_bundle(&bundles[b], state) {
                Some((factor, cost)) => {
                    let new_price = price.times(&factor);
                    let next_score = node_score.plus(&cost);
                    let better = match &scores[target] {
                        Some(s) => next_score.less_than(s),
                        None => true,
                    };
                    proof {
                        assert(slot_tracks(scores@[target as int], cur.scores[target as int]));
                    }
                    if better {
                        let ghost walk = trail.push(k);
                        proof {
                            lemma_improve(
                                cur,
                                m,
                                start,
                                node as int,
                                target as int,
                                next_score.value(),
                                new_price.value(),
                                walk,
                            );
                            cur = cur.improved(
                                target as int,
                                next_score.value(),
                                new_price.value(),
                                walk,
                            );
                        }
                        scores.set(target, Some(next_score.duplicate()));
                        node_price.set(target, Some(new_price.duplicate()));
                        frontier.push(MinScored(next_score, (target, new_price)));
                        proof {
                            assert forall|v: int| 0 <= v < scores@.len() implies slot_tracks(
                                #[trigger] scores@[v],
                                cur.scores[v],
                            ) by {}
                            assert forall|q: int| 0 <= q < j implies cur.relaxed(
                                m,
                                #[trigger] edge_of(m.edges, node, q),
                            ) by {
                                lemma_outgoing_sound(m.edges, node, q);
                                assert(before.relaxed(m, edge_of(m.edges, node, q)));
                            }
                        }
                    }
                },
                None => {},
            }
        }
        proof {
            assert(cur.relaxed(m, k));
            assert(cur == before.relax(m, k, node_score.value(), price.value(), trail));
        }
        j = j + 1;
    }
    proof {
        assert forall|k: int| 0 <= k < m.edges.len() && m.edges[k].0 == node implies #[trigger] cur.relaxed(
            m,
            k,
        ) by {
            lemma_outgoing_complete(m.edges, node, k);
            let q = choose|q: int|
                0 <= q < outgoing(m.edges, node).len() && #[trigger] outgoing(m.edges, node)[q] == (
                    m.edges[k].1,
                    m.edges[k].2,
                );
            lemma_outgoing_sound(m.edges, node, q);
            assert(cur.relaxed(m, edge_of(m.edges, node, q)));
        }
    }
    Ghost(cur)
}

/// What the search keeps at the outset: nothing done, no score and no node
/// price but score zero for the start, and the start alone on the frontier.
fn begin(n: usize, start: usize, Ghost(m): Ghost<Market>) -> (r: (
    Vec<bool>,
    Vec<Option<Rational>>,
    Vec<Option<Rational>>,
    Vec<MinScored<(usize, Rational)>>,
))
    requires
        n == m.nodes,
        start < n,
    ensures
        tracks(r.0@, r.1@, r.2@, r.3@, Search::initial(m, start as int)),
        open_nodes(r.0@) == n,
{
    let mut visited: Vec<bool> = Vec::new();
    let mut scores: Vec<Option<Rational>> = Vec::new();
    let mut node_price: Vec<Option<Rational>> = Vec::new();
    let mut v: usize = 0;
    while v < n
        invariant
            v <= n,
            visited@.len() == v,
            scores@.len() == v,
            node_price@.len() == v,
            forall|k: int| 0 <= k < v ==> !visited@[k],
            forall|k: int| 0 <= k < v ==> (#[trigger] scores@[k]) is None,
            forall|k: int| 0 <= k < v ==> (#[trigger] node_price@[k]) is None,
        decreases n - v,
    {
        visited.push(false);
        scores.push(None);
        node_price.push(None);
        v = v + 1;
    }
    scores.set(start, Some(Rational::zero()));
    let mut frontier: Vec<MinScored<(usize, Rational)>> = Vec::new();
    frontier.push(MinScored(Rational::zero(), (start, Rational::one())));
    proof {
        let st = Search::initial(m, start as int);
        assert(visited@ =~= st.visited);
        lemma_open_nodes_all(visited@);
    }
    (visited, scores, node_price, frontier)
}

/// The price of the token at node `goal` in the token at node `start`: how
/// much `goal` one `start` buys along a cheapest route, where crossing a
/// bundle costs one over its liquidity and multiplies the price by the
/// bundle's price. There is no price where `goal` is `start` or no route of
/// crossable bundles leads from `start` to `goal`. The frontier hands out
/// the least score first and, among equal scores, the entry that was put
/// there first; the price is the one that this search gives.
pub fn dijkstra_path(
    graph: &PoolGraph,
    bundles: &Vec<Vec<SubGraphEdge>>,
    start: usize,
    goal: usize,
    state: &PoolStates,
) -> (r: Option<Rational>)
    requires
        state.wf(),
        market_of(*graph, bundles@, *state).wf(),
        start < graph_node_count(*graph),
        goal < graph_node_count(*graph),
    ensures
        r matches Some(price) ==> price.wf(),
        market_of(*graph, bundles@, *state).priced(start as int, goal as int, answer(r)),
        answer(r) == oracle(market_of(*graph, bundles@, *state), start as int, goal as int),
{
    let ghost m = market_of(*graph, bundles@, *state);
    let n = graph_nodes(graph);
    let ghost mut steps: nat = 0;
    let (mut visited, mut scores, mut node_price, mut frontier) = begin(n, start, Ghost(m));
    let ghost mut st = Search::initial(m, start as int);
    let mut found = false;
    let mut open: usize = n;
    proof {
        lemma_initial(m, start as int);
    }
    while !found && frontier.len() > 0
        invariant
            state.wf(),
            m == market_of(*graph, bundles@, *state),
            m.wf(),
            n == m.nodes,
            start < n,
            goal < n,
            st.inv(m, start as int, if found { goal as int } else { -1 }),
            tracks(visited@, scores@, node_price@, frontier@, st),
            !st.visited[goal as int],
            found ==> st.settled(m, start as int, goal as int),
            open == open_nodes(visited@),
            (st, found) == Search::run(m, start as int, goal as int, steps),
        decreases open, frontier@.len(),
    {
        proof {
            assert forall|i: int| 0 <= i < frontier@.len() implies (#[trigger] frontier@[i]).wf() by {
                assert(entry_tracks(frontier@[i], st.frontier[i]));
            }
        }
        let i0 = least_index(&frontier);
        let ghost before = st;
        let ghost trail = st.trails[i0 as int];
        proof {
            assert(entry_tracks(frontier@[i0 as int], st.frontier[i0 as int]));
            assert forall|i: int| 0 <= i < st.frontier.len() implies st.frontier[i0 as int].0 <= (
            #[trigger] st.frontier[i]).0 by {
                assert(entry_tracks(frontier@[i], st.frontier[i]));
            }
            assert(st.entry_ok(m, start as int, i0 as int));
            assert forall|i: int| 0 <= i < i0 implies st.frontier[i0 as int].0 < (
            #[trigger] st.frontier[i]).0 by {
                assert(entry_tracks(frontier@[i], st.frontier[i]));
            }
            lemma_least(st.frontier, i0 as int);
            if !st.visited[st.frontier[i0 as int].1] {
                lemma_least_is_settled(st, m, start as int, i0 as int);
            }
            lemma_pop(st, m, start as int, i0 as int);
            st = st.without(i0 as int);
        }
        let ghost entries = frontier@;
        let entry = frontier.remove(i0);
        let MinScored(node_score, (node, price)) = entry;
        proof {
            assert forall|i: int| 0 <= i < frontier@.len() implies entry_tracks(
                #[trigger] frontier@[i],
                st.frontier[i],
            ) by {
                if i < i0 {
                    assert(entry_tracks(entries[i], before.frontier[i]));
                } else {
                    assert(entry_tracks(entries[i + 1], before.frontier[i + 1]));
                }
            }
        }
        if visited[node] {
            // A better entry for the node was looked at before this one.
        } else if node == goal {
            found = true;
        } else {
            let done = expand(
                graph,
                bundles,
                state,
                node,
                &node_score,
                &price,
                &visited,
                &mut scores,
                &mut node_price,
                &mut frontier,
                Ghost(start as int),
                Ghost(st),
                Ghost(trail),
            );
            proof {
                st = done@;
                lemma_close(st, m, start as int, node as int);
                lemma_open_nodes_close(visited@, node as int);
                st = st.closed(node as int);
            }
            visited.set(node, true);
            open = open - 1;
        }
        proof {
            steps = steps + 1;
            assert((st, found) == before.step(m, goal as int));
        }
    }
    proof {
        lemma_oracle(m, start as int, goal as int, steps);
    }
    proof {
        assert(st.scored(m, start as int, goal as int));
        assert(slot_tracks(node_price@[goal as int], st.prices[goal as int]));
        if found {
            if start != goal {
                let walk = st.via[goal as int];
                lemma_route_positive(m, walk, start as int, goal as int);
                lemma_factor_inverts_price(m, walk, start as int, goal as int);
                assert(m.is_cheapest(walk, start as int, goal as int));
                assert(m.connected(start as int, goal as int));
            }
        } else {
            if st.scores[goal as int].is_some() {
                assert(st.queued(goal as int));
            }
            if m.connected(start as int, goal as int) {
                let walk = choose|walk: Seq<int>| #[trigger]
                    m.is_route(walk, start as int, goal as int);
                lemma_unreachable(st, m, start as int, walk, goal as int);
            }
        }
    }
    match &node_price[goal] {
        Some(p) => p.reciprocal(),
        None => None,
    }
}

} // verus!
