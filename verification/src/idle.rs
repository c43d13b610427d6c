//! A bundle that cannot be crossed prices nothing: where one more edge with
//! such a bundle joins a market, with or without new nodes, the search
//! runs as it ran and gives the price that it gave.

use vstd::prelude::*;
use crate::graph::{edge_of, lemma_outgoing_sound, outgoing};
use crate::market::{SubGraphEdge, bundle_covered, edge_weight, sum_weight, usable};
use crate::pool::PoolStateView;
use crate::primitives::Address;
use crate::route::Market;
use crate::search::{
    Search, least, lemma_dead_pool_leaves_price, lemma_least_in_range, lemma_oracle, oracle,
    with_pool,
};
use crate::subgraph::{
    SubGraphView, lemma_link_position, lemma_position, lemma_with_edge, lemma_with_token,
    link_position, position, with_token,
};

verus! {

/// The market with one more edge, which carries one more bundle, and with
/// `nodes` nodes.
pub open spec fn with_link(
    m: Market,
    link: (usize, usize, usize),
    bundle: Seq<SubGraphEdge>,
    nodes: nat,
) -> Market {
    Market { edges: m.edges.push(link), bundles: m.bundles.push(bundle), states: m.states, nodes }
}

/// Whether a new edge with its bundle can join the market as an edge that
/// cannot be crossed: it carries the next bundle, the bundle has no
/// liquidity, and no node is lost.
pub open spec fn joins_idle(
    m: Market,
    link: (usize, usize, usize),
    bundle: Seq<SubGraphEdge>,
    nodes: nat,
) -> bool {
    &&& m.wf()
    &&& link.2 == m.bundles.len()
    &&& !usable(bundle, m.states)
    &&& nodes >= m.nodes
}

/// Whether a state of the search has one entry per node of the market and
/// only nodes of the market on its frontier.
pub open spec fn tame(st: Search, m: Market) -> bool {
    &&& st.visited.len() == m.nodes
    &&& st.scores.len() == m.nodes
    &&& st.prices.len() == m.nodes
    &&& st.via.len() == m.nodes
    &&& forall|i: int| 0 <= i < st.frontier.len() ==> 0 <= (#[trigger] st.frontier[i]).1 < m.nodes
}

/// A state of the search with room for `n` nodes: the nodes beyond those
/// that it had are not done and have no score, node price or route.
pub open spec fn padded(st: Search, n: nat) -> Search {
    Search {
        visited: Seq::new(n, |v: int| v < st.visited.len() && st.visited[v]),
        scores: Seq::new(n, |v: int| if v < st.scores.len() { st.scores[v] } else { None }),
        prices: Seq::new(n, |v: int| if v < st.prices.len() { st.prices[v] } else { None }),
        frontier: st.frontier,
        via: Seq::new(n, |v: int| if v < st.via.len() { st.via[v] } else { Seq::empty() }),
        trails: st.trails,
    }
}

/// The edges that leave a node once one more edge has joined: the new edge
/// first where it leaves that node, then those that left it before.
proof fn lemma_outgoing_push(edges: Seq<(usize, usize, usize)>, link: (usize, usize, usize), a: usize, j: int)
    ensures
        outgoing(edges.push(link), a).len() == if link.0 == a {
            outgoing(edges, a).len() + 1
        } else {
            outgoing(edges, a).len()
        },
        link.0 == a ==> edge_of(edges.push(link), a, 0) == edges.len(),
        link.0 == a ==> edge_of(edges.push(link), a, j + 1) == edge_of(edges, a, j) || j + 1 == 0,
        link.0 != a ==> edge_of(edges.push(link), a, j) == edge_of(edges, a, j),
{
    let more = edges.push(link);
    assert(more.drop_last() =~= edges);
    assert(more.last() == link);
}

/// Looking at an edge that the market had goes the same way once the new
/// edge has joined.
proof fn lemma_relax_padded(
    st: Search,
    m: Market,
    link: (usize, usize, usize),
    bundle: Seq<SubGraphEdge>,
    nodes: nat,
    k: int,
    score: real,
    price: real,
    trail: Seq<int>,
)
    requires
        joins_idle(m, link, bundle, nodes),
        tame(st, m),
        0 <= k < m.edges.len(),
    ensures
        tame(st.relax(m, k, score, price, trail), m),
        padded(st.relax(m, k, score, price, trail), nodes) == padded(st, nodes).relax(
            with_link(m, link, bundle, nodes),
            k,
            score,
            price,
            trail,
        ),
{
    let big = with_link(m, link, bundle, nodes);
    let wide = padded(st, nodes);
    assert(m.edge_wf(k));
    assert(big.edges[k] == m.edges[k]);
    assert(big.bundle(k) == m.bundle(k));
    assert(big.crossable(k) == m.crossable(k));
    assert(big.cost(k) == m.cost(k));
    assert(big.factor(k) == m.factor(k));
    let target = m.edges[k].1 as int;
    assert(wide.visited[target] == st.visited[target]);
    assert(wide.scores[target] == st.scores[target]);
    let next = st.relax(m, k, score, price, trail);
    let wide_next = wide.relax(big, k, score, price, trail);
    if next != st {
        assert(next == st.improved(target, score + m.cost(k), price * m.factor(k), trail.push(k)));
        assert(wide_next == wide.improved(
            target,
            score + m.cost(k),
            price * m.factor(k),
            trail.push(k),
        ));
        assert(padded(next, nodes).scores =~= wide_next.scores);
        assert(padded(next, nodes).prices =~= wide_next.prices);
        assert(padded(next, nodes).via =~= wide_next.via);
        assert(padded(next, nodes).visited =~= wide_next.visited);
        assert(padded(next, nodes) == wide_next);
    } else {
        assert(wide_next == wide);
    }
}

/// Looking at the edges that leave a node goes the same way once the new
/// edge has joined: the new edge, where it leaves that node, comes first
/// and changes nothing.
proof fn lemma_expanded_padded(
    st: Search,
    m: Market,
    link: (usize, usize, usize),
    bundle: Seq<SubGraphEdge>,
    nodes: nat,
    node: int,
    score: real,
    price: real,
    trail: Seq<int>,
    j: int,
)
    requires
        joins_idle(m, link, bundle, nodes),
        tame(st, m),
        0 <= j <= outgoing(m.edges, node as usize).len(),
    ensures
        tame(st.expanded(m, node, score, price, trail, j), m),
        padded(st.expanded(m, node, score, price, trail, j), nodes) == padded(st, nodes).expanded(
            with_link(m, link, bundle, nodes),
            node,
            score,
            price,
            trail,
            if link.0 == node as usize {
                j + 1
            } else {
                j
            },
        ),
    decreases j,
{
    let big = with_link(m, link, bundle, nodes);
    let wide = padded(st, nodes);
    let a = node as usize;
    if j == 0 {
        if link.0 == a {
            lemma_outgoing_push(m.edges, link, a, 0);
            let last = m.edges.len() as int;
            assert(big.edges[last] == link);
            assert(big.bundle(last) == bundle);
            assert(!big.crossable(last));
            assert(wide.expanded(big, node, score, price, trail, 0) == wide);
            assert(wide.expanded(big, node, score, price, trail, 1) == wide.expanded(
                big,
                node,
                score,
                price,
                trail,
                0,
            ).relax(big, edge_of(big.edges, a, 0), score, price, trail));
        }
    } else {
        lemma_expanded_padded(st, m, link, bundle, nodes, node, score, price, trail, j - 1);
        lemma_outgoing_sound(m.edges, a, j - 1);
        lemma_outgoing_push(m.edges, link, a, j - 1);
        let k = edge_of(m.edges, a, j - 1);
        lemma_relax_padded(
            st.expanded(m, node, score, price, trail, j - 1),
            m,
            link,
            bundle,
            nodes,
            k,
            score,
            price,
            trail,
        );
    }
}

/// The search runs the same way once the new edge has joined.
proof fn lemma_run_padded(
    m: Market,
    link: (usize, usize, usize),
    bundle: Seq<SubGraphEdge>,
    nodes: nat,
    start: int,
    goal: int,
    n: nat,
)
    requires
        joins_idle(m, link, bundle, nodes),
        0 <= start < m.nodes,
    ensures
        tame(Search::run(m, start, goal, n).0, m),
        Search::run(with_link(m, link, bundle, nodes), start, goal, n) == (
            padded(Search::run(m, start, goal, n).0, nodes),
            Search::run(m, start, goal, n).1,
        ),
    decreases n,
{
    let big = with_link(m, link, bundle, nodes);
    if n == 0 {
        let st = Search::initial(m, start);
        let wide = Search::initial(big, start);
        assert(padded(st, nodes).visited =~= wide.visited);
        assert(padded(st, nodes).scores =~= wide.scores);
        assert(padded(st, nodes).prices =~= wide.prices);
        assert(padded(st, nodes).via =~= wide.via);
        assert(padded(st, nodes) == wide);
    } else {
        lemma_run_padded(m, link, bundle, nodes, start, goal, (n - 1) as nat);
        let before = Search::run(m, start, goal, (n - 1) as nat);
        let st = before.0;
        let wide = padded(st, nodes);
        if !(before.1 || st.frontier.len() == 0) {
            lemma_least_in_range(st.frontier);
            let at = least(st.frontier);
            let entry = st.frontier[at];
            let rest = st.without(at);
            assert(tame(rest, m)) by {
                assert forall|i: int| 0 <= i < rest.frontier.len() implies 0 <= (
                #[trigger] rest.frontier[i]).1 < m.nodes by {
                    if i < at {
                        assert(rest.frontier[i] == st.frontier[i]);
                    } else {
                        assert(rest.frontier[i] == st.frontier[i + 1]);
                    }
                }
            }
            assert(padded(rest, nodes) == wide.without(at));
            assert(wide.visited[entry.1] == st.visited[entry.1]);
            if !st.visited[entry.1] && entry.1 != goal {
                let a = entry.1 as usize;
                let count = outgoing(m.edges, a).len() as int;
                lemma_outgoing_push(m.edges, link, a, 0);
                lemma_expanded_padded(
                    rest,
                    m,
                    link,
                    bundle,
                    nodes,
                    entry.1,
                    entry.0,
                    entry.2,
                    st.trails[at],
                    count,
                );
                let seen = rest.expanded(m, entry.1, entry.0, entry.2, st.trails[at], count);
                assert(padded(seen.closed(entry.1), nodes).visited =~= padded(seen, nodes).closed(
                    entry.1,
                ).visited);
                assert(padded(seen.closed(entry.1), nodes) == padded(seen, nodes).closed(entry.1));
            }
        }
    }
}

/// An edge that cannot be crossed leaves every price as it was: where one
/// more edge joins a market with a bundle without liquidity, between nodes
/// that the market had or new ones, the search gives for any two nodes of
/// the market the price that it gave.
pub proof fn lemma_idle_link_leaves_price(
    m: Market,
    link: (usize, usize, usize),
    bundle: Seq<SubGraphEdge>,
    nodes: nat,
    start: int,
    goal: int,
)
    requires
        joins_idle(m, link, bundle, nodes),
        0 <= start < m.nodes,
        0 <= goal < m.nodes,
    ensures
        oracle(with_link(m, link, bundle, nodes), start, goal) == oracle(m, start, goal),
{
    let big = with_link(m, link, bundle, nodes);
    assert forall|n: nat| Search::ended(m, start, goal, n) == Search::ended(big, start, goal, n) by {
        lemma_run_padded(m, link, bundle, nodes, start, goal, n);
    }
    if exists|n: nat| Search::ended(m, start, goal, n) {
        let n = choose|n: nat| Search::ended(m, start, goal, n);
        lemma_run_padded(m, link, bundle, nodes, start, goal, n);
        assert(Search::ended(big, start, goal, n));
        lemma_oracle(m, start, goal, n);
        lemma_oracle(big, start, goal, n);
    } else {
        assert forall|n: nat| !Search::ended(big, start, goal, n) by {
            assert(!Search::ended(m, start, goal, n));
        }
    }
}

/// The market that a subgraph makes with a store of pool states: bundle
/// `k` is the `k`-th edge, and every token is a node.
pub open spec fn view_market(g: SubGraphView, states: Map<Address, PoolStateView>) -> Market {
    Market { edges: g.graph_links(), bundles: g.bundles, states, nodes: g.tokens.len() }
}

/// Whether the store has a state for every pool of the subgraph.
pub open spec fn view_covered(g: SubGraphView, states: Map<Address, PoolStateView>) -> bool {
    forall|k: int| 0 <= k < g.bundles.len() ==> bundle_covered(#[trigger] g.bundles[k], states)
}

/// The market of a well-formed subgraph whose pools all have a state is
/// well formed.
proof fn lemma_view_market_wf(g: SubGraphView, states: Map<Address, PoolStateView>)
    requires
        g.wf(),
        view_covered(g, states),
        g.tokens.len() <= usize::MAX,
        g.links.len() <= usize::MAX,
    ensures
        view_market(g, states).wf(),
{
    let m = view_market(g, states);
    assert forall|k: int| 0 <= k < m.edges.len() implies #[trigger] m.edge_wf(k) by {
        assert(g.bundle_wf(k));
        assert(bundle_covered(g.bundles[k], states));
    }
}

/// A pool without liquidity that a subgraph takes in leaves every price as
/// it was, whether it joins a bundle that the subgraph has, starts a new
/// one between tokens of the subgraph, or brings new tokens with it.
pub proof fn lemma_dead_pool_taken_in(
    g: SubGraphView,
    e: SubGraphEdge,
    states: Map<Address, PoolStateView>,
    start: int,
    goal: int,
)
    requires
        g.wf(),
        view_covered(g, states),
        edge_weight(e, states) == 0real,
        0 <= start < g.tokens.len(),
        0 <= goal < g.tokens.len(),
        g.tokens.len() + 2 <= usize::MAX,
        g.links.len() < usize::MAX,
    ensures
        oracle(view_market(g.with_edge(e), states), start, goal) == oracle(
            view_market(g, states),
            start,
            goal,
        ),
{
    let m = view_market(g, states);
    let next = g.with_edge(e);
    lemma_view_market_wf(g, states);
    lemma_with_edge(g, e);
    let t1 = with_token(g.tokens, e.info.info.token_0);
    lemma_with_token(g.tokens, e.info.info.token_0);
    let tokens = with_token(t1, e.info.info.token_1);
    lemma_with_token(t1, e.info.info.token_1);
    assert(next.tokens == tokens);
    let from = position(tokens, e.info.base());
    let to = position(tokens, e.info.quote());
    lemma_position(tokens, e.info.base());
    lemma_position(tokens, e.info.quote());
    lemma_position(t1, e.info.info.token_0);
    let p0 = position(t1, e.info.info.token_0);
    assert(tokens[p0] == e.info.info.token_0);
    assert(from >= 0 && to >= 0);
    let k = link_position(g.links, from, to);
    lemma_link_position(g.links, from, to);
    if k >= 0 {
        assert(g.bundle_wf(k));
        assert(tokens[from] == g.tokens[from]);
        assert(tokens[to] == g.tokens[to]);
        lemma_position(g.tokens, e.info.info.token_0);
        lemma_position(g.tokens, e.info.info.token_1);
        lemma_position(t1, e.info.info.token_1);
        assert(position(g.tokens, e.info.info.token_0) >= 0);
        assert(t1 == g.tokens);
        assert(position(g.tokens, e.info.info.token_1) >= 0);
        assert(tokens == g.tokens);
        assert(view_market(next, states) == with_pool(m, k, e));
        lemma_dead_pool_leaves_price(m, k, e, start, goal);
    } else {
        let link = (from as usize, to as usize, g.links.len() as usize);
        let bundle = seq![e];
        assert(bundle.drop_last() =~= Seq::<SubGraphEdge>::empty());
        assert(sum_weight(bundle.drop_last(), states) == 0real);
        assert(sum_weight(bundle, states) == 0real);
        assert(view_market(next, states).edges =~= m.edges.push(link));
        assert(view_market(next, states) == with_link(m, link, bundle, tokens.len()));
        lemma_idle_link_leaves_price(m, link, bundle, tokens.len(), start, goal);
    }
}

} // verus!
