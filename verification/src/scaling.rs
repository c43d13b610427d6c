//! Scale invariance of the price: where every pool is `c` times as deep at
//! the same price, every route costs `c` times less, the same route is the
//! cheapest, and the price stays what it was.

use vstd::prelude::*;
use crate::deeper::{lemma_bundle_scaled, scaled_states};
use crate::graph::{edge_of, outgoing};
use crate::pool::PoolStateView;
use crate::primitives::Address;
use crate::route::Market;
use crate::search::{Search, least, lemma_least_in_range, lemma_oracle, oracle};

verus! {

/// Whether the second market is the first with every cost divided by `c`:
/// the same nodes and edges, the same edges can be crossed, with the same
/// factors.
pub open spec fn scaled_quotes(m: Market, other: Market, c: real) -> bool {
    &&& c > 0real
    &&& m.edges == other.edges
    &&& m.nodes == other.nodes
    &&& forall|k: int|
        0 <= k < m.edges.len() ==> (#[trigger] m.crossable(k)) == other.crossable(k) && (
        m.crossable(k) ==> other.factor(k) == m.factor(k) && other.cost(k) == m.cost(k) / c)
}

/// A score divided by `c`.
pub open spec fn shrunk_score(s: Option<real>, c: real) -> Option<real> {
    match s {
        Some(x) => Some(x / c),
        None => None,
    }
}

/// A frontier with every score divided by `c`.
pub open spec fn shrunk_frontier(frontier: Seq<(real, int, real)>, c: real) -> Seq<(real, int, real)> {
    Seq::new(frontier.len(), |i: int| (frontier[i].0 / c, frontier[i].1, frontier[i].2))
}

/// A state of the search with every score divided by `c`.
pub open spec fn shrunk(st: Search, c: real) -> Search {
    Search {
        visited: st.visited,
        scores: Seq::new(st.scores.len(), |v: int| shrunk_score(st.scores[v], c)),
        prices: st.prices,
        frontier: shrunk_frontier(st.frontier, c),
        via: st.via,
        trails: st.trails,
    }
}

/// Dividing by a positive number keeps the order and goes through sums.
proof fn lemma_shrink(a: real, b: real, c: real)
    requires
        c > 0real,
    ensures
        (a / c < b / c) == (a < b),
        a / c + b / c == (a + b) / c,
        0real / c == 0real,
{
    assert((a / c < b / c) == (a < b)) by (nonlinear_arith)
        requires
            c > 0real,
    ;
    assert(a / c + b / c == (a + b) / c) by (nonlinear_arith)
        requires
            c > 0real,
    ;
    assert(0real / c == 0real) by (nonlinear_arith)
        requires
            c > 0real,
    ;
}

/// The least entry of a frontier stands where it stood once every score is
/// divided by `c`.
proof fn lemma_least_shrunk(frontier: Seq<(real, int, real)>, c: real)
    requires
        c > 0real,
    ensures
        least(shrunk_frontier(frontier, c)) == least(frontier),
    decreases frontier.len(),
{
    if frontier.len() > 1 {
        let rest = frontier.drop_last();
        lemma_least_shrunk(rest, c);
        lemma_least_in_range(rest);
        assert(shrunk_frontier(frontier, c).drop_last() =~= shrunk_frontier(rest, c));
        let before = least(rest);
        lemma_shrink(frontier.last().0, frontier[before].0, c);
    }
}

/// Looking at an edge goes the same way in the market with the smaller
/// costs, on the state with the smaller scores.
proof fn lemma_relax_shrunk(
    st: Search,
    m: Market,
    other: Market,
    c: real,
    k: int,
    score: real,
    price: real,
    trail: Seq<int>,
)
    requires
        scaled_quotes(m, other, c),
        m.wf(),
        st.scores.len() == m.nodes,
    ensures
        shrunk(st.relax(m, k, score, price, trail), c) == shrunk(st, c).relax(
            other,
            k,
            score / c,
            price,
            trail,
        ),
        st.relax(m, k, score, price, trail).scores.len() == m.nodes,
{
    let small = shrunk(st, c);
    if 0 <= k < m.edges.len() {
        assert(m.edge_wf(k));
        assert(m.crossable(k) == other.crossable(k));
        let target = m.edges[k].1 as int;
        if !st.visited[target] && m.crossable(k) {
            lemma_shrink(score, m.cost(k), c);
            if st.scores[target] is Some {
                lemma_shrink(score + m.cost(k), st.scores[target]->0, c);
            }
            assert(small.scores[target] == shrunk_score(st.scores[target], c));
            if !(st.scores[target] is Some && !(score + m.cost(k) < st.scores[target]->0)) {
                let next = st.improved(target, score + m.cost(k), price * m.factor(k), trail.push(k));
                let small_next = small.improved(
                    target,
                    score / c + other.cost(k),
                    price * other.factor(k),
                    trail.push(k),
                );
                assert(shrunk(next, c).scores =~= small_next.scores);
                assert(shrunk(next, c).frontier =~= small_next.frontier);
                assert(shrunk(next, c) == small_next);
            }
        }
    } else {
        assert(!m.crossable(k));
        assert(!other.crossable(k));
    }
}

/// Looking at the edges that leave a node goes the same way in the market
/// with the smaller costs.
proof fn lemma_expanded_shrunk(
    st: Search,
    m: Market,
    other: Market,
    c: real,
    node: int,
    score: real,
    price: real,
    trail: Seq<int>,
    j: int,
)
    requires
        scaled_quotes(m, other, c),
        m.wf(),
        st.scores.len() == m.nodes,
    ensures
        shrunk(st.expanded(m, node, score, price, trail, j), c) == shrunk(st, c).expanded(
            other,
            node,
            score / c,
            price,
            trail,
            j,
        ),
        st.expanded(m, node, score, price, trail, j).scores.len() == m.nodes,
    decreases j,
{
    if j > 0 {
        lemma_expanded_shrunk(st, m, other, c, node, score, price, trail, j - 1);
        lemma_relax_shrunk(
            st.expanded(m, node, score, price, trail, j - 1),
            m,
            other,
            c,
            edge_of(m.edges, node as usize, j - 1),
            score,
            price,
            trail,
        );
    }
}

/// The search runs the same way in the market with the smaller costs, with
/// every score divided by `c`.
proof fn lemma_run_shrunk(m: Market, other: Market, c: real, start: int, goal: int, n: nat)
    requires
        scaled_quotes(m, other, c),
        m.wf(),
    ensures
        Search::run(other, start, goal, n) == (
            shrunk(Search::run(m, start, goal, n).0, c),
            Search::run(m, start, goal, n).1,
        ),
        Search::run(m, start, goal, n).0.scores.len() == m.nodes,
    decreases n,
{
    if n == 0 {
        let st = Search::initial(m, start);
        let small = Search::initial(other, start);
        lemma_shrink(0real, 0real, c);
        assert(shrunk(st, c).scores =~= small.scores);
        assert(shrunk(st, c).frontier =~= small.frontier);
        assert(shrunk(st, c) == small);
    } else {
        lemma_run_shrunk(m, other, c, start, goal, (n - 1) as nat);
        let before = Search::run(m, start, goal, (n - 1) as nat);
        let st = before.0;
        let small = shrunk(st, c);
        if !(before.1 || st.frontier.len() == 0) {
            lemma_least_shrunk(st.frontier, c);
            lemma_least_in_range(st.frontier);
            let at = least(st.frontier);
            let entry = st.frontier[at];
            let rest = st.without(at);
            assert(shrunk(rest, c).frontier =~= small.without(at).frontier);
            assert(shrunk(rest, c) == small.without(at));
            if !st.visited[entry.1] && entry.1 != goal {
                let count = outgoing(m.edges, entry.1 as usize).len() as int;
                lemma_expanded_shrunk(
                    rest,
                    m,
                    other,
                    c,
                    entry.1,
                    entry.0,
                    entry.2,
                    st.trails[at],
                    count,
                );
                let wide = rest.expanded(m, entry.1, entry.0, entry.2, st.trails[at], count);
                assert(shrunk(wide.closed(entry.1), c) == shrunk(wide, c).closed(entry.1));
            }
        }
    }
}

/// Scale invariance: the price that the search gives stays what it was
/// where every edge of the market costs `c` times less and nothing else
/// changes.
pub proof fn lemma_oracle_scaled(m: Market, other: Market, c: real, start: int, goal: int)
    requires
        scaled_quotes(m, other, c),
        m.wf(),
    ensures
        oracle(other, start, goal) == oracle(m, start, goal),
{
    assert forall|n: nat| Search::ended(m, start, goal, n) == Search::ended(other, start, goal, n) by {
        lemma_run_shrunk(m, other, c, start, goal, n);
    }
    if exists|n: nat| Search::ended(m, start, goal, n) {
        let n = choose|n: nat| Search::ended(m, start, goal, n);
        lemma_run_shrunk(m, other, c, start, goal, n);
        assert(Search::ended(other, start, goal, n));
        lemma_oracle(m, start, goal, n);
        lemma_oracle(other, start, goal, n);
    } else {
        assert forall|n: nat| !Search::ended(other, start, goal, n) by {
            assert(!Search::ended(m, start, goal, n));
        }
    }
}

/// Scale invariance of the price: where every pool holds `c` times the
/// reserves it held, the search gives the price that it gave.
pub proof fn lemma_deeper_pools_same_price(
    m: Market,
    other: Map<Address, PoolStateView>,
    c: real,
    start: int,
    goal: int,
)
    requires
        m.wf(),
        scaled_states(m.states, other, c),
    ensures
        oracle(Market { states: other, ..m }, start, goal) == oracle(m, start, goal),
{
    let deep = Market { states: other, ..m };
    assert forall|k: int| 0 <= k < m.edges.len() implies (#[trigger] m.crossable(k))
        == deep.crossable(k) && (m.crossable(k) ==> deep.factor(k) == m.factor(k) && deep.cost(k)
        == m.cost(k) / c) by {
        assert(m.edge_wf(k));
        lemma_bundle_scaled(m.bundle(k), m.states, other, c);
    }
    lemma_oracle_scaled(m, deep, c, start, goal);
}

} // verus!
