//! The state of a cheapest-route search and the facts that hold of it from
//! one step to the next.

use vstd::prelude::*;
use crate::market::{SubGraphEdge, edge_weight, lemma_dead_pool_leaves_quote, lemma_usable_positive};
use crate::graph::{edge_of, outgoing};
use crate::route::{Market, lemma_route_positive};

verus! {

/// What a search knows at some point: which nodes are done, the best score
/// and the node price found for each node so far with the route that gave
/// them, and the frontier of scored nodes that wait to be looked at, each
/// with the route that put it there.
pub struct Search {
    pub visited: Seq<bool>,
    pub scores: Seq<Option<real>>,
    pub prices: Seq<Option<real>>,
    pub frontier: Seq<(real, int, real)>,
    pub via: Seq<Seq<int>>,
    pub trails: Seq<Seq<int>>,
}

impl Search {
    /// Whether the state has one entry per node and one trail per frontier
    /// entry.
    pub open spec fn shaped(self, m: Market) -> bool {
        &&& self.visited.len() == m.nodes
        &&& self.scores.len() == m.nodes
        &&& self.prices.len() == m.nodes
        &&& self.via.len() == m.nodes
        &&& self.trails.len() == self.frontier.len()
    }

    /// Whether the score and the node price of `v` are those of the route
    /// recorded for `v`. The start has score zero and no node price.
    pub open spec fn scored(self, m: Market, start: int, v: int) -> bool {
        &&& v == start ==> self.scores[v] == Some(0real)
        &&& self.scores[v] matches Some(s) ==> {
            &&& m.is_route(self.via[v], start, v)
            &&& m.route_cost(self.via[v]) == s
            &&& v != start ==> self.prices[v] == Some(m.route_factor(self.via[v]))
        }
        &&& self.prices[v].is_some() ==> self.scores[v].is_some() && v != start
    }

    /// Whether frontier entry `i` holds the cost and the node price of its
    /// trail, a route to its node, and its node has a score that is no
    /// greater.
    pub open spec fn entry_ok(self, m: Market, start: int, i: int) -> bool {
        let e = self.frontier[i];
        &&& 0 <= e.1 < m.nodes
        &&& m.is_route(self.trails[i], start, e.1)
        &&& m.route_cost(self.trails[i]) == e.0
        &&& m.route_factor(self.trails[i]) == e.2
        &&& self.scores[e.1] matches Some(s) && s <= e.0
    }

    /// Whether frontier entry `i` is for node `v` at the score of `v`.
    pub open spec fn queued_at(self, v: int, i: int) -> bool {
        &&& 0 <= i < self.frontier.len()
        &&& self.frontier[i].1 == v
        &&& self.scores[v] == Some(self.frontier[i].0)
    }

    /// Whether the frontier has an entry for node `v` at the score of `v`.
    pub open spec fn queued(self, v: int) -> bool {
        exists|i: int| self.queued_at(v, i)
    }

    /// Whether the score of `u` is the cost of a cheapest route to `u`.
    pub open spec fn settled(self, m: Market, start: int, u: int) -> bool {
        self.scores[u] matches Some(d) && forall|walk: Seq<int>| #[trigger]
            m.is_route(walk, start, u) ==> d <= m.route_cost(walk)
    }

    /// Whether crossing edge `k`, if it can be crossed, does not improve on
    /// the score of its target.
    pub open spec fn relaxed(self, m: Market, k: int) -> bool {
        m.crossable(k) ==> {
            &&& self.scores[m.edges[k].0 as int] matches Some(d)
            &&& self.scores[m.edges[k].1 as int] matches Some(s)
            &&& s <= d + m.cost(k)
        }
    }

    /// Whether the search has not looked at any node yet: the frontier
    /// holds the start, at score zero, and nothing else.
    pub open spec fn fresh(self, start: int) -> bool {
        &&& self.frontier.len() > 0
        &&& forall|i: int|
            0 <= i < self.frontier.len() ==> (#[trigger] self.frontier[i]).1 == start
                && self.frontier[i].0 == 0real
    }

    /// Whether the search has got going: outside the expansion of a node
    /// the start is done or the search is fresh, and the node that is being
    /// expanded is the start unless the start is done.
    pub open spec fn anchored(self, start: int, cur: int) -> bool {
        if cur < 0 {
            self.visited[start] || self.fresh(start)
        } else {
            self.visited[start] || cur == start
        }
    }

    /// What holds of a search between steps, and, for `cur >= 0`, while node
    /// `cur` is being expanded: then `cur` need not be on the frontier.
    pub open spec fn inv(self, m: Market, start: int, cur: int) -> bool {
        &&& self.shaped(m)
        &&& 0 <= start < m.nodes
        &&& forall|v: int| 0 <= v < m.nodes ==> #[trigger] self.scored(m, start, v)
        &&& forall|i: int| 0 <= i < self.frontier.len() ==> #[trigger] self.entry_ok(m, start, i)
        &&& forall|v: int|
            0 <= v < m.nodes && !self.visited[v] && self.scores[v].is_some() && v != cur
                ==> #[trigger] self.queued(v)
        &&& forall|u: int| 0 <= u < m.nodes && self.visited[u] ==> #[trigger] self.settled(m, start, u)
        &&& forall|k: int|
            0 <= k < m.edges.len() && self.visited[m.edges[k].0 as int] ==> #[trigger] self.relaxed(
                m,
                k,
            )
        &&& self.anchored(start, cur)
    }

    /// The state at the outset: only the start has a score, and it is alone
    /// on the frontier.
    pub open spec fn initial(m: Market, start: int) -> Search {
        Search {
            visited: Seq::new(m.nodes, |v: int| false),
            scores: Seq::new(m.nodes, |v: int| if v == start { Some(0real) } else { None }),
            prices: Seq::new(m.nodes, |v: int| None),
            frontier: seq![(0real, start, 1real)],
            via: Seq::new(m.nodes, |v: int| Seq::empty()),
            trails: seq![Seq::empty()],
        }
    }

    /// The state without frontier entry `i`.
    pub open spec fn without(self, i: int) -> Search {
        Search { frontier: self.frontier.remove(i), trails: self.trails.remove(i), ..self }
    }

    /// The state once `v` has got a better score, by the route `trail`.
    pub open spec fn improved(self, v: int, score: real, price: real, trail: Seq<int>) -> Search {
        Search {
            visited: self.visited,
            scores: self.scores.update(v, Some(score)),
            prices: self.prices.update(v, Some(price)),
            frontier: self.frontier.push((score, v, price)),
            via: self.via.update(v, trail),
            trails: self.trails.push(trail),
        }
    }

    /// The state once `u` is done.
    pub open spec fn closed(self, u: int) -> Search {
        Search { visited: self.visited.update(u, true), ..self }
    }
}

/// The initial state satisfies the invariant.
pub proof fn lemma_initial(m: Market, start: int)
    requires
        m.wf(),
        0 <= start < m.nodes,
    ensures
        Search::initial(m, start).inv(m, start, -1),
{
    let st = Search::initial(m, start);
    assert forall|k: int|
        0 <= k < m.edges.len() && st.visited[m.edges[k].0 as int] implies #[trigger] st.relaxed(
        m,
        k,
    ) by {
        assert(m.edge_wf(k));
    }
    assert(Seq::<int>::empty().len() == 0);
    assert(m.is_route(Seq::<int>::empty(), start, start));
    assert(m.route_cost(Seq::<int>::empty()) == 0real);
    assert(m.route_factor(Seq::<int>::empty()) == 1real);
    assert forall|v: int| 0 <= v < m.nodes implies #[trigger] st.scored(m, start, v) by {}
    assert(st.entry_ok(m, start, 0));
    assert forall|v: int|
        0 <= v < m.nodes && !st.visited[v] && st.scores[v].is_some() && v != -1
            implies #[trigger] st.queued(v) by {
        assert(st.queued_at(v, 0));
    }
    assert(st.fresh(start));
}

/// While the invariant holds, no route to a node that is not done costs
/// less than the least score on the frontier.
pub proof fn lemma_lower_bound(st: Search, m: Market, start: int, least: int, walk: Seq<int>, x: int)
    requires
        m.wf(),
        st.inv(m, start, -1),
        0 <= least < st.frontier.len(),
        forall|i: int|
            0 <= i < st.frontier.len() ==> st.frontier[least].0 <= (#[trigger] st.frontier[i]).0,
        m.is_route(walk, start, x),
        0 <= x < m.nodes,
        !st.visited[x],
    ensures
        st.frontier[least].0 <= m.route_cost(walk),
    decreases walk.len(),
{
    if walk.len() == 0 {
        assert(st.fresh(start));
        assert(st.frontier[least].0 == 0real);
    } else {
        let k = walk.last();
        let y = m.edges[k].0 as int;
        assert(m.edge_wf(k));
        lemma_usable_positive(m.bundle(k), m.states);
        if st.visited[y] {
            assert(st.settled(m, start, y));
            assert(st.relaxed(m, k));
            assert(st.queued(x));
            let i = choose|i: int| st.queued_at(x, i);
            assert(st.frontier[least].0 <= st.frontier[i].0);
        } else {
            lemma_lower_bound(st, m, start, least, walk.drop_last(), y);
        }
    }
}

/// Once the frontier is empty, no route leads to a node that is not done.
pub proof fn lemma_unreachable(st: Search, m: Market, start: int, walk: Seq<int>, x: int)
    requires
        m.wf(),
        st.inv(m, start, -1),
        st.frontier.len() == 0,
        m.is_route(walk, start, x),
        0 <= x < m.nodes,
    ensures
        st.visited[x],
    decreases walk.len(),
{
    if walk.len() > 0 {
        let k = walk.last();
        let y = m.edges[k].0 as int;
        assert(m.edge_wf(k));
        lemma_unreachable(st, m, start, walk.drop_last(), y);
        assert(st.relaxed(m, k));
        if !st.visited[x] {
            assert(st.queued(x));
            let i = choose|i: int| st.queued_at(x, i);
        }
    }
}

/// The node of a least frontier entry, if it is not done, has the score of
/// that entry, and no route to it costs less.
pub proof fn lemma_least_is_settled(st: Search, m: Market, start: int, least: int)
    requires
        m.wf(),
        st.inv(m, start, -1),
        0 <= least < st.frontier.len(),
        forall|i: int|
            0 <= i < st.frontier.len() ==> st.frontier[least].0 <= (#[trigger] st.frontier[i]).0,
        !st.visited[st.frontier[least].1],
    ensures
        st.scores[st.frontier[least].1] == Some(st.frontier[least].0),
        st.settled(m, start, st.frontier[least].1),
        st.visited[start] || st.frontier[least].1 == start,
{
    let u = st.frontier[least].1;
    assert(st.entry_ok(m, start, least));
    assert(st.scored(m, start, u));
    lemma_lower_bound(st, m, start, least, st.via[u], u);
    assert forall|walk: Seq<int>| #[trigger] m.is_route(walk, start, u) implies st.frontier[least].0
        <= m.route_cost(walk) by {
        lemma_lower_bound(st, m, start, least, walk, u);
    }
    if !st.visited[start] {
        assert(st.fresh(start));
    }
}

/// Taking an entry off the frontier keeps the invariant: as it is, where
/// the node of the entry is done, and for the expansion of that node where
/// it is not.
pub proof fn lemma_pop(st: Search, m: Market, start: int, i0: int)
    requires
        m.wf(),
        st.inv(m, start, -1),
        0 <= i0 < st.frontier.len(),
        st.visited[st.frontier[i0].1] || (st.visited[start] || st.frontier[i0].1 == start),
    ensures
        st.visited[st.frontier[i0].1] ==> st.without(i0).inv(m, start, -1),
        !st.visited[st.frontier[i0].1] ==> st.without(i0).inv(m, start, st.frontier[i0].1),
{
    let u = st.frontier[i0].1;
    let next = st.without(i0);
    let cur = if st.visited[u] {
        -1
    } else {
        u
    };
    assert(st.entry_ok(m, start, i0));
    assert forall|v: int| 0 <= v < m.nodes implies #[trigger] next.scored(m, start, v) by {
        assert(st.scored(m, start, v));
    }
    assert forall|i: int| 0 <= i < next.frontier.len() implies #[trigger] next.entry_ok(
        m,
        start,
        i,
    ) by {
        if i < i0 {
            assert(st.entry_ok(m, start, i));
        } else {
            assert(st.entry_ok(m, start, i + 1));
        }
    }
    assert forall|v: int|
        0 <= v < m.nodes && !next.visited[v] && next.scores[v].is_some() && v != cur
            implies #[trigger] next.queued(v) by {
        assert(st.queued(v));
        let i = choose|i: int| st.queued_at(v, i);
        if i < i0 {
            assert(next.queued_at(v, i));
        } else {
            assert(i != i0);
            assert(next.queued_at(v, i - 1));
        }
    }
    assert forall|u2: int| 0 <= u2 < m.nodes && next.visited[u2] implies #[trigger] next.settled(
        m,
        start,
        u2,
    ) by {
        assert(st.settled(m, start, u2));
    }
    assert forall|k: int|
        0 <= k < m.edges.len() && next.visited[m.edges[k].0 as int] implies #[trigger] next.relaxed(
        m,
        k,
    ) by {
        assert(st.relaxed(m, k));
    }
    if st.visited[u] {
        if !st.visited[start] {
            assert(st.fresh(start));
            assert(st.frontier[i0].1 == start);
        }
    }
}

/// Giving a node that is not done a better score, by a route to it, keeps
/// the invariant of an expansion.
pub proof fn lemma_improve(
    st: Search,
    m: Market,
    start: int,
    cur: int,
    v: int,
    score: real,
    price: real,
    trail: Seq<int>,
)
    requires
        m.wf(),
        st.inv(m, start, cur),
        0 <= cur < m.nodes,
        0 <= v < m.nodes,
        !st.visited[v],
        trail.len() > 0,
        m.is_route(trail, start, v),
        m.route_cost(trail) == score,
        m.route_factor(trail) == price,
        st.scores[v] matches Some(s) ==> score < s,
    ensures
        st.improved(v, score, price, trail).inv(m, start, cur),
        v != start,
        forall|k: int|
            0 <= k < m.edges.len() && m.edges[k].0 != v && st.relaxed(m, k) ==> #[trigger] st.improved(
                v,
                score,
                price,
                trail,
            ).relaxed(m, k),
{
    let next = st.improved(v, score, price, trail);
    assert forall|k: int|
        0 <= k < m.edges.len() && m.edges[k].0 != v && st.relaxed(m, k) implies #[trigger] next.relaxed(
        m,
        k,
    ) by {
        assert(m.edge_wf(k));
    }
    lemma_route_positive(m, trail, start, v);
    assert(st.scored(m, start, v));
    assert(v != start);
    assert forall|w: int| 0 <= w < m.nodes implies #[trigger] next.scored(m, start, w) by {
        assert(st.scored(m, start, w));
    }
    assert forall|i: int| 0 <= i < next.frontier.len() implies #[trigger] next.entry_ok(
        m,
        start,
        i,
    ) by {
        if i < st.frontier.len() {
            assert(st.entry_ok(m, start, i));
        }
    }
    assert forall|w: int|
        0 <= w < m.nodes && !next.visited[w] && next.scores[w].is_some() && w != cur
            implies #[trigger] next.queued(w) by {
        if w == v {
            assert(next.queued_at(w, st.frontier.len() as int));
        } else {
            assert(st.queued(w));
            let i = choose|i: int| st.queued_at(w, i);
            assert(next.queued_at(w, i));
        }
    }
    assert forall|u: int| 0 <= u < m.nodes && next.visited[u] implies #[trigger] next.settled(
        m,
        start,
        u,
    ) by {
        assert(st.settled(m, start, u));
    }
    assert forall|k: int|
        0 <= k < m.edges.len() && next.visited[m.edges[k].0 as int] implies #[trigger] next.relaxed(
        m,
        k,
    ) by {
        assert(st.relaxed(m, k));
        assert(m.edge_wf(k));
    }
}

/// Closing a node whose score is settled and whose edges are all relaxed
/// ends its expansion.
pub proof fn lemma_close(st: Search, m: Market, start: int, u: int)
    requires
        m.wf(),
        st.inv(m, start, u),
        0 <= u < m.nodes,
        st.settled(m, start, u),
        forall|k: int| 0 <= k < m.edges.len() && m.edges[k].0 == u ==> #[trigger] st.relaxed(m, k),
    ensures
        st.closed(u).inv(m, start, -1),
{
    let next = st.closed(u);
    assert forall|w: int| 0 <= w < m.nodes implies #[trigger] next.scored(m, start, w) by {
        assert(st.scored(m, start, w));
    }
    assert forall|i: int| 0 <= i < next.frontier.len() implies #[trigger] next.entry_ok(
        m,
        start,
        i,
    ) by {
        assert(st.entry_ok(m, start, i));
    }
    assert forall|w: int|
        0 <= w < m.nodes && !next.visited[w] && next.scores[w].is_some() && w != -1
            implies #[trigger] next.queued(w) by {
        assert(st.queued(w));
        let i = choose|i: int| st.queued_at(w, i);
        assert(next.queued_at(w, i));
    }
    assert forall|w: int| 0 <= w < m.nodes && next.visited[w] implies #[trigger] next.settled(
        m,
        start,
        w,
    ) by {
        if w != u {
            assert(st.settled(m, start, w));
        }
    }
    assert forall|k: int|
        0 <= k < m.edges.len() && next.visited[m.edges[k].0 as int] implies #[trigger] next.relaxed(
        m,
        k,
    ) by {
        assert(m.edge_wf(k));
        assert(st.relaxed(m, k));
    }
}

/// The place of the frontier entry that the search looks at next: one with
/// the least score, and among those the one that was put there first.
pub open spec fn least(frontier: Seq<(real, int, real)>) -> int
    decreases frontier.len(),
{
    if frontier.len() <= 1 {
        0
    } else {
        let before = least(frontier.drop_last());
        if frontier.last().0 < frontier[before].0 {
            frontier.len() - 1
        } else {
            before
        }
    }
}

/// The place of the least entry is the one place whose score is no greater
/// than any score and less than every score before it.
pub proof fn lemma_least(frontier: Seq<(real, int, real)>, at: int)
    requires
        0 <= at < frontier.len(),
        forall|i: int| 0 <= i < frontier.len() ==> frontier[at].0 <= (#[trigger] frontier[i]).0,
        forall|i: int| 0 <= i < at ==> frontier[at].0 < (#[trigger] frontier[i]).0,
    ensures
        least(frontier) == at,
    decreases frontier.len(),
{
    if frontier.len() > 1 {
        let rest = frontier.drop_last();
        if at < frontier.len() - 1 {
            assert forall|i: int| 0 <= i < rest.len() implies rest[at].0 <= (#[trigger] rest[i]).0 by {
                assert(rest[i] == frontier[i]);
            }
            assert forall|i: int| 0 <= i < at implies rest[at].0 < (#[trigger] rest[i]).0 by {
                assert(rest[i] == frontier[i]);
            }
            lemma_least(rest, at);
            assert(frontier[frontier.len() - 1].0 >= frontier[at].0);
        } else {
            lemma_least_in_range(rest);
            let before = least(rest);
            assert(rest[before] == frontier[before]);
            assert(frontier[at].0 < frontier[before].0);
        }
    }
}

/// The place of the least entry is a place of the frontier.
pub proof fn lemma_least_in_range(frontier: Seq<(real, int, real)>)
    requires
        frontier.len() > 0,
    ensures
        0 <= least(frontier) < frontier.len(),
    decreases frontier.len(),
{
    if frontier.len() > 1 {
        lemma_least_in_range(frontier.drop_last());
    }
}

impl Search {
    /// The state once edge `k`, which leaves a node with the given score,
    /// node price and trail, has been looked at: its target gets a better
    /// score where the edge can be crossed, the target is not done, and
    /// crossing the edge gives a score below the one that the target has.
    pub open spec fn relax(self, m: Market, k: int, score: real, price: real, trail: Seq<int>) -> Search {
        let target = m.edges[k].1 as int;
        if self.visited[target] || !m.crossable(k) {
            self
        } else if self.scores[target] is Some && !(score + m.cost(k) < self.scores[target]->0) {
            self
        } else {
            self.improved(target, score + m.cost(k), price * m.factor(k), trail.push(k))
        }
    }

    /// The state once the first `j` edges that leave `node` have been
    /// looked at, the edge that was added last first.
    pub open spec fn expanded(
        self,
        m: Market,
        node: int,
        score: real,
        price: real,
        trail: Seq<int>,
        j: int,
    ) -> Search
        decreases j,
    {
        if j <= 0 {
            self
        } else {
            self.expanded(m, node, score, price, trail, j - 1).relax(
                m,
                edge_of(m.edges, node as usize, j - 1),
                score,
                price,
                trail,
            )
        }
    }

    /// The state after one step of the search, and whether the step has
    /// found the goal. The least entry leaves the frontier. Where its node
    /// is done already nothing else happens; where its node is the goal the
    /// search has found it; otherwise every edge that leaves the node is
    /// looked at and the node is done.
    pub open spec fn step(self, m: Market, goal: int) -> (Search, bool) {
        let at = least(self.frontier);
        let entry = self.frontier[at];
        let rest = self.without(at);
        if self.visited[entry.1] {
            (rest, false)
        } else if entry.1 == goal {
            (rest, true)
        } else {
            (
                rest.expanded(
                    m,
                    entry.1,
                    entry.0,
                    entry.2,
                    self.trails[at],
                    outgoing(m.edges, entry.1 as usize).len() as int,
                ).closed(entry.1),
                false,
            )
        }
    }

    /// The state after `n` steps of the search from `start` for `goal`, and
    /// whether the goal has been found. Once the goal is found or the
    /// frontier is empty the search stands still.
    pub open spec fn run(m: Market, start: int, goal: int, n: nat) -> (Search, bool)
        decreases n,
    {
        if n == 0 {
            (Search::initial(m, start), false)
        } else {
            let before = Search::run(m, start, goal, (n - 1) as nat);
            if before.1 || before.0.frontier.len() == 0 {
                before
            } else {
                before.0.step(m, goal)
            }
        }
    }

    /// Whether the search has come to its end after `n` steps.
    pub open spec fn ended(m: Market, start: int, goal: int, n: nat) -> bool {
        Search::run(m, start, goal, n).1 || Search::run(m, start, goal, n).0.frontier.len() == 0
    }
}

/// A search that has come to its end stands still.
pub proof fn lemma_run_stands(m: Market, start: int, goal: int, n: nat, later: nat)
    requires
        Search::ended(m, start, goal, n),
        n <= later,
    ensures
        Search::run(m, start, goal, later) == Search::run(m, start, goal, n),
    decreases later,
{
    if later > n {
        lemma_run_stands(m, start, goal, n, (later - 1) as nat);
    }
}

/// The price that the search gives: one over the node price of the goal in
/// the state in which the search has come to its end, where the goal has a
/// node price there; none otherwise. Among routes that cost the same, the
/// one by which the goal got its score first is the one that prices it.
pub open spec fn oracle(m: Market, start: int, goal: int) -> Option<real> {
    if exists|n: nat| Search::ended(m, start, goal, n) {
        let n = choose|n: nat| Search::ended(m, start, goal, n);
        match Search::run(m, start, goal, n).0.prices[goal] {
            Some(p) => Some(1real / p),
            None => None,
        }
    } else {
        None
    }
}

/// The price that the search gives is read off any state in which the
/// search has come to its end.
pub proof fn lemma_oracle(m: Market, start: int, goal: int, n: nat)
    requires
        Search::ended(m, start, goal, n),
    ensures
        oracle(m, start, goal) == match Search::run(m, start, goal, n).0.prices[goal] {
            Some(p) => Some(1real / p),
            None => None::<real>,
        },
{
    let c = choose|c: nat| Search::ended(m, start, goal, c);
    if c <= n {
        lemma_run_stands(m, start, goal, c, n);
    } else {
        lemma_run_stands(m, start, goal, n, c);
    }
}

/// Whether two markets have the same nodes and edges, and every edge can
/// be crossed in the one exactly when it can be crossed in the other, at
/// the same cost and with the same factor.
pub open spec fn same_quotes(m: Market, other: Market) -> bool {
    &&& m.edges == other.edges
    &&& m.nodes == other.nodes
    &&& forall|k: int|
        0 <= k < m.edges.len() ==> (#[trigger] m.crossable(k)) == other.crossable(k) && (
        m.crossable(k) ==> m.cost(k) == other.cost(k) && m.factor(k) == other.factor(k))
}

/// Looking at the edges that leave a node does the same in two markets
/// with the same quotes.
proof fn lemma_expanded_same(
    st: Search,
    m: Market,
    other: Market,
    node: int,
    score: real,
    price: real,
    trail: Seq<int>,
    j: int,
)
    requires
        same_quotes(m, other),
    ensures
        st.expanded(m, node, score, price, trail, j) == st.expanded(
            other,
            node,
            score,
            price,
            trail,
            j,
        ),
    decreases j,
{
    if j > 0 {
        lemma_expanded_same(st, m, other, node, score, price, trail, j - 1);
        let k = edge_of(m.edges, node as usize, j - 1);
        if 0 <= k < m.edges.len() {
            assert(m.crossable(k) == other.crossable(k));
        }
    }
}

/// The search runs the same in two markets with the same quotes.
proof fn lemma_run_same(m: Market, other: Market, start: int, goal: int, n: nat)
    requires
        same_quotes(m, other),
    ensures
        Search::run(m, start, goal, n) == Search::run(other, start, goal, n),
    decreases n,
{
    if n > 0 {
        lemma_run_same(m, other, start, goal, (n - 1) as nat);
        let before = Search::run(m, start, goal, (n - 1) as nat);
        if !(before.1 || before.0.frontier.len() == 0) {
            let st = before.0;
            let at = least(st.frontier);
            let entry = st.frontier[at];
            lemma_expanded_same(
                st.without(at),
                m,
                other,
                entry.1,
                entry.0,
                entry.2,
                st.trails[at],
                outgoing(m.edges, entry.1 as usize).len() as int,
            );
        }
    } else {
        assert(Search::initial(m, start) == Search::initial(other, start));
    }
}

/// The price that the search gives depends on the market only through its
/// nodes and edges and through what each edge quotes.
pub proof fn lemma_oracle_same_quotes(m: Market, other: Market, start: int, goal: int)
    requires
        same_quotes(m, other),
    ensures
        oracle(m, start, goal) == oracle(other, start, goal),
{
    assert forall|n: nat| Search::ended(m, start, goal, n) == Search::ended(other, start, goal, n) by {
        lemma_run_same(m, other, start, goal, n);
    }
    if exists|n: nat| Search::ended(m, start, goal, n) {
        let n = choose|n: nat| Search::ended(m, start, goal, n);
        lemma_run_same(m, other, start, goal, n);
        assert(Search::ended(other, start, goal, n));
        lemma_oracle(m, start, goal, n);
        lemma_oracle(other, start, goal, n);
    } else {
        assert forall|n: nat| !Search::ended(other, start, goal, n) by {
            assert(!Search::ended(m, start, goal, n));
        }
    }
}

/// The market in which one more pool has joined bundle `b`.
pub open spec fn with_pool(m: Market, b: int, e: SubGraphEdge) -> Market {
    Market {
        edges: m.edges,
        bundles: m.bundles.update(b, m.bundles[b].push(e)),
        states: m.states,
        nodes: m.nodes,
    }
}

/// A pool without liquidity only loses its weight: where such a pool joins
/// a bundle of a market, the price that the search gives for any two nodes
/// stays what it was.
pub proof fn lemma_dead_pool_leaves_price(m: Market, b: int, e: SubGraphEdge, start: int, goal: int)
    requires
        m.wf(),
        0 <= b < m.bundles.len(),
        edge_weight(e, m.states) == 0real,
    ensures
        oracle(with_pool(m, b, e), start, goal) == oracle(m, start, goal),
{
    let other = with_pool(m, b, e);
    assert forall|k: int| 0 <= k < m.edges.len() implies (#[trigger] m.crossable(k))
        == other.crossable(k) && (m.crossable(k) ==> m.cost(k) == other.cost(k) && m.factor(k)
        == other.factor(k)) by {
        assert(m.edge_wf(k));
        if m.edges[k].2 == b {
            lemma_dead_pool_leaves_quote(m.bundles[b], e, m.states);
        }
    }
    lemma_oracle_same_quotes(m, other, start, goal);
}

} // verus!
