//! The subgraph of a pair: the pools that lie on the pair's shortest
//! routes, grouped into bundles of parallel pools, one bundle per ordered
//! pair of tokens.

use vstd::prelude::*;
use crate::primitives::{Address, Pair};
use crate::actions::clone_vec;
use crate::market::{PoolPairInfoDirection, SubGraphEdge, bundle_covered};
use crate::graph::{
    PoolGraph, graph_add_edge, graph_add_node, graph_edges, graph_new, graph_node_count,
};
use crate::pool::PoolStates;
use crate::rational::Rational;
use crate::dijkstra::{answer, bundles_view, dijkstra_path, market_of};
use crate::search::oracle;
use crate::deeper::scaled_states;
use crate::idle::view_market;
use crate::scaling::lemma_deeper_pools_same_price;
use crate::route::Market;
use crate::reach::{
    is_chain, lemma_all_edges_from, lemma_all_edges_hold, lemma_built_carries, lemma_routed_kept,
    lemma_routes_routed,
};

verus! {

/// The place of a token among the tokens of a subgraph, or -1 where it is
/// not one of them.
pub open spec fn position(tokens: Seq<Address>, token: Address) -> int
    decreases tokens.len(),
{
    if tokens.len() == 0 {
        -1
    } else if position(tokens.drop_last(), token) >= 0 {
        position(tokens.drop_last(), token)
    } else if tokens.last() == token {
        tokens.len() - 1
    } else {
        -1
    }
}

/// The place of the bundle that leads from node `from` to node `to`, or -1
/// where there is none.
pub open spec fn link_position(links: Seq<(int, int)>, from: int, to: int) -> int
    decreases links.len(),
{
    if links.len() == 0 {
        -1
    } else if link_position(links.drop_last(), from, to) >= 0 {
        link_position(links.drop_last(), from, to)
    } else if links.last().0 == from && links.last().1 == to {
        links.len() - 1
    } else {
        -1
    }
}

/// The tokens with one more, unless it is among them already.
pub open spec fn with_token(tokens: Seq<Address>, token: Address) -> Seq<Address> {
    if position(tokens, token) >= 0 {
        tokens
    } else {
        tokens.push(token)
    }
}

/// What a subgraph holds: the token of each node, and for each bundle the
/// nodes that it joins and its pools.
pub struct SubGraphView {
    pub tokens: Seq<Address>,
    pub links: Seq<(int, int)>,
    pub bundles: Seq<Seq<SubGraphEdge>>,
}

impl SubGraphView {
    /// The subgraph without nodes.
    pub open spec fn empty() -> SubGraphView {
        SubGraphView { tokens: Seq::empty(), links: Seq::empty(), bundles: Seq::empty() }
    }

    /// Whether bundle `k` joins two nodes, and each of its pools takes the
    /// token of the first and gives the token of the second.
    pub open spec fn bundle_wf(self, k: int) -> bool {
        &&& 0 <= self.links[k].0 < self.tokens.len()
        &&& 0 <= self.links[k].1 < self.tokens.len()
        &&& self.bundles[k].len() > 0
        &&& forall|i: int|
            0 <= i < self.bundles[k].len() ==> #[trigger] self.member_wf(k, i)
    }

    /// Whether pool `i` of bundle `k` takes the token of the node at which
    /// the bundle starts and gives the token of the node at which it ends.
    pub open spec fn member_wf(self, k: int, i: int) -> bool {
        &&& self.bundles[k][i].info.base() == self.tokens[self.links[k].0]
        &&& self.bundles[k][i].info.quote() == self.tokens[self.links[k].1]
    }

    /// Whether no token has two nodes, no ordered pair of nodes has two
    /// bundles, and every bundle is well formed.
    pub open spec fn wf(self) -> bool {
        &&& self.links.len() == self.bundles.len()
        &&& self.tokens.no_duplicates()
        &&& self.links.no_duplicates()
        &&& forall|k: int| 0 <= k < self.links.len() ==> #[trigger] self.bundle_wf(k)
    }

    /// The subgraph with one more pool: its two tokens become nodes unless
    /// they are nodes already, and the pool joins the bundle that leads
    /// from the token it takes to the token it gives, or starts that bundle.
    pub open spec fn with_edge(self, e: SubGraphEdge) -> SubGraphView {
        let tokens = with_token(with_token(self.tokens, e.info.info.token_0), e.info.info.token_1);
        let from = position(tokens, e.info.base());
        let to = position(tokens, e.info.quote());
        let k = link_position(self.links, from, to);
        if k >= 0 {
            SubGraphView {
                tokens,
                links: self.links,
                bundles: self.bundles.update(k, self.bundles[k].push(e)),
            }
        } else {
            SubGraphView {
                tokens,
                links: self.links.push((from, to)),
                bundles: self.bundles.push(seq![e]),
            }
        }
    }

    /// The subgraph that a sequence of pools makes, taken in one after the
    /// other.
    pub open spec fn built(edges: Seq<SubGraphEdge>) -> SubGraphView
        decreases edges.len(),
    {
        if edges.len() == 0 {
            SubGraphView::empty()
        } else {
            SubGraphView::built(edges.drop_last()).with_edge(edges.last())
        }
    }

    /// The edges of the graph that carries the subgraph: bundle `k` is the
    /// `k`-th edge.
    pub open spec fn graph_links(self) -> Seq<(usize, usize, usize)> {
        Seq::new(
            self.links.len(),
            |k: int| (self.links[k].0 as usize, self.links[k].1 as usize, k as usize),
        )
    }
}

/// The place of a token is a place at which it stands, and it has a place
/// exactly when it is among the tokens.
pub proof fn lemma_position(tokens: Seq<Address>, token: Address)
    ensures
        -1 <= position(tokens, token) < tokens.len(),
        position(tokens, token) >= 0 ==> tokens[position(tokens, token)] == token,
        position(tokens, token) < 0 ==> forall|i: int|
            0 <= i < tokens.len() ==> tokens[i] != token,
    decreases tokens.len(),
{
    if tokens.len() > 0 {
        lemma_position(tokens.drop_last(), token);
        if position(tokens.drop_last(), token) < 0 {
            assert forall|i: int| 0 <= i < tokens.len() && position(tokens, token) < 0 implies tokens[i]
                != token by {
                if i < tokens.len() - 1 {
                    assert(tokens.drop_last()[i] != token);
                }
            }
        }
    }
}

/// Among tokens that are all different, a token has the place at which it
/// stands.
pub proof fn lemma_position_unique(tokens: Seq<Address>, i: int)
    requires
        0 <= i < tokens.len(),
        tokens.no_duplicates(),
    ensures
        position(tokens, tokens[i]) == i,
{
    lemma_position(tokens, tokens[i]);
    let p = position(tokens, tokens[i]);
}

/// The place of a bundle is a place at which it stands, and a pair of
/// nodes has a bundle exactly when one of the links joins them.
pub proof fn lemma_link_position(links: Seq<(int, int)>, from: int, to: int)
    ensures
        -1 <= link_position(links, from, to) < links.len(),
        link_position(links, from, to) >= 0 ==> links[link_position(links, from, to)].0 == from
            && links[link_position(links, from, to)].1 == to,
        link_position(links, from, to) < 0 ==> forall|i: int|
            0 <= i < links.len() ==> !(links[i].0 == from && links[i].1 == to),
    decreases links.len(),
{
    if links.len() > 0 {
        lemma_link_position(links.drop_last(), from, to);
        if link_position(links.drop_last(), from, to) < 0 {
            assert forall|i: int|
                0 <= i < links.len() && link_position(links, from, to) < 0 implies !(links[i].0
                == from && links[i].1 == to) by {
                if i < links.len() - 1 {
                    assert(links.drop_last()[i] == links[i]);
                }
            }
        }
    }
}

/// Adding a token keeps the tokens different from each other, keeps the
/// places of those that were there, and gives the token a place.
pub proof fn lemma_with_token(tokens: Seq<Address>, token: Address)
    requires
        tokens.no_duplicates(),
    ensures
        with_token(tokens, token).no_duplicates(),
        tokens.len() <= with_token(tokens, token).len() <= tokens.len() + 1,
        forall|i: int| 0 <= i < tokens.len() ==> with_token(tokens, token)[i] == tokens[i],
        0 <= position(with_token(tokens, token), token) < with_token(tokens, token).len(),
{
    lemma_position(tokens, token);
    let next = with_token(tokens, token);
    if position(tokens, token) < 0 {
        assert(next.drop_last() =~= tokens);
    }
    lemma_position(next, token);
}

/// Taking in a pool keeps a subgraph well formed.
pub proof fn lemma_with_edge(g: SubGraphView, e: SubGraphEdge)
    requires
        g.wf(),
    ensures
        g.with_edge(e).wf(),
        g.tokens.len() <= g.with_edge(e).tokens.len(),
        forall|i: int| 0 <= i < g.tokens.len() ==> g.with_edge(e).tokens[i] == g.tokens[i],
{
    let t1 = with_token(g.tokens, e.info.info.token_0);
    lemma_with_token(g.tokens, e.info.info.token_0);
    let tokens = with_token(t1, e.info.info.token_1);
    lemma_with_token(t1, e.info.info.token_1);
    let base = e.info.base();
    let quote = e.info.quote();
    lemma_position(tokens, base);
    lemma_position(tokens, quote);
    lemma_position(t1, e.info.info.token_0);
    let p0 = position(t1, e.info.info.token_0);
    assert(tokens[p0] == e.info.info.token_0);
    let from = position(tokens, base);
    let to = position(tokens, quote);
    assert(from >= 0 && to >= 0);
    let k = link_position(g.links, from, to);
    lemma_link_position(g.links, from, to);
    let next = g.with_edge(e);
    assert(next.tokens == tokens);
    assert forall|i: int| 0 <= i < g.tokens.len() implies tokens[i] == g.tokens[i] by {
        assert(t1[i] == g.tokens[i]);
    }
    assert forall|q: int| 0 <= q < next.links.len() implies #[trigger] next.bundle_wf(q) by {
        if q < g.links.len() {
            assert(g.bundle_wf(q));
            assert forall|i: int| 0 <= i < next.bundles[q].len() implies #[trigger] next.member_wf(
                q,
                i,
            ) by {
                if i < g.bundles[q].len() {
                    assert(g.member_wf(q, i));
                }
            }
        } else {
            assert forall|i: int| 0 <= i < next.bundles[q].len() implies #[trigger] next.member_wf(
                q,
                i,
            ) by {}
        }
    }
}

/// Among links that are all different, a link has the place at which it
/// stands.
pub proof fn lemma_link_position_unique(links: Seq<(int, int)>, i: int)
    requires
        0 <= i < links.len(),
        links.no_duplicates(),
    ensures
        link_position(links, links[i].0, links[i].1) == i,
{
    lemma_link_position(links, links[i].0, links[i].1);
    let p = link_position(links, links[i].0, links[i].1);
    assert(links[p] == links[i]);
}

/// The links of a subgraph as pairs of node numbers.
pub open spec fn links_view(links: Seq<(usize, usize)>) -> Seq<(int, int)> {
    links.map_values(|l: (usize, usize)| (l.0 as int, l.1 as int))
}

/// The subgraph of a pair.
#[derive(Debug)]
pub struct PairSubGraph {
    pair: Pair,
    graph: PoolGraph,
    tokens: Vec<Address>,
    links: Vec<(usize, usize)>,
    bundles: Vec<Vec<SubGraphEdge>>,
    start_node: usize,
    end_node: usize,
}

impl View for PairSubGraph {
    type V = SubGraphView;

    closed spec fn view(&self) -> SubGraphView {
        SubGraphView {
            tokens: self.tokens@,
            links: links_view(self.links@),
            bundles: bundles_view(self.bundles@),
        }
    }
}

/// The place of a token among the tokens, if it is one of them.
fn find_token(tokens: &Vec<Address>, token: Address) -> (r: Option<usize>)
    requires
        tokens@.no_duplicates(),
    ensures
        match r {
            Some(i) => i == position(tokens@, token),
            None => position(tokens@, token) < 0,
        },
{
    let mut i: usize = 0;
    while i < tokens.len()
        invariant
            i <= tokens@.len(),
            tokens@.no_duplicates(),
            forall|k: int| 0 <= k < i ==> tokens@[k] != token,
        decreases tokens@.len() - i,
    {
        if tokens[i] == token {
            proof {
                lemma_position_unique(tokens@, i as int);
            }
            return Some(i);
        }
        i = i + 1;
    }
    proof {
        lemma_position(tokens@, token);
    }
    None
}

/// The place of the bundle that joins two nodes, if there is one.
fn find_link(links: &Vec<(usize, usize)>, from: usize, to: usize) -> (r: Option<usize>)
    requires
        links_view(links@).no_duplicates(),
    ensures
        match r {
            Some(k) => k == link_position(links_view(links@), from as int, to as int),
            None => link_position(links_view(links@), from as int, to as int) < 0,
        },
{
    let mut i: usize = 0;
    while i < links.len()
        invariant
            i <= links@.len(),
            links_view(links@).no_duplicates(),
            forall|k: int|
                0 <= k < i ==> !(links_view(links@)[k].0 == from && links_view(links@)[k].1 == to),
        decreases links@.len() - i,
    {
        if links[i].0 == from && links[i].1 == to {
            proof {
                lemma_link_position_unique(links_view(links@), i as int);
            }
            return Some(i);
        }
        i = i + 1;
    }
    proof {
        lemma_link_position(links_view(links@), from as int, to as int);
    }
    None
}

impl PairSubGraph {
    /// The pair that the subgraph prices.
    pub closed spec fn pair(&self) -> Pair {
        self.pair
    }

    /// The node of the pair's base token.
    pub closed spec fn start(&self) -> int {
        self.start_node as int
    }

    /// The node of the pair's quote token.
    pub closed spec fn end(&self) -> int {
        self.end_node as int
    }

    /// Whether the graph carries what the subgraph holds: a node per token
    /// and an edge per bundle.
    pub closed spec fn carried(&self) -> bool {
        &&& self@.wf()
        &&& graph_node_count(self.graph) == self.tokens@.len()
        &&& graph_edges(self.graph) == self@.graph_links()
    }

    /// Whether the subgraph is well formed: the graph carries it, and the
    /// two tokens of the pair are the tokens of its start and end nodes.
    pub closed spec fn wf(&self) -> bool {
        &&& self.carried()
        &&& self.start_node < self.tokens@.len()
        &&& self.end_node < self.tokens@.len()
        &&& self.tokens@[self.start_node as int] == self.pair.0
        &&& self.tokens@[self.end_node as int] == self.pair.1
    }

    /// The market that the subgraph and a store of pool states make.
    pub closed spec fn market(&self, states: PoolStates) -> Market {
        market_of(self.graph, self.bundles@, states)
    }

    /// The market of a well-formed subgraph has the edges and bundles that
    /// the subgraph holds.
    pub proof fn lemma_market(&self, states: PoolStates)
        requires
            self.wf(),
        ensures
            self.market(states).edges == self@.graph_links(),
            self.market(states).bundles == self@.bundles,
            self.market(states).states == states@,
            self.market(states).nodes == self@.tokens.len(),
            0 <= self.start() < self@.tokens.len(),
            0 <= self.end() < self@.tokens.len(),
            self@.tokens[self.start()] == self.pair().0,
            self@.tokens[self.end()] == self.pair().1,
            self@.wf(),
    {
    }

    /// The market of a well-formed subgraph is the market that its view
    /// makes with the states of the store.
    pub proof fn lemma_market_of_view(&self, states: PoolStates)
        requires
            self.wf(),
        ensures
            self.market(states) == view_market(self@, states@),
    {
        self.lemma_market(states);
    }

    /// Whether the store has a state for every pool of the subgraph.
    pub open spec fn priced_by(&self, states: PoolStates) -> bool {
        forall|k: int|
            0 <= k < self@.bundles.len() ==> bundle_covered(#[trigger] self@.bundles[k], states@)
    }

    /// Scale invariance: against a store in which every pool holds `c`
    /// times the reserves, the search over the subgraph gives the price
    /// that it gives against the store itself, so that `fetch_price`
    /// answers both alike.
    pub proof fn lemma_deeper_store_same_price(&self, states: PoolStates, deep: PoolStates, c: real)
        requires
            self.wf(),
            self.priced_by(states),
            scaled_states(states@, deep@, c),
        ensures
            oracle(self.market(deep), self.start(), self.end()) == oracle(
                self.market(states),
                self.start(),
                self.end(),
            ),
    {
        let m = self.market(states);
        assert forall|k: int| 0 <= k < m.edges.len() implies #[trigger] m.edge_wf(k) by {
            assert(self@.bundle_wf(k));
            assert(bundle_covered(self@.bundles[k], states@));
        }
        lemma_deeper_pools_same_price(m, deep@, c, self.start(), self.end());
        assert(self.market(deep) == (Market { states: deep@, ..m }));
    }

    /// The node of a token, which is added where the token has none yet.
    fn node_for(&mut self, token: Address) -> (r: usize)
        requires
            old(self).carried(),
        ensures
            final(self).carried(),
            final(self)@.tokens == with_token(old(self)@.tokens, token),
            final(self)@.links == old(self)@.links,
            final(self)@.bundles == old(self)@.bundles,
            r == position(final(self)@.tokens, token),
            r < final(self)@.tokens.len(),
            final(self).pair == old(self).pair,
            final(self).start_node == old(self).start_node,
            final(self).end_node == old(self).end_node,
    {
        proof {
            lemma_with_token(self.tokens@, token);
        }
        match find_token(&self.tokens, token) {
            Some(i) => {
                proof {
                    lemma_position(self.tokens@, token);
                }
                i
            },
            None => {
                let ghost before = self@;
                let ix = graph_add_node(&mut self.graph);
                self.tokens.push(token);
                proof {
                    assert(self@.tokens =~= with_token(before.tokens, token));
                    lemma_position_unique(self@.tokens, ix as int);
                    assert forall|k: int| 0 <= k < self@.links.len() implies #[trigger] self@.bundle_wf(
                        k,
                    ) by {
                        assert(before.bundle_wf(k));
                        assert forall|i: int|
                            0 <= i < self@.bundles[k].len() implies #[trigger] self@.member_wf(
                            k,
                            i,
                        ) by {
                            assert(before.member_wf(k, i));
                        }
                    }
                    assert(self@.graph_links() =~= before.graph_links());
                }
                ix
            },
        }
    }

    /// Takes in a pool: its tokens become nodes unless they are nodes
    /// already, and the pool joins its bundle or starts it.
    fn take_in(&mut self, e: SubGraphEdge)
        requires
            old(self).carried(),
        ensures
            final(self).carried(),
            final(self)@ == old(self)@.with_edge(e),
            final(self).pair == old(self).pair,
            final(self).start_node == old(self).start_node,
            final(self).end_node == old(self).end_node,
    {
        let ghost g0 = self@;
        let n0 = self.node_for(e.info.info.token_0);
        let n1 = self.node_for(e.info.info.token_1);
        let ghost g1 = self@;
        let (from, to) = if e.info.token_0_in {
            (n0, n1)
        } else {
            (n1, n0)
        };
        proof {
            lemma_with_edge(g0, e);
            lemma_with_token(g0.tokens, e.info.info.token_0);
            let t1 = with_token(g0.tokens, e.info.info.token_0);
            lemma_with_token(t1, e.info.info.token_1);
            lemma_position(t1, e.info.info.token_0);
            lemma_position(g1.tokens, e.info.info.token_0);
            lemma_position(g1.tokens, e.info.info.token_1);
            let p0 = position(t1, e.info.info.token_0);
            assert(g1.tokens[p0] == e.info.info.token_0);
            lemma_position_unique(g1.tokens, p0);
            assert(n0 == position(g1.tokens, e.info.info.token_0));
            assert(from == position(g1.tokens, e.info.base()));
            assert(to == position(g1.tokens, e.info.quote()));
        }
        match find_link(&self.links, from, to) {
            Some(k) => {
                proof {
                    lemma_link_position(links_view(self.links@), from as int, to as int);
                }
                let mut bundle = clone_vec(&self.bundles[k]);
                bundle.push(e);
                self.bundles.set(k, bundle);
                proof {
                    assert(self@.bundles =~= g0.with_edge(e).bundles);
                    assert(self@.graph_links() =~= g1.graph_links());
                }
            },
            None => {
                let place = self.links.len();
                graph_add_edge(&mut self.graph, from, to, place);
                self.links.push((from, to));
                let mut bundle: Vec<SubGraphEdge> = Vec::new();
                bundle.push(e);
                self.bundles.push(bundle);
                proof {
                    assert(self@.links =~= g0.with_edge(e).links);
                    assert(self@.bundles =~= g0.with_edge(e).bundles);
                    assert(self@.graph_links() =~= g1.graph_links().push((from, to, place)));
                }
            },
        }
    }
}

/// The pools of several routes, one route after the other.
pub open spec fn all_edges(routes: Seq<Vec<SubGraphEdge>>) -> Seq<SubGraphEdge>
    decreases routes.len(),
{
    if routes.len() == 0 {
        Seq::empty()
    } else {
        all_edges(routes.drop_last()) + routes.last()@
    }
}

/// Whether edge `i` has the token as one of its two tokens.
pub open spec fn holds_token(edges: Seq<SubGraphEdge>, token: Address, i: int) -> bool {
    0 <= i < edges.len() && (edges[i].info.info.token_0 == token || edges[i].info.info.token_1
        == token)
}

/// Whether the token is a token of one of the edges.
pub open spec fn occurs(edges: Seq<SubGraphEdge>, token: Address) -> bool {
    exists|i: int| holds_token(edges, token, i)
}

/// A token of one of the edges has a node in the subgraph that the edges
/// make.
pub proof fn lemma_occurs_has_node(edges: Seq<SubGraphEdge>, token: Address)
    requires
        occurs(edges, token),
    ensures
        position(SubGraphView::built(edges).tokens, token) >= 0,
{
    let i = choose|i: int| holds_token(edges, token, i);
    lemma_built_carries(edges, i);
}

/// Whether the token is a token of one of the edges of the routes.
pub fn mentions(edges: &Vec<Vec<SubGraphEdge>>, token: Address) -> (b: bool)
    ensures
        b == occurs(all_edges(edges@), token),
{
    let mut r: usize = 0;
    while r < edges.len()
        invariant
            r <= edges@.len(),
            forall|q: int, j: int|
                0 <= q < r && 0 <= j < edges@[q]@.len() ==> (#[trigger] edges@[q]@[j]).info.info.token_0
                    != token && edges@[q]@[j].info.info.token_1 != token,
        decreases edges@.len() - r,
    {
        let route = &edges[r];
        let mut j: usize = 0;
        while j < route.len()
            invariant
                j <= route@.len(),
                r < edges@.len(),
                route@ == edges@[r as int]@,
                forall|k: int|
                    0 <= k < j ==> (#[trigger] route@[k]).info.info.token_0 != token
                        && route@[k].info.info.token_1 != token,
            decreases route@.len() - j,
        {
            if route[j].info.info.token_0 == token || route[j].info.info.token_1 == token {
                proof {
                    lemma_all_edges_hold(edges@, r as int, j as int);
                    let i = choose|i: int|
                        0 <= i < all_edges(edges@).len() && #[trigger] all_edges(edges@)[i]
                            == edges@[r as int]@[j as int];
                    assert(holds_token(all_edges(edges@), token, i));
                }
                return true;
            }
            j = j + 1;
        }
        r = r + 1;
    }
    proof {
        if occurs(all_edges(edges@), token) {
            let i = choose|i: int| holds_token(all_edges(edges@), token, i);
            lemma_all_edges_from(edges@, i);
            let (q, j) = choose|q: int, j: int|
                0 <= q < edges@.len() && 0 <= j < edges@[q]@.len() && all_edges(edges@)[i]
                    == #[trigger] edges@[q]@[j];
            assert(edges@[q]@[j].info.info.token_0 != token);
        }
    }
    false
}

impl PairSubGraph {
    /// The subgraph of a pair, made of the pools of the pair's routes. Both
    /// tokens of the pair have to be tokens of the routes.
    pub fn init(pair: Pair, edges: Vec<Vec<SubGraphEdge>>) -> (g: PairSubGraph)
        requires
            occurs(all_edges(edges@), pair.0),
            occurs(all_edges(edges@), pair.1),
        ensures
            g.wf(),
            g@ == SubGraphView::built(all_edges(edges@)),
            g.pair() == pair,
            g.start() == position(g@.tokens, pair.0),
            g.end() == position(g@.tokens, pair.1),
            (forall|r: int| 0 <= r < edges@.len() ==> is_chain((#[trigger] edges@[r])@, pair))
                ==> g@.routed(g.start(), g.end()),
    {
        let mut g = PairSubGraph {
            pair,
            graph: graph_new(),
            tokens: Vec::new(),
            links: Vec::new(),
            bundles: Vec::new(),
            start_node: 0,
            end_node: 0,
        };
        proof {
            assert(g@.links =~= SubGraphView::empty().links);
            assert(g@.bundles =~= SubGraphView::empty().bundles);
            assert(g@.graph_links() =~= graph_edges(g.graph));
            assert(edges@.take(0) =~= Seq::<Vec<SubGraphEdge>>::empty());
        }
        let mut i: usize = 0;
        while i < edges.len()
            invariant
                i <= edges@.len(),
                g.carried(),
                g.pair == pair,
                g@ == SubGraphView::built(all_edges(edges@.take(i as int))),
            decreases edges@.len() - i,
        {
            let route = &edges[i];
            let ghost done = all_edges(edges@.take(i as int));
            let mut j: usize = 0;
            proof {
                assert(done + route@.take(0) =~= done);
            }
            while j < route.len()
                invariant
                    j <= route@.len(),
                    g.carried(),
                    g.pair == pair,
                    g@ == SubGraphView::built(done + route@.take(j as int)),
                decreases route@.len() - j,
            {
                proof {
                    let next = done + route@.take(j + 1);
                    assert(next.drop_last() =~= done + route@.take(j as int));
                    assert(next.last() == route@[j as int]);
                }
                g.take_in(route[j]);
                j = j + 1;
            }
            proof {
                assert(route@.take(route@.len() as int) =~= route@);
                assert(edges@.take(i + 1).drop_last() =~= edges@.take(i as int));
                assert(edges@.take(i + 1).last() == edges@[i as int]);
            }
            i = i + 1;
        }
        proof {
            assert(edges@.take(edges@.len() as int) =~= edges@);
            lemma_position(g.tokens@, pair.0);
            lemma_position(g.tokens@, pair.1);
            lemma_occurs_has_node(all_edges(edges@), pair.0);
            lemma_occurs_has_node(all_edges(edges@), pair.1);
        }
        let start_node = match find_token(&g.tokens, pair.0) {
            Some(n) => n,
            None => vstd::pervasive::unreached(),
        };
        let end_node = match find_token(&g.tokens, pair.1) {
            Some(n) => n,
            None => vstd::pervasive::unreached(),
        };
        g.start_node = start_node;
        g.end_node = end_node;
        proof {
            if forall|r: int| 0 <= r < edges@.len() ==> is_chain((#[trigger] edges@[r])@, pair) {
                lemma_routes_routed(edges@, pair);
            }
        }
        g
    }

    /// Whether the store has a state for every pool of the subgraph.
    pub fn is_priced_by(&self, states: &PoolStates) -> (b: bool)
        requires
            states.wf(),
        ensures
            b == self.priced_by(*states),
    {
        let mut k: usize = 0;
        while k < self.bundles.len()
            invariant
                k <= self.bundles@.len(),
                states.wf(),
                forall|q: int|
                    0 <= q < k ==> bundle_covered(#[trigger] self@.bundles[q], states@),
            decreases self.bundles@.len() - k,
        {
            let bundle = &self.bundles[k];
            let mut i: usize = 0;
            while i < bundle.len()
                invariant
                    i <= bundle@.len(),
                    states.wf(),
                    k < self.bundles@.len(),
                    bundle@ == self@.bundles[k as int],
                    forall|q: int| 0 <= q < i ==> states@.contains_key((#[trigger] bundle@[q]).pool()),
                decreases bundle@.len() - i,
            {
                if !states.contains(bundle[i].info.info.pool_addr) {
                    assert(!bundle_covered(self@.bundles[k as int], states@));
                    return false;
                }
                i = i + 1;
            }
            k = k + 1;
        }
        true
    }

    /// The price of the pair: how much of the quote token one base token
    /// buys along a cheapest route through the subgraph. There is no price
    /// where the two tokens of the pair are the same or no route of
    /// crossable bundles leads from the base token to the quote token. The
    /// price is what the search over the subgraph's market gives, so that
    /// among routes that cost the same the one that the search settles
    /// first prices the pair.
    pub fn fetch_price(&self, edge_state: &PoolStates) -> (r: Option<Rational>)
        requires
            self.wf(),
            edge_state.wf(),
            self.priced_by(*edge_state),
        ensures
            r matches Some(price) ==> price.wf(),
            self.market(*edge_state).priced(self.start(), self.end(), answer(r)),
            answer(r) == oracle(self.market(*edge_state), self.start(), self.end()),
    {
        proof {
            let m = self.market(*edge_state);
            assert forall|k: int| 0 <= k < m.edges.len() implies #[trigger] m.edge_wf(k) by {
                assert(self@.bundle_wf(k));
                assert(bundle_covered(self@.bundles[k], edge_state@));
            }
        }
        dijkstra_path(&self.graph, &self.bundles, self.start_node, self.end_node, edge_state)
    }
}

/// How many hops beyond the pair's shortest route a route through a new
/// pool may have for the pool to be taken in.
pub const EXTRA_HOPS: u128 = 1;

/// What is asked of the pools of a subgraph: the hops to arrive at a node,
/// the hops to go on from a node, or the length of the route of a pool.
pub enum Measure {
    Arrival(usize),
    Departure(usize),
    Length,
}

impl SubGraphView {
    /// What pool `i` of bundle `k` says to a measure: arriving at the node
    /// where the bundle ends takes one hop more than the pool has before
    /// it; going on from the node where the bundle starts takes one hop
    /// more than the pool has behind it; and the route of the pool has the
    /// hops before it, the pool, and the hops behind it.
    pub open spec fn reading(self, measure: Measure, k: int, i: int) -> Option<int> {
        let e = self.bundles[k][i];
        match measure {
            Measure::Arrival(node) => if self.links[k].1 == node {
                Some(e.distance_to_start_node + 1)
            } else {
                None
            },
            Measure::Departure(node) => if self.links[k].0 == node {
                Some(e.distance_to_end_node + 1)
            } else {
                None
            },
            Measure::Length => Some(e.distance_to_start_node + 1 + e.distance_to_end_node),
        }
    }

    /// Whether pool `i` of bundle `k` reads `d`.
    pub open spec fn reads(self, measure: Measure, k: int, i: int, d: int) -> bool {
        &&& 0 <= k < self.bundles.len()
        &&& 0 <= i < self.bundles[k].len()
        &&& self.reading(measure, k, i) == Some(d)
    }

    /// Whether some pool reads `d`.
    pub open spec fn read(self, measure: Measure, d: int) -> bool {
        exists|k: int, i: int| self.reads(measure, k, i, d)
    }

    /// Whether `d` is the least that any pool reads.
    pub open spec fn least(self, measure: Measure, d: int) -> bool {
        &&& self.read(measure, d)
        &&& forall|k: int, i: int, other: int| #[trigger]
            self.reads(measure, k, i, other) ==> d <= other
    }

    /// Whether `d` is the number of hops from the start to `node`, as far
    /// as the pools tell: none for the start itself.
    pub open spec fn depth(self, start: int, node: usize, d: int) -> bool {
        if node == start {
            d == 0
        } else {
            self.least(Measure::Arrival(node), d)
        }
    }

    /// Whether `d` is the number of hops from `node` to the end, as far as
    /// the pools tell: none for the end itself.
    pub open spec fn height(self, end: int, node: usize, d: int) -> bool {
        if node == end {
            d == 0
        } else {
            self.least(Measure::Departure(node), d)
        }
    }

    /// Whether a pool that leads from node `from` to node `to` lies on a
    /// route that is at most `EXTRA_HOPS` longer than the shortest route of
    /// the subgraph, with `before` hops before it and `after` behind it.
    pub open spec fn admits(self, start: int, end: int, from: usize, to: usize, before: int, after: int) -> bool {
        &&& self.depth(start, from, before)
        &&& self.height(end, to, after)
        &&& before <= usize::MAX
        &&& after <= usize::MAX
        &&& exists|shortest: int| #[trigger]
            self.least(Measure::Length, shortest) && before + 1 + after <= shortest + EXTRA_HOPS
    }
}

/// What is least is one number.
pub proof fn lemma_least_unique(g: SubGraphView, measure: Measure, a: int, b: int)
    requires
        g.least(measure, a),
        g.least(measure, b),
    ensures
        a == b,
{
    let (k, i) = choose|k: int, i: int| g.reads(measure, k, i, a);
    let (q, j) = choose|q: int, j: int| g.reads(measure, q, j, b);
    assert(g.reads(measure, k, i, a));
    assert(g.reads(measure, q, j, b));
}

impl PairSubGraph {
    /// What a pool says to a measure.
    fn reading_of(&self, measure: &Measure, k: usize, i: usize) -> (r: Option<u128>)
        requires
            k < self.bundles@.len(),
            i < self.bundles@[k as int]@.len(),
            self@.links.len() == self@.bundles.len(),
        ensures
            match r {
                Some(d) => self@.reading(*measure, k as int, i as int) == Some(d as int),
                None => self@.reading(*measure, k as int, i as int) is None,
            },
    {
        let e = self.bundles[k][i];
        let link = self.links[k];
        assert(self@.links[k as int] == (link.0 as int, link.1 as int));
        assert(self@.bundles[k as int][i as int] == e);
        match measure {
            Measure::Arrival(node) => {
                if link.1 == *node {
                    Some(e.distance_to_start_node as u128 + 1)
                } else {
                    None
                }
            },
            Measure::Departure(node) => {
                if link.0 == *node {
                    Some(e.distance_to_end_node as u128 + 1)
                } else {
                    None
                }
            },
            Measure::Length => Some(
                e.distance_to_start_node as u128 + 1 + e.distance_to_end_node as u128,
            ),
        }
    }

    /// The least that any pool says to a measure, if any pool says
    /// something.
    fn least_reading(&self, measure: &Measure) -> (r: Option<u128>)
        requires
            self@.links.len() == self@.bundles.len(),
        ensures
            match r {
                Some(d) => self@.least(*measure, d as int),
                None => forall|d: int| !self@.read(*measure, d),
            },
    {
        let mut best: Option<u128> = None;
        let mut k: usize = 0;
        while k < self.bundles.len()
            invariant
                k <= self.bundles@.len(),
                self@.links.len() == self@.bundles.len(),
                best matches Some(d) ==> self@.read(*measure, d as int),
                forall|q: int, j: int, other: int|
                    q < k && #[trigger] self@.reads(*measure, q, j, other) ==> best is Some
                        && best->0 <= other,
            decreases self.bundles@.len() - k,
        {
            let mut i: usize = 0;
            while i < self.bundles[k].len()
                invariant
                    k < self.bundles@.len(),
                    i <= self.bundles@[k as int]@.len(),
                    self@.links.len() == self@.bundles.len(),
                    best matches Some(d) ==> self@.read(*measure, d as int),
                    forall|q: int, j: int, other: int|
                        (q < k || (q == k && j < i)) && #[trigger] self@.reads(
                            *measure,
                            q,
                            j,
                            other,
                        ) ==> best is Some && best->0 <= other,
                decreases self.bundles@[k as int]@.len() - i,
            {
                match self.reading_of(measure, k, i) {
                    Some(d) => {
                        assert(self@.reads(*measure, k as int, i as int, d as int));
                        let lower = match best {
                            Some(b) => d < b,
                            None => true,
                        };
                        if lower {
                            best = Some(d);
                        }
                    },
                    None => {},
                }
                i = i + 1;
            }
            k = k + 1;
        }
        proof {
            if best is None {
                assert forall|d: int| !self@.read(*measure, d) by {
                    if self@.read(*measure, d) {
                        let (q, j) = choose|q: int, j: int| self@.reads(*measure, q, j, d);
                        assert(self@.reads(*measure, q, j, d));
                    }
                }
            }
        }
        best
    }

    /// Offers the subgraph a newly discovered pool. The pool is taken in
    /// where both its tokens are nodes already and the pool lies on a route
    /// from start to end that is at most `EXTRA_HOPS` longer than the
    /// shortest one; it then joins the bundle of its two tokens, or starts
    /// it. Any other pool leaves the subgraph as it is. Nothing is ever
    /// taken out.
    pub fn add_new_node(&mut self, edge: PoolPairInfoDirection) -> (added: bool)
        requires
            old(self).wf(),
        ensures
            final(self).wf(),
            final(self).pair() == old(self).pair(),
            final(self).start() == old(self).start(),
            final(self).end() == old(self).end(),
            added == (position(old(self)@.tokens, edge.base()) >= 0 && position(
                old(self)@.tokens,
                edge.quote(),
            ) >= 0 && exists|before: int, after: int| #[trigger]
                old(self)@.admits(
                    old(self).start(),
                    old(self).end(),
                    position(old(self)@.tokens, edge.base()) as usize,
                    position(old(self)@.tokens, edge.quote()) as usize,
                    before,
                    after,
                )),
            !added ==> final(self)@ == old(self)@,
            old(self)@.routed(old(self).start(), old(self).end()) ==> final(self)@.routed(
                final(self).start(),
                final(self).end(),
            ),
            added ==> exists|before: int, after: int|
                {
                    &&& #[trigger] old(self)@.admits(
                        old(self).start(),
                        old(self).end(),
                        position(old(self)@.tokens, edge.base()) as usize,
                        position(old(self)@.tokens, edge.quote()) as usize,
                        before,
                        after,
                    )
                    &&& final(self)@ == old(self)@.with_edge(
                        SubGraphEdge {
                            info: edge,
                            distance_to_start_node: before as usize,
                            distance_to_end_node: after as usize,
                        },
                    )
                },
    {
        let ghost g = self@;
        let ghost start = self.start();
        let ghost end = self.end();
        proof {
            lemma_position(g.tokens, edge.base());
            lemma_position(g.tokens, edge.quote());
        }
        let from = match find_token(&self.tokens, edge.get_base_token()) {
            Some(n) => n,
            None => {
                return false;
            },
        };
        let to = match find_token(&self.tokens, edge.get_quote_token()) {
            Some(n) => n,
            None => {
                return false;
            },
        };
        let before = if from == self.start_node {
            Some(0u128)
        } else {
            self.least_reading(&Measure::Arrival(from))
        };
        let after = if to == self.end_node {
            Some(0u128)
        } else {
            self.least_reading(&Measure::Departure(to))
        };
        let shortest = self.least_reading(&Measure::Length);
        let fits = match (before, after, shortest) {
            (Some(b), Some(a), Some(s)) => {
                b <= usize::MAX as u128 && a <= usize::MAX as u128 && b + 1 + a <= s + EXTRA_HOPS
            },
            _ => false,
        };
        if !fits {
            proof {
                assert forall|b: int, a: int| !#[trigger] g.admits(start, end, from, to, b, a) by {
                    if g.admits(start, end, from, to, b, a) {
                        let s = choose|s: int| #[trigger]
                            g.least(Measure::Length, s) && b + 1 + a <= s + EXTRA_HOPS;
                        if from != start {
                            lemma_least_unique(g, Measure::Arrival(from), b, before->0 as int);
                        }
                        if to != end {
                            lemma_least_unique(g, Measure::Departure(to), a, after->0 as int);
                        }
                        lemma_least_unique(g, Measure::Length, s, shortest->0 as int);
                    }
                }
            }
            return false;
        }
        let b = before.unwrap();
        let a = after.unwrap();
        let e = SubGraphEdge {
            info: edge,
            distance_to_start_node: b as usize,
            distance_to_end_node: a as usize,
        };
        proof {
            assert(g.least(Measure::Length, shortest->0 as int));
            assert(g.admits(start, end, from, to, b as int, a as int));
            lemma_with_edge(g, e);
            if g.routed(start, end) {
                lemma_routed_kept(g, e, start, end);
            }
        }
        self.take_in(e);
        proof {
            assert(position(g.tokens, edge.base()) as usize == from);
            assert(position(g.tokens, edge.quote()) as usize == to);
            assert((b as int) as usize == b as usize);
            assert((a as int) as usize == a as usize);
            assert(g.admits(
                start,
                end,
                position(g.tokens, edge.base()) as usize,
                position(g.tokens, edge.quote()) as usize,
                b as int,
                a as int,
            ));
            assert(self@ == g.with_edge(
                SubGraphEdge {
                    info: edge,
                    distance_to_start_node: (b as int) as usize,
                    distance_to_end_node: (a as int) as usize,
                },
            ));
        }
        true
    }
}

} // verus!
