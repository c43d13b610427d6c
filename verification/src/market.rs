//! What a pair's pools say about its price: the quote of a bundle of
//! parallel pools, and the cost and price of a route through the graph.

use vstd::prelude::*;
use crate::primitives::Address;
use crate::actions::Protocol;
use crate::pool::{PoolStateView, PoolStates};
use crate::rational::Rational;

verus! {

/// A pool and its two tokens.
#[derive(Clone, Copy, Debug, PartialEq, Eq, Structural)]
pub struct PoolPairInformation {
    pub pool_addr: Address,
    pub dex_type: Protocol,
    pub token_0: Address,
    pub token_1: Address,
}

/// A pool with the direction in which it is crossed.
#[derive(Clone, Copy, Debug, PartialEq, Eq, Structural)]
pub struct PoolPairInfoDirection {
    pub info: PoolPairInformation,
    pub token_0_in: bool,
}

impl PoolPairInfoDirection {
    /// The token that goes into the pool.
    pub open spec fn base(self) -> Address {
        if self.token_0_in {
            self.info.token_0
        } else {
            self.info.token_1
        }
    }

    /// The token that comes out of the pool.
    pub open spec fn quote(self) -> Address {
        if self.token_0_in {
            self.info.token_1
        } else {
            self.info.token_0
        }
    }

    /// The token that goes into the pool.
    pub fn get_base_token(&self) -> (t: Address)
        ensures
            t == self.base(),
    {
        if self.token_0_in {
            self.info.token_0
        } else {
            self.info.token_1
        }
    }

    /// The token that comes out of the pool.
    pub fn get_quote_token(&self) -> (t: Address)
        ensures
            t == self.quote(),
    {
        if self.token_0_in {
            self.info.token_1
        } else {
            self.info.token_0
        }
    }

    /// The same pool crossed the other way.
    pub fn flip(&self) -> (r: PoolPairInfoDirection)
        ensures
            r.info == self.info,
            r.token_0_in == !self.token_0_in,
    {
        PoolPairInfoDirection { info: self.info, token_0_in: !self.token_0_in }
    }
}

/// A pool on a route of a pair, with the number of hops that lie before it
/// and behind it on that route.
#[derive(Clone, Copy, Debug, PartialEq, Eq, Structural)]
pub struct SubGraphEdge {
    pub info: PoolPairInfoDirection,
    pub distance_to_start_node: usize,
    pub distance_to_end_node: usize,
}

impl SubGraphEdge {
    /// A pool on a route, crossed in the given direction.
    pub fn new(
        info: PoolPairInfoDirection,
        distance_to_start_node: usize,
        distance_to_end_node: usize,
    ) -> (e: SubGraphEdge)
        ensures
            e == (SubGraphEdge { info, distance_to_start_node, distance_to_end_node }),
    {
        SubGraphEdge { info, distance_to_start_node, distance_to_end_node }
    }

    /// The address of the pool.
    pub open spec fn pool(self) -> Address {
        self.info.info.pool_addr
    }
}

/// The price that a pool of a bundle quotes for the token that goes in.
pub open spec fn edge_price(e: SubGraphEdge, states: Map<Address, PoolStateView>) -> real {
    states[e.pool()].price(e.info.base())
}

/// The liquidity of a pool of a bundle, both sides together, priced in the
/// token that goes in.
pub open spec fn edge_weight(e: SubGraphEdge, states: Map<Address, PoolStateView>) -> real {
    states[e.pool()].tvl(e.info.base()).0 + states[e.pool()].tvl(e.info.base()).1
}

/// The sum of price times liquidity over the pools of a bundle.
pub open spec fn sum_priced(bundle: Seq<SubGraphEdge>, states: Map<Address, PoolStateView>) -> real
    decreases bundle.len(),
{
    if bundle.len() == 0 {
        0real
    } else {
        sum_priced(bundle.drop_last(), states) + edge_price(bundle.last(), states) * edge_weight(
            bundle.last(),
            states,
        )
    }
}

/// The sum of the liquidity of the pools of a bundle.
pub open spec fn sum_weight(bundle: Seq<SubGraphEdge>, states: Map<Address, PoolStateView>) -> real
    decreases bundle.len(),
{
    if bundle.len() == 0 {
        0real
    } else {
        sum_weight(bundle.drop_last(), states) + edge_weight(bundle.last(), states)
    }
}

/// The sum of the liquidity of the first side of the pools of a bundle.
pub open spec fn sum_side_0(bundle: Seq<SubGraphEdge>, states: Map<Address, PoolStateView>) -> real
    decreases bundle.len(),
{
    if bundle.len() == 0 {
        0real
    } else {
        sum_side_0(bundle.drop_last(), states) + states[bundle.last().pool()].tvl(
            bundle.last().info.base(),
        ).0
    }
}

/// The sum of the liquidity of the second side of the pools of a bundle.
pub open spec fn sum_side_1(bundle: Seq<SubGraphEdge>, states: Map<Address, PoolStateView>) -> real
    decreases bundle.len(),
{
    if bundle.len() == 0 {
        0real
    } else {
        sum_side_1(bundle.drop_last(), states) + states[bundle.last().pool()].tvl(
            bundle.last().info.base(),
        ).1
    }
}

/// The price that the last pool with liquidity of a bundle quotes; zero
/// for a bundle in which no pool has liquidity. A pool without liquidity
/// takes no part in it.
pub open spec fn last_price(bundle: Seq<SubGraphEdge>, states: Map<Address, PoolStateView>) -> real
    decreases bundle.len(),
{
    if bundle.len() == 0 {
        0real
    } else if edge_weight(bundle.last(), states) != 0real {
        edge_price(bundle.last(), states)
    } else {
        last_price(bundle.drop_last(), states)
    }
}

/// The price of a bundle: the mean of the prices of its pools, each
/// weighted by the liquidity of its pool.
pub open spec fn local_price(bundle: Seq<SubGraphEdge>, states: Map<Address, PoolStateView>) -> real {
    sum_priced(bundle, states) / sum_weight(bundle, states)
}

/// The liquidity of a bundle: the first sides at the price of the last
/// pool with liquidity, the second sides at that price over the price of
/// the bundle.
pub open spec fn bundle_tvl(bundle: Seq<SubGraphEdge>, states: Map<Address, PoolStateView>) -> real {
    sum_side_0(bundle, states) * last_price(bundle, states) + sum_side_1(bundle, states) * (
    last_price(bundle, states) / local_price(bundle, states))
}

/// Whether a bundle can be crossed: it has liquidity. A bundle with
/// liquidity has a price and a value, whatever pools without liquidity it
/// holds besides.
pub open spec fn usable(bundle: Seq<SubGraphEdge>, states: Map<Address, PoolStateView>) -> bool {
    sum_weight(bundle, states) != 0real
}

/// What crossing a bundle costs: the deeper its liquidity, the less.
pub open spec fn step_cost(bundle: Seq<SubGraphEdge>, states: Map<Address, PoolStateView>) -> real {
    1real / bundle_tvl(bundle, states)
}

/// By what crossing a bundle multiplies the running node price.
pub open spec fn step_factor(bundle: Seq<SubGraphEdge>, states: Map<Address, PoolStateView>) -> real {
    1real / local_price(bundle, states)
}

/// Whether the store has a state for every pool of a bundle.
pub open spec fn bundle_covered(bundle: Seq<SubGraphEdge>, states: Map<Address, PoolStateView>) -> bool {
    forall|i: int| 0 <= i < bundle.len() ==> states.contains_key((#[trigger] bundle[i]).pool())
}

/// The price and the liquidity of every pool are not negative.
pub proof fn lemma_edge_not_negative(e: SubGraphEdge, states: Map<Address, PoolStateView>)
    ensures
        edge_price(e, states) >= 0real,
        edge_weight(e, states) >= 0real,
        states[e.pool()].tvl(e.info.base()).0 >= 0real,
        states[e.pool()].tvl(e.info.base()).1 >= 0real,
        edge_price(e, states) * edge_weight(e, states) >= 0real,
{
    let view = states[e.pool()];
    let base = e.info.base();
    if view.live(base) {
        let a = view.other_reserve(base);
        let b = view.base_reserve(base);
        assert(a / b > 0real) by (nonlinear_arith)
            requires
                a > 0real,
                b > 0real,
        ;
    }
    let p = edge_price(e, states);
    let w = edge_weight(e, states);
    assert(p * w >= 0real) by (nonlinear_arith)
        requires
            p >= 0real,
            w >= 0real,
    ;
}

/// The sums over a bundle are not negative.
pub proof fn lemma_sums_not_negative(bundle: Seq<SubGraphEdge>, states: Map<Address, PoolStateView>)
    ensures
        sum_priced(bundle, states) >= 0real,
        sum_weight(bundle, states) >= 0real,
        sum_side_0(bundle, states) >= 0real,
        sum_side_1(bundle, states) >= 0real,
        last_price(bundle, states) >= 0real,
    decreases bundle.len(),
{
    if bundle.len() > 0 {
        lemma_sums_not_negative(bundle.drop_last(), states);
        lemma_edge_not_negative(bundle.last(), states);
    }
}

/// A pool with liquidity has a price, and liquidity on both sides.
pub proof fn lemma_edge_positive(e: SubGraphEdge, states: Map<Address, PoolStateView>)
    requires
        edge_weight(e, states) != 0real,
    ensures
        edge_weight(e, states) > 0real,
        edge_price(e, states) > 0real,
        states[e.pool()].tvl(e.info.base()).0 > 0real,
        states[e.pool()].tvl(e.info.base()).1 > 0real,
        edge_price(e, states) * edge_weight(e, states) > 0real,
{
    let view = states[e.pool()];
    let base = e.info.base();
    let a = view.other_reserve(base);
    let b = view.base_reserve(base);
    assert(view.live(base));
    assert(a / b > 0real) by (nonlinear_arith)
        requires
            a > 0real,
            b > 0real,
    ;
    let p = edge_price(e, states);
    let w = edge_weight(e, states);
    assert(p * w > 0real) by (nonlinear_arith)
        requires
            p > 0real,
            w > 0real,
    ;
}

/// In a bundle with liquidity every sum is positive, and so is the price of
/// its last pool with liquidity.
pub proof fn lemma_sums_positive(bundle: Seq<SubGraphEdge>, states: Map<Address, PoolStateView>)
    requires
        sum_weight(bundle, states) != 0real,
    ensures
        sum_priced(bundle, states) > 0real,
        sum_weight(bundle, states) > 0real,
        sum_side_0(bundle, states) > 0real,
        sum_side_1(bundle, states) > 0real,
        last_price(bundle, states) > 0real,
    decreases bundle.len(),
{
    if bundle.len() > 0 {
        let rest = bundle.drop_last();
        lemma_sums_not_negative(rest, states);
        lemma_edge_not_negative(bundle.last(), states);
        if edge_weight(bundle.last(), states) != 0real {
            lemma_edge_positive(bundle.last(), states);
        } else {
            lemma_sums_positive(rest, states);
        }
    }
}

/// A pool without liquidity that joins a bundle changes nothing in what
/// the bundle quotes: not its sums, not its price, not its liquidity, and
/// not whether it can be crossed.
pub proof fn lemma_dead_pool_leaves_quote(
    bundle: Seq<SubGraphEdge>,
    e: SubGraphEdge,
    states: Map<Address, PoolStateView>,
)
    requires
        edge_weight(e, states) == 0real,
    ensures
        sum_priced(bundle.push(e), states) == sum_priced(bundle, states),
        sum_weight(bundle.push(e), states) == sum_weight(bundle, states),
        sum_side_0(bundle.push(e), states) == sum_side_0(bundle, states),
        sum_side_1(bundle.push(e), states) == sum_side_1(bundle, states),
        last_price(bundle.push(e), states) == last_price(bundle, states),
        local_price(bundle.push(e), states) == local_price(bundle, states),
        bundle_tvl(bundle.push(e), states) == bundle_tvl(bundle, states),
        usable(bundle.push(e), states) == usable(bundle, states),
        step_cost(bundle.push(e), states) == step_cost(bundle, states),
        step_factor(bundle.push(e), states) == step_factor(bundle, states),
{
    let more = bundle.push(e);
    assert(more.drop_last() =~= bundle);
    assert(more.last() == e);
    lemma_edge_not_negative(e, states);
    let p = edge_price(e, states);
    assert(p * 0real == 0real) by (nonlinear_arith);
}

/// Crossing a usable bundle costs something, and multiplies the node price
/// by a positive number.
pub proof fn lemma_usable_positive(bundle: Seq<SubGraphEdge>, states: Map<Address, PoolStateView>)
    requires
        usable(bundle, states),
    ensures
        local_price(bundle, states) > 0real,
        bundle_tvl(bundle, states) > 0real,
        step_cost(bundle, states) > 0real,
        step_factor(bundle, states) > 0real,
{
    lemma_sums_positive(bundle, states);
    let pxw = sum_priced(bundle, states);
    let w = sum_weight(bundle, states);
    let lwp = local_price(bundle, states);
    assert(lwp > 0real) by (nonlinear_arith)
        requires
            pxw > 0real,
            w > 0real,
            lwp == pxw / w,
    ;
    let s0 = sum_side_0(bundle, states);
    let s1 = sum_side_1(bundle, states);
    let pl = last_price(bundle, states);
    let tvl = bundle_tvl(bundle, states);
    assert(pl / lwp >= 0real) by (nonlinear_arith)
        requires
            pl >= 0real,
            lwp > 0real,
    ;
    let ratio = pl / lwp;
    assert(s0 * pl + s1 * ratio > 0real) by (nonlinear_arith)
        requires
            s0 > 0real,
            s1 >= 0real,
            pl > 0real,
            ratio >= 0real,
    ;
    assert(1real / tvl > 0real) by (nonlinear_arith)
        requires
            tvl > 0real,
    ;
    assert(1real / lwp > 0real) by (nonlinear_arith)
        requires
            lwp > 0real,
    ;
}

/// What the sums over a bundle are after the first `k` pools.
spec fn tallied(
    bundle: Seq<SubGraphEdge>,
    states: Map<Address, PoolStateView>,
    k: int,
    pxw: real,
    weight: real,
    side_0: real,
    side_1: real,
    last: real,
) -> bool {
    &&& pxw == sum_priced(bundle.take(k), states)
    &&& weight == sum_weight(bundle.take(k), states)
    &&& side_0 == sum_side_0(bundle.take(k), states)
    &&& side_1 == sum_side_1(bundle.take(k), states)
    &&& last == last_price(bundle.take(k), states)
}

/// The sums over a bundle: price times liquidity, liquidity, the two sides,
/// and the price of the last pool.
fn tally(bundle: &Vec<SubGraphEdge>, state: &PoolStates) -> (r: (
    Rational,
    Rational,
    Rational,
    Rational,
    Rational,
))
    requires
        state.wf(),
        bundle_covered(bundle@, state@),
    ensures
        r.0.wf(),
        r.1.wf(),
        r.2.wf(),
        r.3.wf(),
        r.4.wf(),
        r.0.value() == sum_priced(bundle@, state@),
        r.1.value() == sum_weight(bundle@, state@),
        r.2.value() == sum_side_0(bundle@, state@),
        r.3.value() == sum_side_1(bundle@, state@),
        r.4.value() == last_price(bundle@, state@),
{
    let mut pxw = Rational::zero();
    let mut weight = Rational::zero();
    let mut side_0 = Rational::zero();
    let mut side_1 = Rational::zero();
    let mut last = Rational::zero();
    let mut k: usize = 0;
    assert(bundle@.take(0) =~= Seq::<SubGraphEdge>::empty());
    while k < bundle.len()
        invariant
            k <= bundle@.len(),
            state.wf(),
            bundle_covered(bundle@, state@),
            pxw.wf(),
            weight.wf(),
            side_0.wf(),
            side_1.wf(),
            last.wf(),
            tallied(
                bundle@,
                state@,
                k as int,
                pxw.value(),
                weight.value(),
                side_0.value(),
                side_1.value(),
                last.value(),
            ),
        decreases bundle@.len() - k,
    {
        let info = bundle[k];
        proof {
            assert(state@.contains_key(bundle@[k as int].pool()));
            assert(bundle@.take(k + 1).drop_last() =~= bundle@.take(k as int));
            assert(bundle@.take(k + 1).last() == bundle@[k as int]);
        }
        let pool_state = match state.get(info.info.info.pool_addr) {
            Some(pool_state) => pool_state,
            None => vstd::pervasive::unreached(),
        };
        let price = pool_state.get_price(info.info.get_base_token());
        let (t0, t1) = pool_state.get_tvl(info.info.get_base_token());
        let both = t0.plus(&t1);
        pxw = pxw.plus(&price.times(&both));
        weight = weight.plus(&both);
        side_0 = side_0.plus(&t0);
        side_1 = side_1.plus(&t1);
        if !both.is_zero() {
            last = price;
        }
        k = k + 1;
    }
    assert(bundle@.take(bundle@.len() as int) =~= bundle@);
    (pxw, weight, side_0, side_1, last)
}

/// Bundle mean: the price of a bundle of parallel pools is the sum of the
/// pools' prices, each times the liquidity of its pool, over the sum of the
/// liquidity. A bundle without liquidity has no price.
pub fn local_weighted_price(bundle: &Vec<SubGraphEdge>, state: &PoolStates) -> (r: Option<Rational>)
    requires
        state.wf(),
        bundle_covered(bundle@, state@),
    ensures
        r.is_some() == (sum_weight(bundle@, state@) != 0real),
        r matches Some(p) ==> p.wf() && p.value() == sum_priced(bundle@, state@) / sum_weight(
            bundle@,
            state@,
        ),
{
    let (pxw, weight, _side_0, _side_1, _last) = tally(bundle, state);
    pxw.divided_by(&weight)
}

/// The quote of a bundle: the factor by which crossing it multiplies the
/// node price, and what crossing it costs. There is none where the bundle
/// cannot be crossed.
pub fn quote_bundle(bundle: &Vec<SubGraphEdge>, state: &PoolStates) -> (r: Option<
    (Rational, Rational),
>)
    requires
        state.wf(),
        bundle_covered(bundle@, state@),
    ensures
        r.is_some() == usable(bundle@, state@),
        r matches Some((factor, cost)) ==> {
            &&& factor.wf()
            &&& cost.wf()
            &&& factor.value() == step_factor(bundle@, state@)
            &&& cost.value() == step_cost(bundle@, state@)
        },
{
    let (pxw, weight, side_0, side_1, last) = tally(bundle, state);
    if weight.is_zero() {
        return None;
    }
    proof {
        lemma_usable_positive(bundle@, state@);
    }
    let one = Rational::one();
    let local = pxw.over(&weight);
    let factor = one.over(&local);
    let ratio = last.over(&local);
    let tvl = side_0.times(&last).plus(&side_1.times(&ratio));
    let cost = one.over(&tvl);
    Some((factor, cost))
}

} // verus!
