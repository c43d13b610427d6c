//! Pools with more of everything: a store in which every pool holds `c`
//! times the reserves quotes every bundle at the same price and at `c`
//! times the liquidity, and so leaves every price of the search as it was.

use vstd::prelude::*;
use crate::market::{
    SubGraphEdge, bundle_covered, bundle_tvl, edge_price, edge_weight, last_price,
    lemma_sums_positive, lemma_usable_positive, local_price, step_cost, step_factor, sum_priced,
    sum_side_0, sum_side_1, sum_weight, usable,
};
use crate::pool::PoolStateView;
use crate::primitives::Address;

verus! {

/// A pool state with both reserves multiplied by `c`.
pub open spec fn deepened(v: PoolStateView, c: real) -> PoolStateView {
    PoolStateView { reserve_0: c * v.reserve_0, reserve_1: c * v.reserve_1, ..v }
}

/// Whether the second store holds the pools of the first, each with both
/// reserves multiplied by `c`.
pub open spec fn scaled_states(
    states: Map<Address, PoolStateView>,
    other: Map<Address, PoolStateView>,
    c: real,
) -> bool {
    &&& c > 0real
    &&& other.dom() == states.dom()
    &&& forall|a: Address| states.contains_key(a) ==> #[trigger] other[a] == deepened(states[a], c)
}

/// A pool with `c` times the reserves quotes the same price and has `c`
/// times the liquidity on each side.
pub proof fn lemma_pool_scaled(
    e: SubGraphEdge,
    states: Map<Address, PoolStateView>,
    other: Map<Address, PoolStateView>,
    c: real,
)
    requires
        scaled_states(states, other, c),
        states.contains_key(e.pool()),
    ensures
        edge_price(e, other) == edge_price(e, states),
        edge_weight(e, other) == c * edge_weight(e, states),
        (edge_weight(e, other) != 0real) == (edge_weight(e, states) != 0real),
        other[e.pool()].tvl(e.info.base()).0 == c * states[e.pool()].tvl(e.info.base()).0,
        other[e.pool()].tvl(e.info.base()).1 == c * states[e.pool()].tvl(e.info.base()).1,
{
    let v = states[e.pool()];
    let w = other[e.pool()];
    assert(w == deepened(v, c));
    let base = e.info.base();
    let a = v.other_reserve(base);
    let b = v.base_reserve(base);
    assert(w.other_reserve(base) == c * a) by (nonlinear_arith)
        requires
            w.other_reserve(base) == c * a || (w.other_reserve(base) == 0real && a == 0real),
    ;
    assert(w.base_reserve(base) == c * b) by (nonlinear_arith)
        requires
            w.base_reserve(base) == c * b || (w.base_reserve(base) == 0real && b == 0real),
    ;
    assert((c * a > 0real) == (a > 0real)) by (nonlinear_arith)
        requires
            c > 0real,
    ;
    assert((c * b > 0real) == (b > 0real)) by (nonlinear_arith)
        requires
            c > 0real,
    ;
    assert(w.live(base) == v.live(base));
    if v.live(base) {
        assert((c * a) / (c * b) == a / b) by (nonlinear_arith)
            requires
                c > 0real,
                b > 0real,
        ;
        assert(c * b + c * b == c * (b + b)) by (nonlinear_arith);
        assert((c * (b + b) != 0real) == (b + b != 0real)) by (nonlinear_arith)
            requires
                c > 0real,
        ;
    } else {
        assert(c * 0real == 0real) by (nonlinear_arith);
        assert(c * (0real + 0real) == 0real) by (nonlinear_arith);
    }
}

/// The sums over a bundle whose pools have `c` times the reserves are `c`
/// times what they were, and the price of its last pool with liquidity is
/// what it was.
pub proof fn lemma_sums_scaled(
    bundle: Seq<SubGraphEdge>,
    states: Map<Address, PoolStateView>,
    other: Map<Address, PoolStateView>,
    c: real,
)
    requires
        scaled_states(states, other, c),
        bundle_covered(bundle, states),
    ensures
        sum_priced(bundle, other) == c * sum_priced(bundle, states),
        sum_weight(bundle, other) == c * sum_weight(bundle, states),
        sum_side_0(bundle, other) == c * sum_side_0(bundle, states),
        sum_side_1(bundle, other) == c * sum_side_1(bundle, states),
        last_price(bundle, other) == last_price(bundle, states),
        usable(bundle, other) == usable(bundle, states),
    decreases bundle.len(),
{
    if bundle.len() == 0 {
        assert(c * 0real == 0real) by (nonlinear_arith);
    } else {
        let rest = bundle.drop_last();
        let e = bundle.last();
        assert(states.contains_key(bundle[bundle.len() - 1].pool()));
        assert forall|i: int| 0 <= i < rest.len() implies states.contains_key(
            (#[trigger] rest[i]).pool(),
        ) by {
            assert(rest[i] == bundle[i]);
        }
        lemma_sums_scaled(rest, states, other, c);
        lemma_pool_scaled(e, states, other, c);
        let p = edge_price(e, states);
        let w = edge_weight(e, states);
        let sp = sum_priced(rest, states);
        assert(c * sp + p * (c * w) == c * (sp + p * w)) by (nonlinear_arith);
        let sw = sum_weight(rest, states);
        assert(c * sw + c * w == c * (sw + w)) by (nonlinear_arith);
        let s0 = sum_side_0(rest, states);
        let t0 = states[e.pool()].tvl(e.info.base()).0;
        assert(c * s0 + c * t0 == c * (s0 + t0)) by (nonlinear_arith);
        let s1 = sum_side_1(rest, states);
        let t1 = states[e.pool()].tvl(e.info.base()).1;
        assert(c * s1 + c * t1 == c * (s1 + t1)) by (nonlinear_arith);
    }
    let total = sum_weight(bundle, states);
    assert((c * total != 0real) == (total != 0real)) by (nonlinear_arith)
        requires
            c > 0real,
    ;
}

/// A bundle whose pools have `c` times the reserves can be crossed where it
/// could before, at the same price and at a `c`-th of the cost.
pub proof fn lemma_bundle_scaled(
    bundle: Seq<SubGraphEdge>,
    states: Map<Address, PoolStateView>,
    other: Map<Address, PoolStateView>,
    c: real,
)
    requires
        scaled_states(states, other, c),
        bundle_covered(bundle, states),
    ensures
        usable(bundle, other) == usable(bundle, states),
        usable(bundle, states) ==> step_factor(bundle, other) == step_factor(bundle, states),
        usable(bundle, states) ==> step_cost(bundle, other) == step_cost(bundle, states) / c,
{
    lemma_sums_scaled(bundle, states, other, c);
    if usable(bundle, states) {
        lemma_sums_positive(bundle, states);
        lemma_usable_positive(bundle, states);
        let pxw = sum_priced(bundle, states);
        let w = sum_weight(bundle, states);
        let deep_pxw = sum_priced(bundle, other);
        let deep_w = sum_weight(bundle, other);
        assert(deep_pxw / deep_w == pxw / w) by (nonlinear_arith)
            requires
                deep_pxw == c * pxw,
                deep_w == c * w,
                c > 0real,
                w > 0real,
        ;
        let s0 = sum_side_0(bundle, states);
        let s1 = sum_side_1(bundle, states);
        let deep_s0 = sum_side_0(bundle, other);
        let deep_s1 = sum_side_1(bundle, other);
        let pl = last_price(bundle, states);
        let ratio = pl / local_price(bundle, states);
        let tvl = bundle_tvl(bundle, states);
        let deep_tvl = bundle_tvl(bundle, other);
        assert(deep_s0 * pl + deep_s1 * ratio == c * (s0 * pl + s1 * ratio)) by (nonlinear_arith)
            requires
                deep_s0 == c * s0,
                deep_s1 == c * s1,
        ;
        assert(deep_tvl == c * tvl);
        assert(1real / deep_tvl == (1real / tvl) / c) by (nonlinear_arith)
            requires
                deep_tvl == c * tvl,
                c > 0real,
                tvl > 0real,
        ;
    }
}

} // verus!
