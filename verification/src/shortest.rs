//! The routes of a pair: the shortest simple paths from the pair's base
//! token to its quote token through a universe of pools.

use vstd::prelude::*;
use crate::primitives::{Address, Pair};
use crate::actions::clone_vec;
use crate::market::{PoolPairInfoDirection, PoolPairInformation, SubGraphEdge};
use crate::dijkstra::{
    lemma_open_nodes_all, lemma_open_nodes_close, lemma_open_nodes_none, lemma_open_nodes_zero,
    open_nodes,
};
use crate::pool::{PoolStateView, PoolStates};
use crate::rational::Rational;

verus! {

/// One hop of a route: the place of a pool in the universe, and whether the
/// pool is crossed from its first token to its second.
pub type Step = (usize, bool);

/// The token that goes into the pool of a step.
pub open spec fn step_base(pools: Seq<PoolPairInformation>, s: Step) -> Address {
    if s.1 {
        pools[s.0 as int].token_0
    } else {
        pools[s.0 as int].token_1
    }
}

/// The token that comes out of the pool of a step.
pub open spec fn step_quote(pools: Seq<PoolPairInformation>, s: Step) -> Address {
    if s.1 {
        pools[s.0 as int].token_1
    } else {
        pools[s.0 as int].token_0
    }
}

/// Whether `steps` lead from the token `current` to the token `goal`
/// through pools of the universe, each step taking the token that the step
/// before it gave, without coming to a token that was seen before and
/// without coming to `goal` before the last step.
pub open spec fn continues(
    pools: Seq<PoolPairInformation>,
    steps: Seq<Step>,
    current: Address,
    goal: Address,
    seen: Seq<Address>,
) -> bool
    decreases steps.len(),
{
    if steps.len() == 0 {
        false
    } else {
        let s = steps[0];
        &&& s.0 < pools.len()
        &&& step_base(pools, s) == current
        &&& !seen.contains(step_quote(pools, s))
        &&& if steps.len() == 1 {
            step_quote(pools, s) == goal
        } else {
            step_quote(pools, s) != goal && continues(
                pools,
                steps.drop_first(),
                step_quote(pools, s),
                goal,
                seen.push(step_quote(pools, s)),
            )
        }
    }
}

/// Whether `steps` are a route of the pair: a simple path from the base
/// token to the quote token.
pub open spec fn is_simple_route(pools: Seq<PoolPairInformation>, pair: Pair, steps: Seq<Step>) -> bool {
    continues(pools, steps, pair.0, pair.1, seq![pair.0])
}

/// What a vector of routes holds.
pub open spec fn routes_view(routes: Seq<Vec<Step>>) -> Seq<Seq<Step>> {
    routes.map_values(|r: Vec<Step>| r@)
}

/// Whether a route stands among the routes at the places `from..to`.
pub open spec fn listed(routes: Seq<Seq<Step>>, from: int, to: int, route: Seq<Step>) -> bool {
    exists|i: int| from <= i < to && i < routes.len() && #[trigger] routes[i] == route
}

/// Whether the route at place `i` goes on from `prefix` with `remaining`
/// steps that lead from `current` to `goal`.
pub open spec fn extends(
    pools: Seq<PoolPairInformation>,
    routes: Seq<Seq<Step>>,
    i: int,
    prefix: Seq<Step>,
    current: Address,
    goal: Address,
    seen: Seq<Address>,
    remaining: int,
) -> bool {
    &&& routes[i].len() == prefix.len() + remaining
    &&& routes[i].take(prefix.len() as int) == prefix
    &&& continues(pools, routes[i].skip(prefix.len() as int), current, goal, seen)
}

/// What a search that has gone on from `prefix` has added to the routes
/// from place `from` on: what was there before is still there, and every
/// route that was added goes on from `prefix` and is added once.
pub open spec fn grown(
    pools: Seq<PoolPairInformation>,
    before: Seq<Seq<Step>>,
    after: Seq<Seq<Step>>,
    from: int,
    prefix: Seq<Step>,
    current: Address,
    goal: Address,
    seen: Seq<Address>,
    remaining: int,
) -> bool {
    &&& 0 <= from <= before.len() <= after.len()
    &&& forall|i: int| 0 <= i < before.len() ==> #[trigger] after[i] == before[i]
    &&& forall|i: int|
        from <= i < after.len() ==> #[trigger] extends(
            pools,
            after,
            i,
            prefix,
            current,
            goal,
            seen,
            remaining,
        )
    &&& forall|i: int, j: int|
        from <= i < j < after.len() ==> #[trigger] after[i] != #[trigger] after[j]
}

/// Whether every continuation whose first step satisfies `first` stands
/// among the routes from place `from` on.
pub open spec fn covers(
    pools: Seq<PoolPairInformation>,
    routes: Seq<Seq<Step>>,
    from: int,
    prefix: Seq<Step>,
    current: Address,
    goal: Address,
    seen: Seq<Address>,
    remaining: int,
    first: spec_fn(Step) -> bool,
) -> bool {
    forall|c: Seq<Step>|
        c.len() == remaining && #[trigger] continues(pools, c, current, goal, seen) && first(c[0])
            ==> listed(routes, from, routes.len() as int, prefix + c)
}

/// Whether an address is among the addresses.
fn holds_address(list: &Vec<Address>, a: Address) -> (r: bool)
    ensures
        r == list@.contains(a),
{
    let mut i: usize = 0;
    while i < list.len()
        invariant
            i <= list@.len(),
            forall|k: int| 0 <= k < i ==> list@[k] != a,
        decreases list@.len() - i,
    {
        if list[i] == a {
            return true;
        }
        i = i + 1;
    }
    false
}

/// The token that goes into the pool of a step, and the token that comes
/// out.
fn step_tokens(pools: &Vec<PoolPairInformation>, s: Step) -> (r: (Address, Address))
    requires
        s.0 < pools@.len(),
    ensures
        r.0 == step_base(pools@, s),
        r.1 == step_quote(pools@, s),
{
    if s.1 {
        (pools[s.0].token_0, pools[s.0].token_1)
    } else {
        (pools[s.0].token_1, pools[s.0].token_0)
    }
}

/// What a search has done that has gone on from `prefix` by the first
/// steps that satisfy `first`: it has added routes from place `from` on,
/// every one of them with such a first step, and it has added every
/// continuation with such a first step.
pub open spec fn searched(
    pools: Seq<PoolPairInformation>,
    before: Seq<Seq<Step>>,
    after: Seq<Seq<Step>>,
    from: int,
    prefix: Seq<Step>,
    current: Address,
    goal: Address,
    seen: Seq<Address>,
    remaining: int,
    first: spec_fn(Step) -> bool,
) -> bool {
    &&& grown(pools, before, after, from, prefix, current, goal, seen, remaining)
    &&& covers(pools, after, from, prefix, current, goal, seen, remaining, first)
    &&& forall|i: int| from <= i < after.len() ==> first((#[trigger] after[i])[prefix.len() as int])
}

/// A search that has done nothing yet.
proof fn lemma_searched_nothing(
    pools: Seq<PoolPairInformation>,
    routes: Seq<Seq<Step>>,
    prefix: Seq<Step>,
    current: Address,
    goal: Address,
    seen: Seq<Address>,
    remaining: int,
)
    ensures
        searched(
            pools,
            routes,
            routes,
            routes.len() as int,
            prefix,
            current,
            goal,
            seen,
            remaining,
            |x: Step| false,
        ),
{
}

/// Two searches, one after the other, by first steps of two kinds that
/// exclude each other, are one search by first steps of either kind.
proof fn lemma_searched_join(
    pools: Seq<PoolPairInformation>,
    before: Seq<Seq<Step>>,
    mid: Seq<Seq<Step>>,
    after: Seq<Seq<Step>>,
    from: int,
    prefix: Seq<Step>,
    current: Address,
    goal: Address,
    seen: Seq<Address>,
    remaining: int,
    f: spec_fn(Step) -> bool,
    g: spec_fn(Step) -> bool,
    both: spec_fn(Step) -> bool,
)
    requires
        remaining >= 1,
        searched(pools, before, mid, from, prefix, current, goal, seen, remaining, f),
        searched(pools, mid, after, mid.len() as int, prefix, current, goal, seen, remaining, g),
        forall|x: Step| #![trigger f(x)] !(f(x) && g(x)),
        forall|x: Step| #[trigger] both(x) == (f(x) || g(x)),
    ensures
        searched(pools, before, after, from, prefix, current, goal, seen, remaining, both),
{
    let n = prefix.len() as int;
    assert forall|i: int| 0 <= i < before.len() implies #[trigger] after[i] == before[i] by {
        assert(mid[i] == before[i]);
        assert(after[i] == mid[i]);
    }
    assert forall|i: int| from <= i < after.len() implies #[trigger] extends(
        pools,
        after,
        i,
        prefix,
        current,
        goal,
        seen,
        remaining,
    ) && both(after[i][n]) by {
        if i < mid.len() {
            assert(after[i] == mid[i]);
            assert(extends(pools, mid, i, prefix, current, goal, seen, remaining));
            assert(f(mid[i][n]));
        } else {
            assert(extends(pools, after, i, prefix, current, goal, seen, remaining));
            assert(g(after[i][n]));
        }
    }
    assert forall|i: int, j: int| from <= i < j < after.len() implies #[trigger] after[i]
        != #[trigger] after[j] by {
        if j < mid.len() {
            assert(after[i] == mid[i]);
            assert(after[j] == mid[j]);
            assert(mid[i] != mid[j]);
        } else if i < mid.len() {
            assert(after[i] == mid[i]);
            assert(f(mid[i][n]));
            assert(g(after[j][n]));
        }
    }
    assert forall|c: Seq<Step>|
        c.len() == remaining && #[trigger] continues(pools, c, current, goal, seen) && both(
            c[0],
        ) implies listed(after, from, after.len() as int, prefix + c) by {
        if f(c[0]) {
            assert(listed(mid, from, mid.len() as int, prefix + c));
            let i = choose|i: int| from <= i < mid.len() && #[trigger] mid[i] == prefix + c;
            assert(after[i] == mid[i]);
        } else {
            assert(listed(after, mid.len() as int, after.len() as int, prefix + c));
            let i = choose|i: int| mid.len() <= i < after.len() && #[trigger] after[i] == prefix + c;
            assert(after[i] == prefix + c);
        }
    }
}

/// A search by first steps of one kind is a search by first steps of any
/// kind that holds of the same steps.
proof fn lemma_searched_same(
    pools: Seq<PoolPairInformation>,
    before: Seq<Seq<Step>>,
    after: Seq<Seq<Step>>,
    from: int,
    prefix: Seq<Step>,
    current: Address,
    goal: Address,
    seen: Seq<Address>,
    remaining: int,
    f: spec_fn(Step) -> bool,
    g: spec_fn(Step) -> bool,
)
    requires
        searched(pools, before, after, from, prefix, current, goal, seen, remaining, f),
        forall|x: Step| #[trigger] f(x) == g(x),
    ensures
        searched(pools, before, after, from, prefix, current, goal, seen, remaining, g),
{
    assert forall|i: int| from <= i < after.len() implies g(
        (#[trigger] after[i])[prefix.len() as int],
    ) by {
        assert(f(after[i][prefix.len() as int]));
    }
}

/// Goes on from `prefix` by one step, if the step can be taken, and adds
/// every route that continues from there in `remaining` steps.
fn try_step(
    pools: &Vec<PoolPairInformation>,
    prefix: &Vec<Step>,
    current: Address,
    goal: Address,
    seen: &Vec<Address>,
    remaining: usize,
    s: Step,
    out: &mut Vec<Vec<Step>>,
)
    requires
        remaining >= 1,
        s.0 < pools@.len(),
    ensures
        searched(
            pools@,
            routes_view(old(out)@),
            routes_view(final(out)@),
            old(out)@.len() as int,
            prefix@,
            current,
            goal,
            seen@,
            remaining as int,
            |x: Step| x == s,
        ),
    decreases remaining, 0int,
{
    let ghost before = routes_view(out@);
    let ghost only = |x: Step| x == s;
    let (base, quote) = step_tokens(pools, s);
    let usable = base == current && !holds_address(seen, quote);
    if !usable || (remaining == 1 && quote != goal) || (remaining > 1 && quote == goal) {
        proof {
            assert forall|c: Seq<Step>|
                c.len() == remaining && #[trigger] continues(pools@, c, current, goal, seen@)
                    && only(c[0]) implies listed(before, before.len() as int, before.len() as int, prefix@ + c) by {
                assert(c[0] == s);
            }
        }
        return ;
    }
    let mut longer = clone_vec(prefix);
    longer.push(s);
    if remaining == 1 {
        let ghost route = longer@;
        out.push(longer);
        proof {
            let after = routes_view(out@);
            let at = before.len() as int;
            assert(after[at] == route);
            assert(route =~= prefix@ + seq![s]);
            assert(route.take(prefix@.len() as int) =~= prefix@);
            assert(route.skip(prefix@.len() as int) =~= seq![s]);
            assert(continues(pools@, seq![s], current, goal, seen@));
            assert(extends(pools@, after, at, prefix@, current, goal, seen@, 1));
            assert forall|i: int| 0 <= i < before.len() implies #[trigger] after[i] == before[i] by {}
            assert forall|c: Seq<Step>|
                c.len() == remaining && #[trigger] continues(pools@, c, current, goal, seen@)
                    && only(c[0]) implies listed(after, at, after.len() as int, prefix@ + c) by {
                assert(c =~= seq![s]);
                assert(after[at] == prefix@ + c);
            }
            assert(after[at][prefix@.len() as int] == s);
            assert(grown(pools@, before, after, at, prefix@, current, goal, seen@, 1));
            assert(searched(
                pools@,
                before,
                after,
                at,
                prefix@,
                current,
                goal,
                seen@,
                remaining as int,
                only,
            ));
        }
    } else {
        let mut wider = clone_vec(seen);
        wider.push(quote);
        explore(pools, &longer, quote, goal, &wider, remaining - 1, out);
        proof {
            let after = routes_view(out@);
            let from = before.len() as int;
            let n = prefix@.len() as int;
            assert(longer@ =~= prefix@.push(s));
            assert(wider@ =~= seen@.push(quote));
            assert forall|i: int| from <= i < after.len() implies #[trigger] extends(
                pools@,
                after,
                i,
                prefix@,
                current,
                goal,
                seen@,
                remaining as int,
            ) && only(after[i][n]) by {
                assert(extends(
                    pools@,
                    after,
                    i,
                    longer@,
                    quote,
                    goal,
                    wider@,
                    remaining - 1,
                ));
                let r = after[i];
                assert(r.take(n + 1) == longer@);
                assert(longer@.take(n) =~= prefix@);
                assert(r.take(n) =~= r.take(n + 1).take(n));
                assert(r[n] == r.take(n + 1)[n]);
                let tail = r.skip(n);
                assert(tail.len() == remaining);
                assert(tail[0] == s);
                assert(tail.drop_first() =~= r.skip(n + 1));
                assert(continues(pools@, tail.drop_first(), quote, goal, seen@.push(quote)));
                assert(continues(pools@, tail, current, goal, seen@));
            }
            assert forall|c: Seq<Step>|
                c.len() == remaining && #[trigger] continues(pools@, c, current, goal, seen@)
                    && only(c[0]) implies listed(after, from, after.len() as int, prefix@ + c) by {
                let rest = c.drop_first();
                assert(continues(pools@, rest, quote, goal, wider@));
                assert(listed(after, from, after.len() as int, longer@ + rest));
                assert(longer@ + rest =~= prefix@ + c);
            }
            assert(grown(pools@, before, after, from, prefix@, current, goal, seen@, remaining as int));
            assert forall|i: int| from <= i < after.len() implies only((#[trigger] after[i])[n]) by {
                assert(extends(
                    pools@,
                    after,
                    i,
                    prefix@,
                    current,
                    goal,
                    seen@,
                    remaining as int,
                ) && only(after[i][n]));
            }
            assert(searched(
                pools@,
                before,
                after,
                from,
                prefix@,
                current,
                goal,
                seen@,
                remaining as int,
                only,
            ));
        }
    }
}

/// Adds every route that goes on from `prefix` in `remaining` steps from
/// the token `current` to the token `goal`, without coming to a token that
/// was seen before.
fn explore(
    pools: &Vec<PoolPairInformation>,
    prefix: &Vec<Step>,
    current: Address,
    goal: Address,
    seen: &Vec<Address>,
    remaining: usize,
    out: &mut Vec<Vec<Step>>,
)
    requires
        remaining >= 1,
    ensures
        searched(
            pools@,
            routes_view(old(out)@),
            routes_view(final(out)@),
            old(out)@.len() as int,
            prefix@,
            current,
            goal,
            seen@,
            remaining as int,
            |x: Step| true,
        ),
    decreases remaining, 1int,
{
    let ghost before = routes_view(out@);
    let ghost from = out@.len() as int;
    let mut j: usize = 0;
    proof {
        lemma_searched_nothing(pools@, before, prefix@, current, goal, seen@, remaining as int);
        lemma_searched_same(
            pools@,
            before,
            before,
            from,
            prefix@,
            current,
            goal,
            seen@,
            remaining as int,
            |x: Step| false,
            |x: Step| x.0 < 0usize,
        );
    }
    while j < pools.len()
        invariant
            j <= pools@.len(),
            remaining >= 1,
            from == before.len(),
            searched(
                pools@,
                before,
                routes_view(out@),
                from,
                prefix@,
                current,
                goal,
                seen@,
                remaining as int,
                |x: Step| x.0 < j,
            ),
        decreases pools@.len() - j,
    {
        let ghost first = routes_view(out@);
        try_step(pools, prefix, current, goal, seen, remaining, (j, true), out);
        let ghost second = routes_view(out@);
        try_step(pools, prefix, current, goal, seen, remaining, (j, false), out);
        proof {
            let third = routes_view(out@);
            let low = |x: Step| x.0 < j;
            let forth = |x: Step| x == (j, true);
            let forth_too = |x: Step| x.0 < j || x == (j, true);
            let back = |x: Step| x == (j, false);
            let all = |x: Step| (x.0 < j || x == (j, true)) || x == (j, false);
            lemma_searched_join(
                pools@,
                before,
                first,
                second,
                from,
                prefix@,
                current,
                goal,
                seen@,
                remaining as int,
                low,
                forth,
                forth_too,
            );
            lemma_searched_join(
                pools@,
                before,
                second,
                third,
                from,
                prefix@,
                current,
                goal,
                seen@,
                remaining as int,
                forth_too,
                back,
                all,
            );
            let next = |x: Step| x.0 < j + 1;
            assert forall|x: Step| #[trigger] all(x) == next(x) by {
                if x.0 == j {
                    if x.1 {
                        assert(x == (j, true));
                    } else {
                        assert(x == (j, false));
                    }
                }
            }
            lemma_searched_same(
                pools@,
                before,
                third,
                from,
                prefix@,
                current,
                goal,
                seen@,
                remaining as int,
                all,
                next,
            );
        }
        j = j + 1;
    }
    proof {
        let after = routes_view(out@);
        assert forall|c: Seq<Step>|
            c.len() == remaining && #[trigger] continues(pools@, c, current, goal, seen@) implies listed(
            after,
            from,
            after.len() as int,
            prefix@ + c,
        ) by {
            assert(c[0].0 < pools@.len());
        }
    }
}

/// Every route of the pair with the given number of hops, once each.
pub fn routes_of_length(pools: &Vec<PoolPairInformation>, pair: Pair, hops: usize) -> (r: Vec<
    Vec<Step>,
>)
    requires
        hops >= 1,
    ensures
        forall|i: int|
            0 <= i < r@.len() ==> is_simple_route(pools@, pair, (#[trigger] r@[i])@) && r@[i]@.len()
                == hops,
        forall|i: int, j: int| 0 <= i < j < r@.len() ==> (#[trigger] r@[i])@ != (#[trigger] r@[j])@,
        forall|q: Seq<Step>|
            q.len() == hops && #[trigger] is_simple_route(pools@, pair, q) ==> listed(
                routes_view(r@),
                0,
                r@.len() as int,
                q,
            ),
{
    let mut out: Vec<Vec<Step>> = Vec::new();
    let prefix: Vec<Step> = Vec::new();
    let mut seen: Vec<Address> = Vec::new();
    seen.push(pair.0);
    assert(seen@ =~= seq![pair.0]);
    assert(routes_view(out@) =~= Seq::<Seq<Step>>::empty());
    explore(pools, &prefix, pair.0, pair.1, &seen, hops, &mut out);
    proof {
        let after = routes_view(out@);
        assert(prefix@ =~= Seq::<Step>::empty());
        assert forall|i: int| 0 <= i < out@.len() implies is_simple_route(
            pools@,
            pair,
            (#[trigger] out@[i])@,
        ) && out@[i]@.len() == hops by {
            assert(extends(pools@, after, i, prefix@, pair.0, pair.1, seen@, hops as int));
            assert(after[i].skip(0) =~= after[i]);
        }
        assert forall|i: int, j: int| 0 <= i < j < out@.len() implies (#[trigger] out@[i])@ != (
        #[trigger] out@[j])@ by {
            assert(after[i] != after[j]);
        }
        assert forall|q: Seq<Step>|
            q.len() == hops && #[trigger] is_simple_route(pools@, pair, q) implies listed(
            after,
            0,
            after.len() as int,
            q,
        ) by {
            assert(continues(pools@, q, pair.0, pair.1, seen@));
            assert(prefix@ + q =~= q);
        }
    }
    out
}

/// One over the liquidity of a pool, both sides priced in the token that
/// goes in; nothing for a pool without a state or without liquidity.
pub open spec fn inverse_tvl(
    pools: Seq<PoolPairInformation>,
    s: Step,
    states: Map<Address, PoolStateView>,
) -> Option<real> {
    let pool = pools[s.0 as int].pool_addr;
    if states.contains_key(pool) {
        let tvl = states[pool].tvl(step_base(pools, s));
        if tvl.0 + tvl.1 != 0real {
            Some(1real / (tvl.0 + tvl.1))
        } else {
            None
        }
    } else {
        None
    }
}

/// The weight of a route: the sum of one over the liquidity of its pools;
/// nothing, which is heavier than any number, where one of its pools has
/// no liquidity.
pub open spec fn weight_of(
    pools: Seq<PoolPairInformation>,
    steps: Seq<Step>,
    states: Map<Address, PoolStateView>,
) -> Option<real>
    decreases steps.len(),
{
    if steps.len() == 0 {
        Some(0real)
    } else {
        match (weight_of(pools, steps.drop_last(), states), inverse_tvl(pools, steps.last(), states)) {
            (Some(sum), Some(w)) => Some(sum + w),
            _ => None,
        }
    }
}

/// Whether weight `a` is less than weight `b`.
pub open spec fn lighter(a: Option<real>, b: Option<real>) -> bool {
    match (a, b) {
        (Some(x), Some(y)) => x < y,
        (Some(_), None) => true,
        _ => false,
    }
}

/// Whether route `q` comes before route `p`: it has fewer hops, or as many
/// and less weight.
pub open spec fn better(
    pools: Seq<PoolPairInformation>,
    states: Map<Address, PoolStateView>,
    q: Seq<Step>,
    p: Seq<Step>,
) -> bool {
    q.len() < p.len() || (q.len() == p.len() && lighter(
        weight_of(pools, q, states),
        weight_of(pools, p, states),
    ))
}

/// What a weight that the search keeps is as a number.
pub open spec fn weight_view(w: Option<Rational>) -> Option<real> {
    match w {
        Some(r) => Some(r.value()),
        None => None,
    }
}

/// Whether a weight that the search keeps is well formed.
pub open spec fn weight_wf(w: Option<Rational>) -> bool {
    match w {
        Some(r) => r.wf(),
        None => true,
    }
}

/// The weight of a route whose steps are steps of the universe.
pub fn route_weight(pools: &Vec<PoolPairInformation>, steps: &Vec<Step>, states: &PoolStates) -> (r:
    Option<Rational>)
    requires
        states.wf(),
        forall|i: int| 0 <= i < steps@.len() ==> (#[trigger] steps@[i]).0 < pools@.len(),
    ensures
        weight_wf(r),
        weight_view(r) == weight_of(pools@, steps@, states@),
{
    let mut sum = Rational::zero();
    let mut i: usize = 0;
    assert(steps@.take(0) =~= Seq::<Step>::empty());
    while i < steps.len()
        invariant
            i <= steps@.len(),
            states.wf(),
            forall|k: int| 0 <= k < steps@.len() ==> (#[trigger] steps@[k]).0 < pools@.len(),
            sum.wf(),
            weight_of(pools@, steps@.take(i as int), states@) == Some(sum.value()),
            forall|k: int|
                i <= k <= steps@.len() && weight_of(pools@, steps@.take(i as int), states@) is None
                    ==> #[trigger] weight_of(pools@, steps@.take(k), states@) is None,
        decreases steps@.len() - i,
    {
        let s = steps[i];
        proof {
            assert(steps@.take(i + 1).drop_last() =~= steps@.take(i as int));
            assert(steps@.take(i + 1).last() == s);
        }
        let (base, _quote) = step_tokens(pools, s);
        let inverse = match states.get(pools[s.0].pool_addr) {
            Some(state) => {
                let (t0, t1) = state.get_tvl(base);
                t0.plus(&t1).reciprocal()
            },
            None => None,
        };
        match inverse {
            Some(w) => {
                sum = sum.plus(&w);
            },
            None => {
                proof {
                    assert(inverse_tvl(pools@, s, states@) is None);
                    lemma_weight_stays_none(pools@, steps@, states@, i + 1);
                }
                return None;
            },
        }
        i = i + 1;
    }
    assert(steps@.take(steps@.len() as int) =~= steps@);
    Some(sum)
}

/// A route of which a part has no weight has no weight.
pub proof fn lemma_weight_stays_none(
    pools: Seq<PoolPairInformation>,
    steps: Seq<Step>,
    states: Map<Address, PoolStateView>,
    k: int,
)
    requires
        0 <= k <= steps.len(),
        weight_of(pools, steps.take(k), states) is None,
    ensures
        weight_of(pools, steps, states) is None,
    decreases steps.len() - k,
{
    if k < steps.len() {
        assert(steps.take(k + 1).drop_last() =~= steps.take(k));
        lemma_weight_stays_none(pools, steps, states, k + 1);
    } else {
        assert(steps.take(k) =~= steps);
    }
}

/// Whether weight `a` is less than weight `b`.
fn is_lighter(a: &Option<Rational>, b: &Option<Rational>) -> (r: bool)
    requires
        weight_wf(*a),
        weight_wf(*b),
    ensures
        r == lighter(weight_view(*a), weight_view(*b)),
{
    match (a, b) {
        (Some(x), Some(y)) => x.less_than(y),
        (Some(_), None) => true,
        _ => false,
    }
}

/// Whether the places in `chosen` are the `chosen.len()` lightest of the
/// weights, in ascending order of weight, each place once.
pub open spec fn lightest_first(weights: Seq<Option<real>>, chosen: Seq<usize>) -> bool {
    &&& forall|a: int| 0 <= a < chosen.len() ==> (#[trigger] chosen[a]) < weights.len()
    &&& forall|a: int, b: int| 0 <= a < b < chosen.len() ==> chosen[a] != chosen[b]
    &&& forall|a: int, b: int|
        0 <= a < b < chosen.len() ==> !lighter(weights[chosen[b] as int], weights[chosen[a] as int])
    &&& forall|a: int, u: int|
        0 <= a < chosen.len() && 0 <= u < weights.len() && !chosen.contains(u as usize)
            ==> !lighter(#[trigger] weights[u], weights[#[trigger] chosen[a] as int])
}

/// What a vector of weights holds.
pub open spec fn weights_view(weights: Seq<Option<Rational>>) -> Seq<Option<real>> {
    weights.map_values(|w: Option<Rational>| weight_view(w))
}

/// The places of the `want` lightest weights, or of all weights if there
/// are fewer, in ascending order of weight; among equal weights the one
/// that stands first comes first.
pub fn take_lightest(weights: &Vec<Option<Rational>>, want: usize) -> (chosen: Vec<usize>)
    requires
        forall|i: int| 0 <= i < weights@.len() ==> weight_wf(#[trigger] weights@[i]),
    ensures
        lightest_first(weights_view(weights@), chosen@),
        chosen@.len() == if want < weights@.len() {
            want as int
        } else {
            weights@.len() as int
        },
        forall|u: int|
            0 <= u < weights@.len() && !(#[trigger] chosen@.contains(u as usize)) ==> chosen@.len()
                == want,
{
    let ghost ws = weights_view(weights@);
    let n = weights.len();
    let mut taken: Vec<bool> = Vec::new();
    let mut i: usize = 0;
    while i < n
        invariant
            i <= n,
            taken@.len() == i,
            forall|k: int| 0 <= k < i ==> !taken@[k],
        decreases n - i,
    {
        taken.push(false);
        i = i + 1;
    }
    let mut chosen: Vec<usize> = Vec::new();
    proof {
        lemma_open_nodes_all(taken@);
    }
    while chosen.len() < want && chosen.len() < n
        invariant
            n == weights@.len(),
            ws == weights_view(weights@),
            taken@.len() == n,
            chosen@.len() <= want,
            open_nodes(taken@) + chosen@.len() == n,
            forall|k: int| 0 <= k < n ==> weight_wf(#[trigger] weights@[k]),
            forall|u: int| 0 <= u < n ==> (#[trigger] taken@[u]) == chosen@.contains(u as usize),
            lightest_first(ws, chosen@),
        decreases n - chosen@.len(),
    {
        // There is a place that is not taken yet, since fewer than `n` are chosen.
        let mut best: usize = 0;
        let mut found = false;
        let mut u: usize = 0;
        while u < n
            invariant
                u <= n,
                n == weights@.len(),
                ws == weights_view(weights@),
                taken@.len() == n,
                forall|k: int| 0 <= k < n ==> weight_wf(#[trigger] weights@[k]),
                found ==> best < u && !taken@[best as int],
                !found ==> forall|v: int| 0 <= v < u ==> #[trigger] taken@[v],
                found ==> forall|v: int|
                    0 <= v < u && !(#[trigger] taken@[v]) ==> !lighter(ws[v], ws[best as int]),
            decreases n - u,
        {
            if !taken[u] {
                if !found {
                    best = u;
                    found = true;
                } else if is_lighter(&weights[u], &weights[best]) {
                    proof {
                        lemma_lighter_order(ws, best as int, u as int);
                    }
                    best = u;
                }
            }
            u = u + 1;
        }
        if !found {
            proof {
                lemma_open_nodes_none(taken@);
            }
            return chosen;
        }
        proof {
            let before = chosen@;
            let after = before.push(best);
            assert(!before.contains(best));
            assert forall|a: int, b: int| 0 <= a < b < after.len() implies after[a] != after[b]
                && !lighter(ws[after[b] as int], ws[after[a] as int]) by {
                if b == before.len() {
                    assert(before.contains(before[a]));
                    assert(before[a] != best);
                } else {
                    assert(after[a] == before[a] && after[b] == before[b]);
                }
            }
            assert forall|a: int, v: int|
                0 <= a < after.len() && 0 <= v < n && !after.contains(v as usize) implies !lighter(
                #[trigger] ws[v],
                ws[#[trigger] after[a] as int],
            ) by {
                assert(!before.contains(v as usize)) by {
                    if before.contains(v as usize) {
                        let at = choose|at: int| 0 <= at < before.len() && before[at] == v as usize;
                        assert(after[at] == v as usize);
                    }
                }
                assert(after[before.len() as int] == best);
                assert(v != best);
                assert(!taken@[v]);
                if a < before.len() {
                    assert(after[a] == before[a]);
                }
            }
            assert forall|v: int| 0 <= v < n implies (#[trigger] taken@.update(best as int, true)[v])
                == after.contains(v as usize) by {
                if v == best {
                    assert(after[before.len() as int] == best);
                } else if before.contains(v as usize) {
                    let at = choose|at: int| 0 <= at < before.len() && before[at] == v as usize;
                    assert(after[at] == v as usize);
                } else if after.contains(v as usize) {
                    let at = choose|at: int| 0 <= at < after.len() && after[at] == v as usize;
                    assert(before[at] == v as usize);
                }
            }
            lemma_open_nodes_close(taken@, best as int);
        }
        taken.set(best, true);
        chosen.push(best);
    }
    proof {
        assert forall|u: int|
            0 <= u < weights@.len() && !(#[trigger] chosen@.contains(u as usize)) implies chosen@.len()
            == want by {
            if chosen@.len() != want {
                lemma_open_nodes_zero(taken@, u);
            }
        }
    }
    chosen
}

/// A weight that is lighter than one that nothing is lighter than among
/// some weights has nothing lighter than itself among them either.
proof fn lemma_lighter_order(ws: Seq<Option<real>>, best: int, u: int)
    requires
        0 <= best < ws.len(),
        0 <= u < ws.len(),
        lighter(ws[u], ws[best]),
    ensures
        forall|v: int|
            0 <= v < ws.len() && !lighter(#[trigger] ws[v], ws[best]) ==> !lighter(ws[v], ws[u]),
        !lighter(ws[u], ws[u]),
        !lighter(ws[best], ws[u]),
{
}

/// How many routes a subgraph is made of, unless asked otherwise.
pub const K_SHORTEST: usize = 5;

/// Every step of a continuation is a step through a pool of the universe.
pub proof fn lemma_steps_in_universe(
    pools: Seq<PoolPairInformation>,
    steps: Seq<Step>,
    current: Address,
    goal: Address,
    seen: Seq<Address>,
)
    requires
        continues(pools, steps, current, goal, seen),
    ensures
        forall|i: int| 0 <= i < steps.len() ==> (#[trigger] steps[i]).0 < pools.len(),
    decreases steps.len(),
{
    if steps.len() > 1 {
        let q = step_quote(pools, steps[0]);
        lemma_steps_in_universe(pools, steps.drop_first(), q, goal, seen.push(q));
        assert forall|i: int| 0 <= i < steps.len() implies (#[trigger] steps[i]).0 < pools.len() by {
            if i > 0 {
                assert(steps.drop_first()[i - 1] == steps[i]);
            }
        }
    }
}

/// Whether `routes` are the first routes of the pair, at most `k` of them
/// and none with more than `max_hops` hops: each is a simple route, none
/// stands twice, they stand in order, and a route that is left out is no
/// better than any of them and is left out only because `k` are there.
pub open spec fn ranked(
    pools: Seq<PoolPairInformation>,
    pair: Pair,
    states: Map<Address, PoolStateView>,
    max_hops: int,
    k: int,
    routes: Seq<Seq<Step>>,
) -> bool {
    &&& routes.len() <= k
    &&& forall|i: int|
        0 <= i < routes.len() ==> is_simple_route(pools, pair, #[trigger] routes[i]) && routes[i].len()
            <= max_hops
    &&& forall|i: int, j: int| 0 <= i < j < routes.len() ==> #[trigger] routes[i] != #[trigger] routes[j]
    &&& forall|i: int, j: int|
        0 <= i < j < routes.len() ==> !better(pools, states, #[trigger] routes[j], #[trigger] routes[i])
    &&& forall|q: Seq<Step>|
        #[trigger] is_simple_route(pools, pair, q) && q.len() <= max_hops && !listed(
            routes,
            0,
            routes.len() as int,
            q,
        ) ==> routes.len() == k && forall|i: int|
            0 <= i < routes.len() ==> !better(pools, states, q, #[trigger] routes[i])
}

/// What holds of the routes once every length below `hops` has been looked
/// at.
spec fn ranked_below(
    pools: Seq<PoolPairInformation>,
    pair: Pair,
    states: Map<Address, PoolStateView>,
    hops: int,
    k: int,
    routes: Seq<Seq<Step>>,
) -> bool {
    &&& routes.len() <= k
    &&& forall|i: int|
        0 <= i < routes.len() ==> is_simple_route(pools, pair, #[trigger] routes[i]) && routes[i].len()
            < hops
    &&& forall|i: int, j: int| 0 <= i < j < routes.len() ==> #[trigger] routes[i] != #[trigger] routes[j]
    &&& forall|i: int, j: int|
        0 <= i < j < routes.len() ==> !better(pools, states, #[trigger] routes[j], #[trigger] routes[i])
    &&& forall|q: Seq<Step>|
        #[trigger] is_simple_route(pools, pair, q) && q.len() < hops && !listed(
            routes,
            0,
            routes.len() as int,
            q,
        ) ==> routes.len() == k && forall|i: int|
            0 <= i < routes.len() ==> !better(pools, states, q, #[trigger] routes[i])
}

/// The routes of one length, picked by weight, go behind the routes of the
/// lengths below.
proof fn lemma_level_added(
    pools: Seq<PoolPairInformation>,
    pair: Pair,
    states: Map<Address, PoolStateView>,
    hops: int,
    k: int,
    before: Seq<Seq<Step>>,
    level: Seq<Seq<Step>>,
    weights: Seq<Option<real>>,
    chosen: Seq<usize>,
    after: Seq<Seq<Step>>,
)
    requires
        hops >= 1,
        before.len() < k,
        level.len() <= usize::MAX,
        ranked_below(pools, pair, states, hops, k, before),
        forall|i: int|
            0 <= i < level.len() ==> is_simple_route(pools, pair, #[trigger] level[i]) && level[i].len()
                == hops,
        forall|i: int, j: int| 0 <= i < j < level.len() ==> #[trigger] level[i] != #[trigger] level[j],
        forall|q: Seq<Step>|
            q.len() == hops && #[trigger] is_simple_route(pools, pair, q) ==> listed(
                level,
                0,
                level.len() as int,
                q,
            ),
        weights.len() == level.len(),
        forall|i: int| 0 <= i < level.len() ==> #[trigger] weights[i] == weight_of(pools, level[i], states),
        lightest_first(weights, chosen),
        chosen.len() <= k - before.len(),
        forall|u: int|
            0 <= u < level.len() && !(#[trigger] chosen.contains(u as usize)) ==> chosen.len() == k
                - before.len(),
        after.len() == before.len() + chosen.len(),
        forall|i: int| 0 <= i < before.len() ==> #[trigger] after[i] == before[i],
        forall|a: int|
            0 <= a < chosen.len() ==> #[trigger] after[before.len() + a] == level[chosen[a] as int],
    ensures
        ranked_below(pools, pair, states, hops + 1, k, after),
{
    let n = before.len() as int;
    assert forall|i: int| 0 <= i < after.len() implies is_simple_route(
        pools,
        pair,
        #[trigger] after[i],
    ) && after[i].len() < hops + 1 by {
        if i < n {
            assert(after[i] == before[i]);
        } else {
            assert(after[n + (i - n)] == level[chosen[i - n] as int]);
        }
    }
    assert forall|i: int, j: int| 0 <= i < j < after.len() implies #[trigger] after[i]
        != #[trigger] after[j] && !better(pools, states, after[j], after[i]) by {
        if j < n {
            assert(after[i] == before[i] && after[j] == before[j]);
            assert(before[i] != before[j]);
            assert(!better(pools, states, before[j], before[i]));
        } else if i < n {
            assert(after[i] == before[i]);
            assert(after[n + (j - n)] == level[chosen[j - n] as int]);
            assert(before[i].len() < hops);
            assert(level[chosen[j - n] as int].len() == hops);
        } else {
            assert(after[n + (i - n)] == level[chosen[i - n] as int]);
            assert(after[n + (j - n)] == level[chosen[j - n] as int]);
            assert(chosen[i - n] != chosen[j - n]);
            let x = chosen[i - n] as int;
            let y = chosen[j - n] as int;
            if x < y {
                assert(level[x] != level[y]);
            } else {
                assert(level[y] != level[x]);
            }
            assert(level[x].len() == hops && level[y].len() == hops);
            assert(weights[x] == weight_of(pools, level[x], states));
            assert(weights[y] == weight_of(pools, level[y], states));
            assert(!lighter(weights[y], weights[x]));
        }
    }
    assert forall|q: Seq<Step>|
        #[trigger] is_simple_route(pools, pair, q) && q.len() < hops + 1 && !listed(
            after,
            0,
            after.len() as int,
            q,
        ) implies after.len() == k && forall|i: int|
        0 <= i < after.len() ==> !better(pools, states, q, #[trigger] after[i]) by {
        if q.len() < hops {
            if listed(before, 0, n, q) {
                let at = choose|at: int| 0 <= at < n && at < before.len() && #[trigger] before[at] == q;
                assert(after[at] == q);
            }
        } else {
            assert(listed(level, 0, level.len() as int, q));
            let u = choose|u: int| 0 <= u < level.len() && u < level.len() && #[trigger] level[u] == q;
            if chosen.contains(u as usize) {
                let a = choose|a: int| 0 <= a < chosen.len() && chosen[a] == u as usize;
                assert(after[n + a] == q);
            }
            assert(!chosen.contains(u as usize));
            assert forall|i: int| 0 <= i < after.len() implies !better(
                pools,
                states,
                q,
                #[trigger] after[i],
            ) by {
                if i < n {
                    assert(after[i] == before[i]);
                } else {
                    let x = chosen[i - n] as int;
                    assert(after[n + (i - n)] == level[x]);
                    assert(!lighter(weights[u], weights[x]));
                    assert(weights[x] == weight_of(pools, level[x], states));
                    assert(weights[u] == weight_of(pools, level[u], states));
                    assert(level[x].len() == hops);
                }
            }
        }
    }
}

/// The first routes of a pair through a universe of pools: the `k`
/// shortest simple paths from the base token to the quote token by number
/// of hops, up to `max_hops`; among routes with as many hops, those whose
/// pools are deeper come first.
pub fn shortest_routes(
    pools: &Vec<PoolPairInformation>,
    pair: Pair,
    k: usize,
    max_hops: usize,
    states: &PoolStates,
) -> (r: Vec<Vec<Step>>)
    requires
        states.wf(),
    ensures
        ranked(pools@, pair, states@, max_hops as int, k as int, routes_view(r@)),
{
    let mut result: Vec<Vec<Step>> = Vec::new();
    let mut below: usize = 0;
    proof {
        assert forall|q: Seq<Step>| #[trigger] is_simple_route(pools@, pair, q) implies q.len()
            >= 1 by {}
    }
    while below < max_hops && result.len() < k
        invariant
            below <= max_hops,
            states.wf(),
            ranked_below(pools@, pair, states@, below + 1, k as int, routes_view(result@)),
        decreases max_hops - below,
    {
        let hops: usize = below + 1;
        let level = routes_of_length(pools, pair, hops);
        let mut weights: Vec<Option<Rational>> = Vec::new();
        let mut i: usize = 0;
        while i < level.len()
            invariant
                i <= level@.len(),
                states.wf(),
                weights@.len() == i,
                forall|q: int|
                    0 <= q < level@.len() ==> is_simple_route(pools@, pair, (#[trigger] level@[q])@),
                forall|q: int|
                    0 <= q < i ==> weight_wf(#[trigger] weights@[q]) && weight_view(weights@[q])
                        == weight_of(pools@, level@[q]@, states@),
            decreases level@.len() - i,
        {
            proof {
                lemma_steps_in_universe(pools@, level@[i as int]@, pair.0, pair.1, seq![pair.0]);
            }
            weights.push(route_weight(pools, &level[i], states));
            i = i + 1;
        }
        let chosen = take_lightest(&weights, k - result.len());
        let ghost before = routes_view(result@);
        let mut a: usize = 0;
        while a < chosen.len()
            invariant
                a <= chosen@.len(),
                forall|c: int| 0 <= c < chosen@.len() ==> (#[trigger] chosen@[c]) < level@.len(),
                result@.len() == before.len() + a,
                forall|q: int| 0 <= q < before.len() ==> #[trigger] routes_view(result@)[q] == before[q],
                forall|c: int|
                    0 <= c < a ==> #[trigger] routes_view(result@)[before.len() + c]
                        == level@[chosen@[c] as int]@,
            decreases chosen@.len() - a,
        {
            let ghost so_far = routes_view(result@);
            result.push(clone_vec(&level[chosen[a]]));
            proof {
                let now = routes_view(result@);
                assert forall|q: int| 0 <= q < before.len() implies #[trigger] now[q] == before[q] by {
                    assert(now[q] == so_far[q]);
                }
                assert forall|c: int| 0 <= c < a + 1 implies #[trigger] now[before.len() + c]
                    == level@[chosen@[c] as int]@ by {
                    if c < a {
                        assert(now[before.len() + c] == so_far[before.len() + c]);
                    }
                }
            }
            a = a + 1;
        }
        proof {
            let lv = routes_view(level@);
            let ws = weights_view(weights@);
            assert forall|q: int| 0 <= q < lv.len() implies is_simple_route(
                pools@,
                pair,
                #[trigger] lv[q],
            ) && lv[q].len() == hops by {
                assert(lv[q] == level@[q]@);
            }
            assert forall|x: int, y: int| 0 <= x < y < lv.len() implies #[trigger] lv[x]
                != #[trigger] lv[y] by {
                assert(level@[x]@ != level@[y]@);
            }
            assert forall|q: int| 0 <= q < lv.len() implies #[trigger] ws[q] == weight_of(
                pools@,
                lv[q],
                states@,
            ) by {
                assert(weight_view(weights@[q]) == weight_of(pools@, level@[q]@, states@));
            }
            let after = routes_view(result@);
            assert forall|c: int| 0 <= c < chosen@.len() implies #[trigger] after[before.len() + c]
                == lv[chosen@[c] as int] by {}
            lemma_level_added(
                pools@,
                pair,
                states@,
                hops as int,
                k as int,
                before,
                lv,
                ws,
                chosen@,
                after,
            );
        }
        below = below + 1;
    }
    proof {
        let routes = routes_view(result@);
        let hops = below + 1;
        assert forall|q: Seq<Step>|
            #[trigger] is_simple_route(pools@, pair, q) && q.len() <= max_hops && !listed(
                routes,
                0,
                routes.len() as int,
                q,
            ) implies routes.len() == k && forall|i: int|
            0 <= i < routes.len() ==> !better(pools@, states@, q, #[trigger] routes[i]) by {
            if q.len() >= hops {
                assert forall|i: int| 0 <= i < routes.len() implies !better(
                    pools@,
                    states@,
                    q,
                    #[trigger] routes[i],
                ) by {
                    assert(routes[i].len() < hops);
                }
            }
        }
    }
    result
}

/// The pools of a route as edges of a subgraph: each with the number of
/// hops before it and behind it.
pub open spec fn edges_of(pools: Seq<PoolPairInformation>, steps: Seq<Step>) -> Seq<SubGraphEdge> {
    Seq::new(
        steps.len(),
        |i: int|
            SubGraphEdge {
                info: PoolPairInfoDirection {
                    info: pools[steps[i].0 as int],
                    token_0_in: steps[i].1,
                },
                distance_to_start_node: i as usize,
                distance_to_end_node: (steps.len() - 1 - i) as usize,
            },
    )
}

/// The pools of a route as edges of a subgraph.
pub fn route_edges(pools: &Vec<PoolPairInformation>, steps: &Vec<Step>) -> (r: Vec<SubGraphEdge>)
    requires
        forall|i: int| 0 <= i < steps@.len() ==> (#[trigger] steps@[i]).0 < pools@.len(),
    ensures
        r@ == edges_of(pools@, steps@),
{
    let mut r: Vec<SubGraphEdge> = Vec::new();
    let n = steps.len();
    let mut i: usize = 0;
    while i < n
        invariant
            i <= n,
            n == steps@.len(),
            forall|k: int| 0 <= k < steps@.len() ==> (#[trigger] steps@[k]).0 < pools@.len(),
            r@.len() == i,
            forall|k: int| 0 <= k < i ==> #[trigger] r@[k] == edges_of(pools@, steps@)[k],
        decreases n - i,
    {
        let s = steps[i];
        r.push(
            SubGraphEdge {
                info: PoolPairInfoDirection { info: pools[s.0], token_0_in: s.1 },
                distance_to_start_node: i,
                distance_to_end_node: n - 1 - i,
            },
        );
        i = i + 1;
    }
    assert(r@ =~= edges_of(pools@, steps@));
    r
}

/// The edges of the first routes of a pair, route by route: what a
/// subgraph of the pair is made of.
pub fn pair_routes(
    pools: &Vec<PoolPairInformation>,
    pair: Pair,
    k: usize,
    max_hops: usize,
    states: &PoolStates,
) -> (r: (Vec<Vec<Step>>, Vec<Vec<SubGraphEdge>>))
    requires
        states.wf(),
    ensures
        ranked(pools@, pair, states@, max_hops as int, k as int, routes_view(r.0@)),
        r.1@.len() == r.0@.len(),
        forall|i: int| 0 <= i < r.1@.len() ==> (#[trigger] r.1@[i])@ == edges_of(pools@, r.0@[i]@),
{
    let routes = shortest_routes(pools, pair, k, max_hops, states);
    let mut edges: Vec<Vec<SubGraphEdge>> = Vec::new();
    let mut i: usize = 0;
    while i < routes.len()
        invariant
            i <= routes@.len(),
            ranked(pools@, pair, states@, max_hops as int, k as int, routes_view(routes@)),
            edges@.len() == i,
            forall|q: int| 0 <= q < i ==> (#[trigger] edges@[q])@ == edges_of(pools@, routes@[q]@),
        decreases routes@.len() - i,
    {
        proof {
            assert(is_simple_route(pools@, pair, routes_view(routes@)[i as int]));
            lemma_steps_in_universe(pools@, routes@[i as int]@, pair.0, pair.1, seq![pair.0]);
        }
        edges.push(route_edges(pools, &routes[i]));
        i = i + 1;
    }
    (routes, edges)
}

} // verus!
