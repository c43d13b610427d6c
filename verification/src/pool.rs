//! Pool states: the reserves of each pool at the block under processing,
//! and the price and liquidity that they give.

use vstd::prelude::*;
use crate::primitives::{Address, U256};
use crate::actions::Protocol;
use crate::rational::{Rational, lemma_value_zero};

verus! {

/// New reserves of a pool, as read off the logs of a call.
#[derive(Clone, Copy, Debug, PartialEq, Eq, Structural)]
pub struct PoolUpdate {
    pub block: u64,
    pub tx_idx: u64,
    pub protocol: Protocol,
    pub pool: Address,
    pub token_0: Address,
    pub token_1: Address,
    pub reserve_0: U256,
    pub reserve_1: U256,
}

/// The new price and liquidity of a pool with ticks, as read off the log of
/// a swap: the square root of the price as a fixed-point number with 96
/// fractional bits, the liquidity in range, and the tick.
#[derive(Clone, Copy, Debug, PartialEq, Eq, Structural)]
pub struct TickUpdate {
    pub block: u64,
    pub tx_idx: u64,
    pub protocol: Protocol,
    pub pool: Address,
    pub token_0: Address,
    pub token_1: Address,
    pub sqrt_price_x96: U256,
    pub liquidity: U256,
    pub tick: U256,
}

/// Two to the power 96, the unit of the square root of a price.
pub open spec fn q96() -> nat {
    0x1_0000_0000_0000_0000_0000_0000nat
}

/// The reserve of the first token that a constant-product pool would hold
/// to give the price and depth of a pool with ticks: the liquidity over the
/// square root of the price, in whole tokens. A pool without a price has
/// none.
pub open spec fn virtual_reserve_0(update: TickUpdate, decimals: u8) -> real {
    if update.sqrt_price_x96.value() == 0 {
        0real
    } else {
        update.liquidity.value() as real * q96() as real / update.sqrt_price_x96.value() as real
            / pow10(decimals as nat) as real
    }
}

/// The reserve of the second token that a constant-product pool would hold
/// to give the price and depth of a pool with ticks: the liquidity times
/// the square root of the price, in whole tokens.
pub open spec fn virtual_reserve_1(update: TickUpdate, decimals: u8) -> real {
    if update.sqrt_price_x96.value() == 0 {
        0real
    } else {
        update.liquidity.value() as real * update.sqrt_price_x96.value() as real / q96() as real
            / pow10(decimals as nat) as real
    }
}

/// Ten to the power `n`.
pub open spec fn pow10(n: nat) -> nat
    decreases n,
{
    if n == 0 {
        1
    } else {
        10 * pow10((n - 1) as nat)
    }
}

/// Ten to the power `n` is positive.
pub proof fn lemma_pow10_positive(n: nat)
    ensures
        pow10(n) > 0,
    decreases n,
{
    if n > 0 {
        lemma_pow10_positive((n - 1) as nat);
    }
}

/// Ten to the power `n` as a rational.
pub fn power_of_ten(n: u8) -> (r: Rational)
    ensures
        r.wf(),
        r.value() == pow10(n as nat) as real,
{
    let ten = Rational::from_u64(10);
    let mut r = Rational::one();
    let mut i: u8 = 0;
    while i < n
        invariant
            i <= n,
            ten.wf(),
            ten.value() == 10real,
            r.wf(),
            r.value() == pow10(i as nat) as real,
        decreases n - i,
    {
        r = r.times(&ten);
        i = i + 1;
        assert(pow10(i as nat) == 10 * pow10((i - 1) as nat));
    }
    r
}

/// An amount of a token with the given number of decimals, as a number of
/// whole tokens.
pub open spec fn scaled(amount: U256, decimals: u8) -> real {
    amount.value() as real / pow10(decimals as nat) as real
}

/// An amount of a token with the given number of decimals, as a number of
/// whole tokens.
pub fn scale(amount: &U256, decimals: u8) -> (r: Rational)
    ensures
        r.wf(),
        r.value() == scaled(*amount, decimals),
{
    let raw = Rational::from_amount(amount);
    let unit = power_of_ten(decimals);
    proof {
        lemma_pow10_positive(decimals as nat);
    }
    raw.over(&unit)
}

/// The state of a pool of two tokens: its reserves in whole tokens, as of a
/// block.
#[derive(Debug)]
pub struct PoolState {
    protocol: Protocol,
    pool: Address,
    token_0: Address,
    token_1: Address,
    reserve_0: Rational,
    reserve_1: Rational,
    last_updated_block: u64,
}

/// What a pool state holds.
pub struct PoolStateView {
    pub protocol: Protocol,
    pub pool: Address,
    pub token_0: Address,
    pub token_1: Address,
    pub reserve_0: real,
    pub reserve_1: real,
    pub last_updated_block: u64,
}

impl PoolStateView {
    /// The reserve of the token `base`, or zero where the pool does not hold
    /// that token.
    pub open spec fn base_reserve(self, base: Address) -> real {
        if base == self.token_0 {
            self.reserve_0
        } else if base == self.token_1 {
            self.reserve_1
        } else {
            0real
        }
    }

    /// The reserve of the token that the pool gives for `base`, or zero
    /// where the pool does not hold `base`.
    pub open spec fn other_reserve(self, base: Address) -> real {
        if base == self.token_0 {
            self.reserve_1
        } else if base == self.token_1 {
            self.reserve_0
        } else {
            0real
        }
    }

    /// Whether the pool can price `base`: it holds some of it and some of
    /// the other token.
    pub open spec fn live(self, base: Address) -> bool {
        self.base_reserve(base) > 0real && self.other_reserve(base) > 0real
    }

    /// How much of the other token the pool gives for one `base`, at the
    /// margin; zero where the pool cannot price `base`.
    pub open spec fn price(self, base: Address) -> real {
        if self.live(base) {
            self.other_reserve(base) / self.base_reserve(base)
        } else {
            0real
        }
    }

    /// The liquidity of each side of the pool priced in `base`. At the
    /// pool's own price both sides are worth the reserve of `base`; a pool
    /// that cannot price `base` has none.
    pub open spec fn tvl(self, base: Address) -> (real, real) {
        if self.live(base) {
            (self.base_reserve(base), self.base_reserve(base))
        } else {
            (0real, 0real)
        }
    }
}

impl View for PoolState {
    type V = PoolStateView;

    closed spec fn view(&self) -> PoolStateView {
        PoolStateView {
            protocol: self.protocol,
            pool: self.pool,
            token_0: self.token_0,
            token_1: self.token_1,
            reserve_0: self.reserve_0.value(),
            reserve_1: self.reserve_1.value(),
            last_updated_block: self.last_updated_block,
        }
    }
}

impl PoolState {
    /// Whether both reserves are well-formed rationals.
    pub closed spec fn wf(&self) -> bool {
        self.reserve_0.wf() && self.reserve_1.wf()
    }

    /// The state that an update gives, with the reserves scaled by the
    /// decimals of their tokens.
    pub fn from_update(update: &PoolUpdate, decimals_0: u8, decimals_1: u8) -> (r: PoolState)
        ensures
            r.wf(),
            r@ == (PoolStateView {
                protocol: update.protocol,
                pool: update.pool,
                token_0: update.token_0,
                token_1: update.token_1,
                reserve_0: scaled(update.reserve_0, decimals_0),
                reserve_1: scaled(update.reserve_1, decimals_1),
                last_updated_block: update.block,
            }),
    {
        PoolState {
            protocol: update.protocol,
            pool: update.pool,
            token_0: update.token_0,
            token_1: update.token_1,
            reserve_0: scale(&update.reserve_0, decimals_0),
            reserve_1: scale(&update.reserve_1, decimals_1),
            last_updated_block: update.block,
        }
    }

    /// The state that the price and liquidity of a pool with ticks give:
    /// the reserves of the constant-product pool that has the same price
    /// and the same depth at that price.
    pub fn from_tick_update(update: &TickUpdate, decimals_0: u8, decimals_1: u8) -> (r: PoolState)
        ensures
            r.wf(),
            r@ == (PoolStateView {
                protocol: update.protocol,
                pool: update.pool,
                token_0: update.token_0,
                token_1: update.token_1,
                reserve_0: virtual_reserve_0(*update, decimals_0),
                reserve_1: virtual_reserve_1(*update, decimals_1),
                last_updated_block: update.block,
            }),
    {
        let liquidity = Rational::from_amount(&update.liquidity);
        let root = Rational::from_amount(&update.sqrt_price_x96);
        let unit = Rational::from_amount(&U256 { hi: 0, lo: 0x1_0000_0000_0000_0000_0000_0000 });
        proof {
            lemma_pow10_positive(decimals_0 as nat);
            lemma_pow10_positive(decimals_1 as nat);
        }
        let (reserve_0, reserve_1) = if root.is_zero() {
            (Rational::zero(), Rational::zero())
        } else {
            (
                liquidity.times(&unit).over(&root).over(&power_of_ten(decimals_0)),
                liquidity.times(&root).over(&unit).over(&power_of_ten(decimals_1)),
            )
        };
        PoolState {
            protocol: update.protocol,
            pool: update.pool,
            token_0: update.token_0,
            token_1: update.token_1,
            reserve_0,
            reserve_1,
            last_updated_block: update.block,
        }
    }

    /// A copy of the state.
    pub fn duplicate(&self) -> (r: PoolState)
        requires
            self.wf(),
        ensures
            r.wf(),
            r@ == self@,
    {
        PoolState {
            protocol: self.protocol,
            pool: self.pool,
            token_0: self.token_0,
            token_1: self.token_1,
            reserve_0: self.reserve_0.duplicate(),
            reserve_1: self.reserve_1.duplicate(),
            last_updated_block: self.last_updated_block,
        }
    }

    /// The address of the pool.
    pub fn address(&self) -> (a: Address)
        ensures
            a == self@.pool,
    {
        self.pool
    }

    /// The protocol of the pool.
    pub fn protocol(&self) -> (p: Protocol)
        ensures
            p == self@.protocol,
    {
        self.protocol
    }

    /// The two tokens of the pool.
    pub fn tokens(&self) -> (t: (Address, Address))
        ensures
            t == (self@.token_0, self@.token_1),
    {
        (self.token_0, self.token_1)
    }

    /// The block as of which the reserves are known.
    pub fn last_updated_block(&self) -> (b: u64)
        ensures
            b == self@.last_updated_block,
    {
        self.last_updated_block
    }

    /// Whether the pool can price `base`.
    pub fn is_live(&self, base: Address) -> (b: bool)
        requires
            self.wf(),
        ensures
            b == self@.live(base),
    {
        proof {
            lemma_value_zero(self.reserve_0.num(), self.reserve_0.den());
            lemma_value_zero(self.reserve_1.num(), self.reserve_1.den());
        }
        if base == self.token_0 || base == self.token_1 {
            !self.reserve_0.is_zero() && !self.reserve_1.is_zero()
        } else {
            false
        }
    }

    /// How much of the other token the pool gives for one `base`.
    pub fn get_price(&self, base: Address) -> (p: Rational)
        requires
            self.wf(),
        ensures
            p.wf(),
            p.value() == self@.price(base),
    {
        if !self.is_live(base) {
            return Rational::zero();
        }
        if base == self.token_0 {
            self.reserve_1.over(&self.reserve_0)
        } else {
            self.reserve_0.over(&self.reserve_1)
        }
    }

    /// The liquidity of each side of the pool priced in `base`.
    pub fn get_tvl(&self, base: Address) -> (t: (Rational, Rational))
        requires
            self.wf(),
        ensures
            t.0.wf(),
            t.1.wf(),
            (t.0.value(), t.1.value()) == self@.tvl(base),
    {
        if !self.is_live(base) {
            return (Rational::zero(), Rational::zero());
        }
        if base == self.token_0 {
            (self.reserve_0.duplicate(), self.reserve_0.duplicate())
        } else {
            (self.reserve_1.duplicate(), self.reserve_1.duplicate())
        }
    }
}

/// Whether entry `i` is the state of the given pool.
pub open spec fn holds_pool(entries: Seq<PoolState>, pool: Address, i: int) -> bool {
    0 <= i < entries.len() && entries[i]@.pool == pool
}

/// The states of the pools at the block under processing, one per pool.
#[derive(Debug)]
pub struct PoolStates {
    pools: Vec<PoolState>,
}

impl View for PoolStates {
    type V = Map<Address, PoolStateView>;

    /// The state of each pool, by the address of the pool.
    closed spec fn view(&self) -> Map<Address, PoolStateView> {
        Map::new(
            |pool: Address| exists|i: int| holds_pool(self.pools@, pool, i),
            |pool: Address| self.pools@[choose|i: int| holds_pool(self.pools@, pool, i)]@,
        )
    }
}

impl PoolStates {
    /// Whether every state is well formed and no pool has two states.
    pub closed spec fn wf(&self) -> bool {
        &&& forall|i: int| 0 <= i < self.pools@.len() ==> (#[trigger] self.pools@[i]).wf()
        &&& forall|i: int, j: int|
            0 <= i < j < self.pools@.len() ==> (#[trigger] self.pools@[i])@.pool != (
            #[trigger] self.pools@[j])@.pool
    }

    /// In a well-formed store the entry of a pool is the state of the pool.
    proof fn lemma_entry(&self, i: int)
        requires
            self.wf(),
            0 <= i < self.pools@.len(),
        ensures
            self@.contains_key(self.pools@[i]@.pool),
            self@[self.pools@[i]@.pool] == self.pools@[i]@,
    {
        let pool = self.pools@[i]@.pool;
        assert(holds_pool(self.pools@, pool, i));
        let k = choose|k: int| holds_pool(self.pools@, pool, k);
        if k < i {
            assert(self.pools@[k]@.pool != self.pools@[i]@.pool);
        } else if i < k {
            assert(self.pools@[i]@.pool != self.pools@[k]@.pool);
        }
    }

    /// A store without pools.
    pub fn new() -> (r: PoolStates)
        ensures
            r.wf(),
            r@ == Map::<Address, PoolStateView>::empty(),
    {
        let r = PoolStates { pools: Vec::new() };
        assert(r@ =~= Map::<Address, PoolStateView>::empty());
        r
    }

    /// Where the state of a pool is kept, if the store has one.
    fn find(&self, pool: Address) -> (r: Option<usize>)
        requires
            self.wf(),
        ensures
            match r {
                Some(i) => holds_pool(self.pools@, pool, i as int),
                None => forall|i: int| !holds_pool(self.pools@, pool, i),
            },
            r.is_some() == self@.contains_key(pool),
    {
        let mut i: usize = 0;
        while i < self.pools.len()
            invariant
                i <= self.pools@.len(),
                forall|k: int| 0 <= k < i ==> !holds_pool(self.pools@, pool, k),
            decreases self.pools@.len() - i,
        {
            if self.pools[i].address() == pool {
                assert(holds_pool(self.pools@, pool, i as int));
                return Some(i);
            }
            i = i + 1;
        }
        None
    }

    /// The state of a pool, if the store has one.
    pub fn get(&self, pool: Address) -> (r: Option<&PoolState>)
        requires
            self.wf(),
        ensures
            match r {
                Some(state) => self@.contains_key(pool) && state@ == self@[pool] && state.wf(),
                None => !self@.contains_key(pool),
            },
    {
        match self.find(pool) {
            Some(i) => {
                proof {
                    self.lemma_entry(i as int);
                }
                Some(&self.pools[i])
            },
            None => None,
        }
    }

    /// Takes in a new state of a pool. States come in block order: one that
    /// is older than what the store holds of its pool is dropped.
    pub fn apply(&mut self, state: PoolState)
        requires
            old(self).wf(),
            state.wf(),
        ensures
            final(self).wf(),
            final(self)@ == if old(self)@.contains_key(state@.pool) && old(self)@[state@.pool].last_updated_block
                > state@.last_updated_block {
                old(self)@
            } else {
                old(self)@.insert(state@.pool, state@)
            },
    {
        let pool = state.address();
        let ghost before = *self;
        let ghost added = state@;
        match self.find(pool) {
            Some(i) => {
                proof {
                    self.lemma_entry(i as int);
                }
                if self.pools[i].last_updated_block() > state.last_updated_block() {
                    return ;
                }
                self.pools.set(i, state);
                proof {
                    assert forall|a: Address| #[trigger] self@.contains_key(a) == before@.insert(
                        pool,
                        added,
                    ).contains_key(a) by {
                        if self@.contains_key(a) {
                            let k = choose|k: int| holds_pool(self.pools@, a, k);
                            assert(holds_pool(before.pools@, a, k));
                        }
                        if before@.insert(pool, added).contains_key(a) {
                            if a == pool {
                                assert(holds_pool(self.pools@, a, i as int));
                            } else {
                                let k = choose|k: int| holds_pool(before.pools@, a, k);
                                assert(holds_pool(self.pools@, a, k));
                            }
                        }
                    }
                    assert forall|a: Address| self@.contains_key(a) implies #[trigger] self@[a]
                        == before@.insert(pool, added)[a] by {
                        let k = choose|k: int| holds_pool(self.pools@, a, k);
                        self.lemma_entry(k);
                        if k != i {
                            before.lemma_entry(k);
                        }
                    }
                    assert(self@ =~= before@.insert(pool, added));
                }
            },
            None => {
                self.pools.push(state);
                proof {
                    let n = before.pools@.len() as int;
                    assert forall|i: int, j: int| 0 <= i < j < self.pools@.len() implies (
                    #[trigger] self.pools@[i])@.pool != (#[trigger] self.pools@[j])@.pool by {
                        if j == n {
                            assert(!holds_pool(before.pools@, pool, i));
                        }
                    }
                    assert forall|a: Address| #[trigger] self@.contains_key(a) == before@.insert(
                        pool,
                        added,
                    ).contains_key(a) by {
                        if self@.contains_key(a) {
                            let k = choose|k: int| holds_pool(self.pools@, a, k);
                            if k < n {
                                assert(holds_pool(before.pools@, a, k));
                            }
                        }
                        if before@.insert(pool, added).contains_key(a) {
                            if a == pool {
                                assert(holds_pool(self.pools@, a, n));
                            } else {
                                let k = choose|k: int| holds_pool(before.pools@, a, k);
                                assert(holds_pool(self.pools@, a, k));
                            }
                        }
                    }
                    assert forall|a: Address| self@.contains_key(a) implies #[trigger] self@[a]
                        == before@.insert(pool, added)[a] by {
                        let k = choose|k: int| holds_pool(self.pools@, a, k);
                        self.lemma_entry(k);
                        if k < n {
                            before.lemma_entry(k);
                        }
                    }
                    assert(self@ =~= before@.insert(pool, added));
                }
            },
        }
    }

    /// Takes in the reserves that an update carries, scaled by the decimals
    /// of the two tokens.
    pub fn update(&mut self, update: &PoolUpdate, decimals_0: u8, decimals_1: u8)
        requires
            old(self).wf(),
        ensures
            final(self).wf(),
            final(self)@ == if old(self)@.contains_key(update.pool) && old(self)@[update.pool].last_updated_block
                > update.block {
                old(self)@
            } else {
                old(self)@.insert(
                    update.pool,
                    PoolStateView {
                        protocol: update.protocol,
                        pool: update.pool,
                        token_0: update.token_0,
                        token_1: update.token_1,
                        reserve_0: scaled(update.reserve_0, decimals_0),
                        reserve_1: scaled(update.reserve_1, decimals_1),
                        last_updated_block: update.block,
                    },
                )
            },
    {
        self.apply(PoolState::from_update(update, decimals_0, decimals_1));
    }

    /// Takes in the price and liquidity that an update of a pool with ticks
    /// carries, as the reserves of the constant-product pool with the same
    /// price and depth.
    pub fn update_ticks(&mut self, update: &TickUpdate, decimals_0: u8, decimals_1: u8)
        requires
            old(self).wf(),
        ensures
            final(self).wf(),
            final(self)@ == if old(self)@.contains_key(update.pool) && old(self)@[update.pool].last_updated_block
                > update.block {
                old(self)@
            } else {
                old(self)@.insert(
                    update.pool,
                    PoolStateView {
                        protocol: update.protocol,
                        pool: update.pool,
                        token_0: update.token_0,
                        token_1: update.token_1,
                        reserve_0: virtual_reserve_0(*update, decimals_0),
                        reserve_1: virtual_reserve_1(*update, decimals_1),
                        last_updated_block: update.block,
                    },
                )
            },
    {
        self.apply(PoolState::from_tick_update(update, decimals_0, decimals_1));
    }

    /// Whether the store has a state of the pool.
    pub fn contains(&self, pool: Address) -> (b: bool)
        requires
            self.wf(),
        ensures
            b == self@.contains_key(pool),
    {
        self.find(pool).is_some()
    }
}

} // verus!
