//! Applying the messages of the classifier to the pool states, in the order
//! in which they were produced.

use vstd::prelude::*;
use crate::primitives::Address;
use crate::decoder::DexPriceMsg;
use crate::metadata::{Metadata, MetadataView};
use crate::pool::{
    PoolStateView, PoolStates, PoolUpdate, TickUpdate, scaled, virtual_reserve_0,
    virtual_reserve_1,
};

verus! {

/// The states once a state of a pool has come in: a state that is older
/// than what is held of its pool is dropped.
pub open spec fn taken_in(states: Map<Address, PoolStateView>, state: PoolStateView) -> Map<
    Address,
    PoolStateView,
> {
    if states.contains_key(state.pool) && states[state.pool].last_updated_block
        > state.last_updated_block {
        states
    } else {
        states.insert(state.pool, state)
    }
}

/// The state that new reserves give, once the decimals of the two tokens
/// are known.
pub open spec fn reserves_state(update: PoolUpdate, decimals_0: u8, decimals_1: u8) -> PoolStateView {
    PoolStateView {
        protocol: update.protocol,
        pool: update.pool,
        token_0: update.token_0,
        token_1: update.token_1,
        reserve_0: scaled(update.reserve_0, decimals_0),
        reserve_1: scaled(update.reserve_1, decimals_1),
        last_updated_block: update.block,
    }
}

/// The state that the price and liquidity of a pool with ticks give, once
/// the decimals of the two tokens are known.
pub open spec fn ticks_state(update: TickUpdate, decimals_0: u8, decimals_1: u8) -> PoolStateView {
    PoolStateView {
        protocol: update.protocol,
        pool: update.pool,
        token_0: update.token_0,
        token_1: update.token_1,
        reserve_0: virtual_reserve_0(update, decimals_0),
        reserve_1: virtual_reserve_1(update, decimals_1),
        last_updated_block: update.block,
    }
}

/// The state that a message brings: none for the discovery of a pool, and
/// none where the decimals of one of the two tokens are not known.
pub open spec fn state_of(db: MetadataView, msg: DexPriceMsg) -> Option<PoolStateView> {
    match msg {
        DexPriceMsg::Update(update) => match (
            db.decimals.get(update.token_0),
            db.decimals.get(update.token_1),
        ) {
            (Some(d0), Some(d1)) => Some(reserves_state(update, d0, d1)),
            _ => None,
        },
        DexPriceMsg::TickUpdate(update) => match (
            db.decimals.get(update.token_0),
            db.decimals.get(update.token_1),
        ) {
            (Some(d0), Some(d1)) => Some(ticks_state(update, d0, d1)),
            _ => None,
        },
        DexPriceMsg::DiscoveredPool(_, _) => None,
    }
}

/// The pool states once a message has been applied.
pub open spec fn applied(states: Map<Address, PoolStateView>, db: MetadataView, msg: DexPriceMsg) -> Map<
    Address,
    PoolStateView,
> {
    match state_of(db, msg) {
        Some(state) => taken_in(states, state),
        None => states,
    }
}

/// The pool states once the first `k` messages have been applied, one after
/// the other.
pub open spec fn applied_all(
    states: Map<Address, PoolStateView>,
    db: MetadataView,
    msgs: Seq<DexPriceMsg>,
    k: int,
) -> Map<Address, PoolStateView>
    decreases k,
{
    if k <= 0 {
        states
    } else {
        applied(applied_all(states, db, msgs, k - 1), db, msgs[k - 1])
    }
}

/// Applies a message to the pool states: new reserves, or a new price and
/// liquidity, become the state of their pool, scaled by the decimals of the
/// two tokens. Says whether the message brought a state; it brings none
/// where it announces a pool, or where the decimals of a token are not
/// known.
pub fn apply_price_msg(states: &mut PoolStates, db: &Metadata, msg: &DexPriceMsg) -> (brought: bool)
    requires
        old(states).wf(),
        db.wf(),
    ensures
        final(states).wf(),
        final(states)@ == applied(old(states)@, db@, *msg),
        brought == state_of(db@, *msg).is_some(),
{
    match msg {
        DexPriceMsg::Update(update) => {
            match (db.decimals(update.token_0), db.decimals(update.token_1)) {
                (Some(d0), Some(d1)) => {
                    states.update(update, d0, d1);
                    true
                },
                _ => false,
            }
        },
        DexPriceMsg::TickUpdate(update) => {
            match (db.decimals(update.token_0), db.decimals(update.token_1)) {
                (Some(d0), Some(d1)) => {
                    states.update_ticks(update, d0, d1);
                    true
                },
                _ => false,
            }
        },
        DexPriceMsg::DiscoveredPool(_, _) => false,
    }
}

/// Applies the messages of a block to the pool states, in order.
pub fn apply_price_msgs(states: &mut PoolStates, db: &Metadata, msgs: &Vec<DexPriceMsg>)
    requires
        old(states).wf(),
        db.wf(),
    ensures
        final(states).wf(),
        final(states)@ == applied_all(old(states)@, db@, msgs@, msgs@.len() as int),
{
    let mut k: usize = 0;
    while k < msgs.len()
        invariant
            k <= msgs@.len(),
            states.wf(),
            db.wf(),
            states@ == applied_all(old(states)@, db@, msgs@, k as int),
        decreases msgs@.len() - k,
    {
        apply_price_msg(states, db, &msgs[k]);
        k = k + 1;
    }
}

} // verus!
