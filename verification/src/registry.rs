//! Action dispatch: given one call frame, the registry selects the decoders
//! of the frame's protocol and selector, tries them in order, and reports
//! the first action that one of them gives, with the new state of the pool.

use vstd::prelude::*;
use crate::abi::{selector, selector_of, word_at, word_of};
use crate::actions::{
    ActionView, Actions, Log, LogView, Protocol, Unclassified, UnclassifiedView, clone_logs,
    clone_vec, log_signature, logs_view,
};
use crate::primitives::B256;
use crate::decoder::{
    BURN_SELECTOR, CallFrameInfo, CallFrameView, Decoder, DecoderKind, DecoderView, DexPriceMsg,
    IntoAction, MINT_SELECTOR, SWAP_SELECTOR, TICK_BURN_SELECTOR, TICK_MINT_SELECTOR,
    TICK_SWAP_SELECTOR, burn_event, burn_signature, decoder_action, mint_event, mint_signature,
    swap_event, swap_signature, sync_event, sync_signature, tick_burn_event,
    tick_burn_signature, tick_mint_event, tick_mint_signature, tick_swap_event,
    tick_swap_signature, transfer_event, transfer_signature,
};
use crate::metadata::{Metadata, MetadataView, PoolInfo};
use crate::pattern::LogMatcher;
use crate::pool::{PoolUpdate, TickUpdate};

verus! {

/// The action of the first decoder from place `k` on that is for the given
/// protocol and selector and makes something of the frame.
pub open spec fn first_action(
    decoders: Seq<DecoderView>,
    protocol: Protocol,
    selector: u32,
    frame: CallFrameView,
    db: MetadataView,
    k: int,
) -> Option<ActionView>
    decreases decoders.len() - k,
{
    if k >= decoders.len() || k < 0 {
        None
    } else if decoders[k].protocol == protocol && decoders[k].selector == selector {
        match decoder_action(decoders[k], frame, db) {
            Some(a) => Some(a),
            None => first_action(decoders, protocol, selector, frame, db, k + 1),
        }
    } else {
        first_action(decoders, protocol, selector, frame, db, k + 1)
    }
}

/// The kind of the first decoder from place `k` on that is for the given
/// protocol and selector and makes something of the frame.
pub open spec fn first_kind(
    decoders: Seq<DecoderView>,
    protocol: Protocol,
    selector: u32,
    frame: CallFrameView,
    db: MetadataView,
    k: int,
) -> Option<DecoderKind>
    decreases decoders.len() - k,
{
    if k >= decoders.len() || k < 0 {
        None
    } else if decoders[k].protocol == protocol && decoders[k].selector == selector
        && decoder_action(decoders[k], frame, db) is Some {
        Some(decoders[k].kind)
    } else {
        first_kind(decoders, protocol, selector, frame, db, k + 1)
    }
}

/// The last log of the given event among the logs.
pub open spec fn last_with(logs: Seq<LogView>, event: B256) -> Option<LogView>
    decreases logs.len(),
{
    if logs.len() == 0 {
        None
    } else if log_signature(logs.last()) == Some(event) {
        Some(logs.last())
    } else {
        last_with(logs.drop_last(), event)
    }
}

/// The new reserves of the constant-product pool that a frame has called,
/// read off the last `Sync` log of the frame.
pub open spec fn reserves_of(frame: CallFrameView, info: PoolInfo, block: u64, tx_idx: u64) -> Option<
    DexPriceMsg,
> {
    match last_with(frame.logs, sync_event()) {
        Some(log) => match (word_of(log.data, 0), word_of(log.data, 32)) {
            (Some(reserve_0), Some(reserve_1)) => Some(
                DexPriceMsg::Update(
                    PoolUpdate {
                        block,
                        tx_idx,
                        protocol: info.protocol,
                        pool: frame.target,
                        token_0: info.token_0,
                        token_1: info.token_1,
                        reserve_0,
                        reserve_1,
                    },
                ),
            ),
            _ => None,
        },
        None => None,
    }
}

/// The new price and liquidity of the pool with ticks that a frame has
/// swapped against, read off the last `Swap` log of the frame: its third,
/// fourth and fifth word.
pub open spec fn ticks_of(frame: CallFrameView, info: PoolInfo, block: u64, tx_idx: u64) -> Option<
    DexPriceMsg,
> {
    match last_with(frame.logs, tick_swap_event()) {
        Some(log) => match (word_of(log.data, 64), word_of(log.data, 96), word_of(log.data, 128)) {
            (Some(sqrt_price_x96), Some(liquidity), Some(tick)) => Some(
                DexPriceMsg::TickUpdate(
                    TickUpdate {
                        block,
                        tx_idx,
                        protocol: info.protocol,
                        pool: frame.target,
                        token_0: info.token_0,
                        token_1: info.token_1,
                        sqrt_price_x96,
                        liquidity,
                        tick,
                    },
                ),
            ),
            _ => None,
        },
        None => None,
    }
}

/// The new state of the pool that a frame has called, as far as the logs of
/// the frame tell it: the reserves of a constant-product pool, the price
/// and liquidity of a pool with ticks after a swap.
pub open spec fn update_of(
    frame: CallFrameView,
    info: PoolInfo,
    block: u64,
    tx_idx: u64,
    kind: DecoderKind,
) -> Option<DexPriceMsg> {
    match kind {
        DecoderKind::Swap => reserves_of(frame, info, block, tx_idx),
        DecoderKind::Mint => reserves_of(frame, info, block, tx_idx),
        DecoderKind::Burn => reserves_of(frame, info, block, tx_idx),
        DecoderKind::TickSwap => ticks_of(frame, info, block, tx_idx),
        DecoderKind::TickMint => None,
        DecoderKind::TickBurn => None,
    }
}

/// What dispatch makes of a frame: nothing where the target is no known
/// pool, the call has no selector, or no decoder of the pool's protocol
/// and the call's selector makes something of the frame; otherwise the
/// action of the first decoder that does, with the pool's new state where
/// the frame has logged it.
pub open spec fn dispatched(
    decoders: Seq<DecoderView>,
    frame: CallFrameView,
    db: MetadataView,
    block: u64,
    tx_idx: u64,
) -> Option<(Option<DexPriceMsg>, ActionView)> {
    match (db.pools.get(frame.target), selector_of(frame.input)) {
        (Some(info), Some(sel)) => match (
            first_action(decoders, info.protocol, sel, frame, db, 0),
            first_kind(decoders, info.protocol, sel, frame, db, 0),
        ) {
            (Some(a), Some(kind)) => Some((update_of(frame, info, block, tx_idx, kind), a)),
            _ => None,
        },
        _ => None,
    }
}

/// The action of a frame that no decoder recognized: its raw input and
/// logs.
pub open spec fn unclassified_of(frame: CallFrameView) -> ActionView {
    ActionView::Unclassified(
        UnclassifiedView { trace_index: frame.trace_index, input: frame.input, logs: frame.logs },
    )
}

/// The action of a frame and the message to the pricing side that goes
/// with it.
pub open spec fn classified_as(
    decoders: Seq<DecoderView>,
    frame: CallFrameView,
    db: MetadataView,
    block: u64,
    tx_idx: u64,
) -> (ActionView, Option<DexPriceMsg>) {
    match dispatched(decoders, frame, db, block, tx_idx) {
        Some((msg, action)) => (action, msg),
        None => (unclassified_of(frame), None),
    }
}

/// Decoder purity: what dispatch makes of a call frame is a function of the
/// registry, the frame and the metadata snapshot, so two runs on the same
/// frame and the same snapshot give the same action and the same message.
pub proof fn lemma_dispatch_pure(
    decoders: Seq<DecoderView>,
    frame: CallFrameView,
    db: MetadataView,
    block: u64,
    tx_idx: u64,
    first: (ActionView, Option<DexPriceMsg>),
    second: (ActionView, Option<DexPriceMsg>),
)
    requires
        first == classified_as(decoders, frame, db, block, tx_idx),
        second == classified_as(decoders, frame, db, block, tx_idx),
    ensures
        first == second,
{
}

/// A collection of decoders that a call frame can be dispatched to.
pub trait ActionCollection {
    /// What the collection makes of a call frame.
    spec fn outcome(
        &self,
        call_info: CallFrameView,
        db: MetadataView,
        block: u64,
        tx_idx: u64,
    ) -> Option<(Option<DexPriceMsg>, ActionView)>;

    /// Dispatches a call frame. The same frame and the same metadata always
    /// give the same answer.
    fn dispatch(&self, call_info: &CallFrameInfo, db_tx: &Metadata, block: u64, tx_idx: u64) -> (r:
        Option<(Option<DexPriceMsg>, Actions)>)
        requires
            db_tx.wf(),
        ensures
            match r {
                Some((msg, action)) => self.outcome(call_info@, db_tx@, block, tx_idx) == Some(
                    (msg, action@),
                ),
                None => self.outcome(call_info@, db_tx@, block, tx_idx) is None,
            },
    ;
}

/// What a vector of decoders holds.
pub open spec fn decoders_view(decoders: Seq<Decoder>) -> Seq<DecoderView> {
    decoders.map_values(|d: Decoder| d@)
}

/// The decoder registry: an ordered table of decoders.
#[derive(Debug)]
pub struct Registry {
    decoders: Vec<Decoder>,
}

impl View for Registry {
    type V = Seq<DecoderView>;

    closed spec fn view(&self) -> Seq<DecoderView> {
        decoders_view(self.decoders@)
    }
}

/// The pattern of the logs of a swap against a constant-product pool.
pub open spec fn swap_pattern() -> Seq<LogMatcher> {
    seq![LogMatcher::Ignore(sync_event()), LogMatcher::Exact(swap_event())]
}

/// The pattern of the logs of a mint in a constant-product pool.
pub open spec fn mint_pattern() -> Seq<LogMatcher> {
    seq![
        LogMatcher::Possible(transfer_event()),
        LogMatcher::Ignore(transfer_event()),
        LogMatcher::Ignore(sync_event()),
        LogMatcher::Exact(mint_event()),
    ]
}

/// The pattern of the logs of a burn in a constant-product pool.
pub open spec fn burn_pattern() -> Seq<LogMatcher> {
    seq![
        LogMatcher::Possible(transfer_event()),
        LogMatcher::Ignore(transfer_event()),
        LogMatcher::Ignore(sync_event()),
        LogMatcher::Exact(burn_event()),
    ]
}

/// The three decoders of a protocol with constant-product pools: swap, mint
/// and burn.
pub open spec fn constant_product(protocol: Protocol) -> Seq<DecoderView> {
    seq![
        DecoderView {
            protocol,
            selector: SWAP_SELECTOR,
            pattern: swap_pattern(),
            kind: DecoderKind::Swap,
        },
        DecoderView {
            protocol,
            selector: MINT_SELECTOR,
            pattern: mint_pattern(),
            kind: DecoderKind::Mint,
        },
        DecoderView {
            protocol,
            selector: BURN_SELECTOR,
            pattern: burn_pattern(),
            kind: DecoderKind::Burn,
        },
    ]
}

/// The three decoders of a protocol whose pools have ticks: swap, mint and
/// burn.
pub open spec fn tick_pools(protocol: Protocol) -> Seq<DecoderView> {
    seq![
        DecoderView {
            protocol,
            selector: TICK_SWAP_SELECTOR,
            pattern: seq![LogMatcher::Exact(tick_swap_event())],
            kind: DecoderKind::TickSwap,
        },
        DecoderView {
            protocol,
            selector: TICK_MINT_SELECTOR,
            pattern: seq![LogMatcher::Exact(tick_mint_event())],
            kind: DecoderKind::TickMint,
        },
        DecoderView {
            protocol,
            selector: TICK_BURN_SELECTOR,
            pattern: seq![LogMatcher::Exact(tick_burn_event())],
            kind: DecoderKind::TickBurn,
        },
    ]
}

/// The last log of the given event among the logs.
fn find_last_with(logs: &Vec<Log>, event: B256) -> (r: Option<usize>)
    ensures
        match r {
            Some(i) => i < logs@.len() && last_with(logs_view(logs@), event) == Some(
                logs@[i as int]@,
            ),
            None => last_with(logs_view(logs@), event) is None,
        },
{
    let ghost views = logs_view(logs@);
    let mut i: usize = logs.len();
    assert(views.take(i as int) =~= views);
    while i > 0
        invariant
            i <= logs@.len(),
            views == logs_view(logs@),
            last_with(views, event) == last_with(views.take(i as int), event),
        decreases i,
    {
        proof {
            assert(views.take(i as int).drop_last() =~= views.take(i - 1));
            assert(views.take(i as int).last() == logs@[i - 1]@);
        }
        match logs[i - 1].signature() {
            Some(s) => {
                if s == event {
                    return Some(i - 1);
                }
            },
            None => {},
        }
        i = i - 1;
    }
    None
}

/// The new price and liquidity of the pool with ticks that a frame has
/// swapped against.
fn read_ticks(call_info: &CallFrameInfo, info: PoolInfo, block: u64, tx_idx: u64) -> (r: Option<
    DexPriceMsg,
>)
    ensures
        r == ticks_of(call_info@, info, block, tx_idx),
{
    let at = match find_last_with(&call_info.logs, tick_swap_signature()) {
        Some(i) => i,
        None => {
            return None;
        },
    };
    let log = &call_info.logs[at];
    let sqrt_price_x96 = match word_at(&log.data, 64) {
        Some(w) => w,
        None => {
            return None;
        },
    };
    let liquidity = match word_at(&log.data, 96) {
        Some(w) => w,
        None => {
            return None;
        },
    };
    let tick = match word_at(&log.data, 128) {
        Some(w) => w,
        None => {
            return None;
        },
    };
    Some(
        DexPriceMsg::TickUpdate(
            TickUpdate {
                block,
                tx_idx,
                protocol: info.protocol,
                pool: call_info.target,
                token_0: info.token_0,
                token_1: info.token_1,
                sqrt_price_x96,
                liquidity,
                tick,
            },
        ),
    )
}

/// The new state of the pool that a frame has called.
fn read_update(
    call_info: &CallFrameInfo,
    info: PoolInfo,
    block: u64,
    tx_idx: u64,
    kind: DecoderKind,
) -> (r: Option<DexPriceMsg>)
    ensures
        r == update_of(call_info@, info, block, tx_idx, kind),
{
    match kind {
        DecoderKind::Swap => read_reserves(call_info, info, block, tx_idx),
        DecoderKind::Mint => read_reserves(call_info, info, block, tx_idx),
        DecoderKind::Burn => read_reserves(call_info, info, block, tx_idx),
        DecoderKind::TickSwap => read_ticks(call_info, info, block, tx_idx),
        DecoderKind::TickMint => None,
        DecoderKind::TickBurn => None,
    }
}

/// The new reserves of the constant-product pool that a frame has called.
fn read_reserves(call_info: &CallFrameInfo, info: PoolInfo, block: u64, tx_idx: u64) -> (r: Option<
    DexPriceMsg,
>)
    ensures
        r == reserves_of(call_info@, info, block, tx_idx),
{
    let at = match find_last_with(&call_info.logs, sync_signature()) {
        Some(i) => i,
        None => {
            return None;
        },
    };
    let log = &call_info.logs[at];
    let reserve_0 = match word_at(&log.data, 0) {
        Some(w) => w,
        None => {
            return None;
        },
    };
    let reserve_1 = match word_at(&log.data, 32) {
        Some(w) => w,
        None => {
            return None;
        },
    };
    Some(
        DexPriceMsg::Update(
            PoolUpdate {
                block,
                tx_idx,
                protocol: info.protocol,
                pool: call_info.target,
                token_0: info.token_0,
                token_1: info.token_1,
                reserve_0,
                reserve_1,
            },
        ),
    )
}

impl Registry {
    /// A registry without decoders.
    pub fn new() -> (r: Registry)
        ensures
            r@ == Seq::<DecoderView>::empty(),
    {
        let r = Registry { decoders: Vec::new() };
        assert(r@ =~= Seq::<DecoderView>::empty());
        r
    }

    /// Adds a decoder behind the others.
    pub fn register(&mut self, decoder: Decoder)
        ensures
            final(self)@ == old(self)@.push(decoder@),
    {
        self.decoders.push(decoder);
        assert(self@ =~= old(self)@.push(decoder@));
    }

    /// Adds the swap, mint and burn decoders of a protocol with
    /// constant-product pools.
    pub fn register_constant_product(&mut self, protocol: Protocol)
        ensures
            final(self)@ == old(self)@ + constant_product(protocol),
    {
        let mut swap: Vec<LogMatcher> = Vec::new();
        swap.push(LogMatcher::Ignore(sync_signature()));
        swap.push(LogMatcher::Exact(swap_signature()));
        let mut mint: Vec<LogMatcher> = Vec::new();
        mint.push(LogMatcher::Possible(transfer_signature()));
        mint.push(LogMatcher::Ignore(transfer_signature()));
        mint.push(LogMatcher::Ignore(sync_signature()));
        mint.push(LogMatcher::Exact(mint_signature()));
        let mut burn: Vec<LogMatcher> = Vec::new();
        burn.push(LogMatcher::Possible(transfer_signature()));
        burn.push(LogMatcher::Ignore(transfer_signature()));
        burn.push(LogMatcher::Ignore(sync_signature()));
        burn.push(LogMatcher::Exact(burn_signature()));
        proof {
            assert(swap@ =~= swap_pattern());
            assert(mint@ =~= mint_pattern());
            assert(burn@ =~= burn_pattern());
        }
        self.register(
            Decoder { protocol, selector: SWAP_SELECTOR, pattern: swap, kind: DecoderKind::Swap },
        );
        self.register(
            Decoder { protocol, selector: MINT_SELECTOR, pattern: mint, kind: DecoderKind::Mint },
        );
        self.register(
            Decoder { protocol, selector: BURN_SELECTOR, pattern: burn, kind: DecoderKind::Burn },
        );
        assert(self@ =~= old(self)@ + constant_product(protocol));
    }

    /// Adds the swap, mint and burn decoders of a protocol whose pools have
    /// ticks.
    pub fn register_tick_pools(&mut self, protocol: Protocol)
        ensures
            final(self)@ == old(self)@ + tick_pools(protocol),
    {
        let mut swap: Vec<LogMatcher> = Vec::new();
        swap.push(LogMatcher::Exact(tick_swap_signature()));
        let mut mint: Vec<LogMatcher> = Vec::new();
        mint.push(LogMatcher::Exact(tick_mint_signature()));
        let mut burn: Vec<LogMatcher> = Vec::new();
        burn.push(LogMatcher::Exact(tick_burn_signature()));
        proof {
            assert(swap@ =~= seq![LogMatcher::Exact(tick_swap_event())]);
            assert(mint@ =~= seq![LogMatcher::Exact(tick_mint_event())]);
            assert(burn@ =~= seq![LogMatcher::Exact(tick_burn_event())]);
        }
        self.register(
            Decoder {
                protocol,
                selector: TICK_SWAP_SELECTOR,
                pattern: swap,
                kind: DecoderKind::TickSwap,
            },
        );
        self.register(
            Decoder {
                protocol,
                selector: TICK_MINT_SELECTOR,
                pattern: mint,
                kind: DecoderKind::TickMint,
            },
        );
        self.register(
            Decoder {
                protocol,
                selector: TICK_BURN_SELECTOR,
                pattern: burn,
                kind: DecoderKind::TickBurn,
            },
        );
        assert(self@ =~= old(self)@ + tick_pools(protocol));
    }

    /// The registry of every protocol that the library decodes: those with
    /// constant-product pools, then those whose pools have ticks.
    pub fn standard() -> (r: Registry)
        ensures
            r@ == constant_product(Protocol::UniswapV2) + constant_product(Protocol::SushiSwapV2)
                + constant_product(Protocol::PancakeSwapV2) + tick_pools(Protocol::UniswapV3)
                + tick_pools(Protocol::SushiSwapV3),
    {
        let mut r = Registry::constant_product_family();
        r.register_tick_pools(Protocol::UniswapV3);
        r.register_tick_pools(Protocol::SushiSwapV3);
        r
    }

    /// The registry of the protocols with constant-product pools.
    pub fn constant_product_family() -> (r: Registry)
        ensures
            r@ == constant_product(Protocol::UniswapV2) + constant_product(Protocol::SushiSwapV2)
                + constant_product(Protocol::PancakeSwapV2),
    {
        let mut r = Registry::new();
        r.register_constant_product(Protocol::UniswapV2);
        r.register_constant_product(Protocol::SushiSwapV2);
        r.register_constant_product(Protocol::PancakeSwapV2);
        assert(r@ =~= constant_product(Protocol::UniswapV2) + constant_product(
            Protocol::SushiSwapV2,
        ) + constant_product(Protocol::PancakeSwapV2));
        r
    }

    /// The action of a frame and the message to the pricing side that goes
    /// with it: what dispatch gives, or the frame's raw input and logs
    /// where dispatch gives nothing.
    pub fn classify(&self, call_info: &CallFrameInfo, db_tx: &Metadata, block: u64, tx_idx: u64) -> (r: (
        Actions,
        Option<DexPriceMsg>,
    ))
        requires
            db_tx.wf(),
        ensures
            (r.0@, r.1) == classified_as(self@, call_info@, db_tx@, block, tx_idx),
    {
        match self.dispatch(call_info, db_tx, block, tx_idx) {
            Some((msg, action)) => (action, msg),
            None => (
                Actions::Unclassified(
                    Unclassified {
                        trace_index: call_info.trace_index,
                        input: clone_vec(&call_info.input),
                        logs: clone_logs(&call_info.logs),
                    },
                ),
                None,
            ),
        }
    }
}

impl ActionCollection for Registry {
    open spec fn outcome(
        &self,
        call_info: CallFrameView,
        db: MetadataView,
        block: u64,
        tx_idx: u64,
    ) -> Option<(Option<DexPriceMsg>, ActionView)> {
        dispatched(self@, call_info, db, block, tx_idx)
    }

    fn dispatch(&self, call_info: &CallFrameInfo, db_tx: &Metadata, block: u64, tx_idx: u64) -> (r:
        Option<(Option<DexPriceMsg>, Actions)>) {
        let protocol = match db_tx.protocol_of(call_info.target) {
            Some(p) => p,
            None => {
                return None;
            },
        };
        let tokens = match db_tx.tokens_of(call_info.target) {
            Some(t) => t,
            None => {
                return None;
            },
        };
        let info = PoolInfo { protocol, token_0: tokens.0, token_1: tokens.1 };
        let sel = match selector(&call_info.input) {
            Some(s) => s,
            None => {
                return None;
            },
        };
        let mut k: usize = 0;
        while k < self.decoders.len()
            invariant
                k <= self.decoders@.len(),
                db_tx.wf(),
                db_tx@.pools.get(call_info@.target) == Some(info),
                selector_of(call_info@.input) == Some(sel),
                info.protocol == protocol,
                first_action(self@, protocol, sel, call_info@, db_tx@, 0) == first_action(
                    self@,
                    protocol,
                    sel,
                    call_info@,
                    db_tx@,
                    k as int,
                ),
                first_kind(self@, protocol, sel, call_info@, db_tx@, 0) == first_kind(
                    self@,
                    protocol,
                    sel,
                    call_info@,
                    db_tx@,
                    k as int,
                ),
            decreases self.decoders@.len() - k,
        {
            let decoder = &self.decoders[k];
            assert(self@[k as int] == decoder@);
            if decoder.protocol == protocol && decoder.selector == sel {
                match decoder.decode_trace_data(call_info, block, tx_idx, db_tx) {
                    Some(action) => {
                        let msg = read_update(call_info, info, block, tx_idx, decoder.kind);
                        proof {
                            assert(decoder.action_of(call_info@, db_tx@) == Some(action@));
                            assert(decoder_action(self@[k as int], call_info@, db_tx@) == Some(
                                action@,
                            ));
                            assert(first_action(self@, protocol, sel, call_info@, db_tx@, k as int)
                                == Some(action@));
                            assert(first_kind(self@, protocol, sel, call_info@, db_tx@, k as int)
                                == Some(decoder.kind));
                        }
                        return Some((msg, action));
                    },
                    None => {
                        assert(decoder_action(self@[k as int], call_info@, db_tx@) is None);
                    },
                }
            }
            k = k + 1;
        }
        None
    }
}

/// Whether two decoders are for the same calls and make the same of a
/// frame.
pub open spec fn decodes_alike(d: DecoderView, e: DecoderView, frame: CallFrameView, db: MetadataView) -> bool {
    &&& d.protocol == e.protocol
    &&& d.selector == e.selector
    &&& d.kind == e.kind
    &&& decoder_action(d, frame, db) == decoder_action(e, frame, db)
}

/// Whether two registries decode every frame that satisfies `ok` alike,
/// decoder by decoder.
pub open spec fn same_decoding(d: Seq<DecoderView>, e: Seq<DecoderView>, ok: spec_fn(CallFrameView) -> bool) -> bool {
    &&& d.len() == e.len()
    &&& forall|k: int, frame: CallFrameView, db: MetadataView|
        0 <= k < d.len() && ok(frame) ==> #[trigger] decodes_alike(d[k], e[k], frame, db)
}

/// Two registries that decode a frame alike find the same first decoder
/// for it.
pub proof fn lemma_first_alike(
    d: Seq<DecoderView>,
    e: Seq<DecoderView>,
    ok: spec_fn(CallFrameView) -> bool,
    protocol: Protocol,
    selector: u32,
    frame: CallFrameView,
    db: MetadataView,
    k: int,
)
    requires
        same_decoding(d, e, ok),
        ok(frame),
        0 <= k,
    ensures
        first_action(d, protocol, selector, frame, db, k) == first_action(
            e,
            protocol,
            selector,
            frame,
            db,
            k,
        ),
        first_kind(d, protocol, selector, frame, db, k) == first_kind(
            e,
            protocol,
            selector,
            frame,
            db,
            k,
        ),
    decreases d.len() - k,
{
    if k < d.len() {
        assert(decodes_alike(d[k], e[k], frame, db));
        lemma_first_alike(d, e, ok, protocol, selector, frame, db, k + 1);
    }
}

/// Two registries that decode a frame alike classify it alike.
pub proof fn lemma_classified_alike(
    d: Seq<DecoderView>,
    e: Seq<DecoderView>,
    ok: spec_fn(CallFrameView) -> bool,
    frame: CallFrameView,
    db: MetadataView,
    block: u64,
    tx_idx: u64,
)
    requires
        same_decoding(d, e, ok),
        ok(frame),
    ensures
        classified_as(d, frame, db, block, tx_idx) == classified_as(e, frame, db, block, tx_idx),
{
    match (db.pools.get(frame.target), selector_of(frame.input)) {
        (Some(info), Some(sel)) => {
            lemma_first_alike(d, e, ok, info.protocol, sel, frame, db, 0);
        },
        _ => {},
    }
}

/// Pattern matching, reordering, for decoders: a decoder whose pattern has
/// two neighbouring entries exchanged, of which at least one is not read,
/// makes the same of every frame.
pub proof fn lemma_reordered_decoder(d: DecoderView, i: int, frame: CallFrameView, db: MetadataView)
    requires
        0 <= i,
        i + 1 < d.pattern.len(),
        !(d.pattern[i] is Exact) || !(d.pattern[i + 1] is Exact),
    ensures
        decodes_alike(
            d,
            DecoderView { pattern: crate::pattern::exchanged(d.pattern, i), ..d },
            frame,
            db,
        ),
{
    crate::pattern::lemma_reorder_ignores(d.pattern, i, frame.logs);
}

/// Pattern matching, optional events, for decoders: a decoder whose
/// pattern has lost an optional event makes the same of every frame in
/// whose logs the event does not occur.
pub proof fn lemma_trimmed_decoder(
    d: DecoderView,
    i: int,
    event: B256,
    frame: CallFrameView,
    db: MetadataView,
)
    requires
        0 <= i < d.pattern.len(),
        d.pattern[i] == LogMatcher::Possible(event),
        forall|j: int|
            0 <= j < frame.logs.len() ==> log_signature(#[trigger] frame.logs[j]) != Some(event),
    ensures
        decodes_alike(d, DecoderView { pattern: d.pattern.remove(i), ..d }, frame, db),
{
    crate::pattern::lemma_absent_possible(d.pattern, i, event, frame.logs);
}

/// Pattern matching, missing events, for decoders: a decoder whose pattern
/// has lost an event that it read, and does not pass over, makes nothing
/// of a frame of which it made something before.
pub proof fn lemma_starved_decoder(
    d: DecoderView,
    i: int,
    event: B256,
    frame: CallFrameView,
    db: MetadataView,
)
    requires
        0 <= i < d.pattern.len(),
        d.pattern[i] == LogMatcher::Exact(event),
        !crate::pattern::ignored(d.pattern).contains(event),
        decoder_action(d, frame, db) is Some,
    ensures
        decoder_action(DecoderView { pattern: d.pattern.remove(i), ..d }, frame, db) is None,
{
    crate::pattern::lemma_missing_exact(d.pattern, i, event, frame.logs);
}

/// Whether no decoder of the registry from place `k` on makes anything of
/// the frame.
pub open spec fn none_decodes(d: Seq<DecoderView>, frame: CallFrameView, db: MetadataView, k: int) -> bool {
    forall|j: int| k <= j < d.len() ==> decoder_action(#[trigger] d[j], frame, db) is None
}

/// Where no decoder makes anything of a frame, there is no first action.
pub proof fn lemma_first_none(
    d: Seq<DecoderView>,
    protocol: Protocol,
    selector: u32,
    frame: CallFrameView,
    db: MetadataView,
    k: int,
)
    requires
        0 <= k,
        none_decodes(d, frame, db, k),
    ensures
        first_action(d, protocol, selector, frame, db, k) is None,
    decreases d.len() - k,
{
    if k < d.len() {
        assert(decoder_action(d[k], frame, db) is None);
        lemma_first_none(d, protocol, selector, frame, db, k + 1);
    }
}

/// Pattern matching, missing events, for registries: where the one decoder
/// that makes something of a frame loses from its pattern an event that it
/// read, and does not pass over, the registry leaves the frame
/// unclassified and sends no message for it.
pub proof fn lemma_starved_registry(
    d: Seq<DecoderView>,
    k: int,
    i: int,
    event: B256,
    frame: CallFrameView,
    db: MetadataView,
    block: u64,
    tx_idx: u64,
)
    requires
        0 <= k < d.len(),
        forall|j: int| 0 <= j < d.len() && j != k ==> decoder_action(#[trigger] d[j], frame, db) is None,
        0 <= i < d[k].pattern.len(),
        d[k].pattern[i] == LogMatcher::Exact(event),
        !crate::pattern::ignored(d[k].pattern).contains(event),
        decoder_action(d[k], frame, db) is Some,
    ensures
        classified_as(
            d.update(k, DecoderView { pattern: d[k].pattern.remove(i), ..d[k] }),
            frame,
            db,
            block,
            tx_idx,
        ) == (unclassified_of(frame), None::<DexPriceMsg>),
{
    let starved = DecoderView { pattern: d[k].pattern.remove(i), ..d[k] };
    let e = d.update(k, starved);
    lemma_starved_decoder(d[k], i, event, frame, db);
    assert forall|j: int| 0 <= j < e.len() implies decoder_action(#[trigger] e[j], frame, db) is None by {
        if j != k {
            assert(e[j] == d[j]);
        }
    }
    match (db.pools.get(frame.target), selector_of(frame.input)) {
        (Some(info), Some(sel)) => {
            lemma_first_none(e, info.protocol, sel, frame, db, 0);
        },
        _ => {},
    }
}

} // verus!
