//! The decoder registry: which call of which protocol, with which logs,
//! is which action. The table is data; one interpreter runs it.

use vstd::prelude::*;
use crate::primitives::{Address, B256, U256};
use crate::abi::{address_at, address_of, word_at, word_of};
use crate::actions::{
    ActionView, Actions, LiquidityView, Log, LogView, NormalizedBurn, NormalizedMint,
    NormalizedSwap, Protocol, logs_view,
};
use crate::metadata::{Metadata, MetadataView, PoolInfo};
use crate::pattern::{LogMatcher, lemma_scan_captures, match_logs, matched, places};
use crate::pool::{PoolUpdate, TickUpdate};

verus! {

/// One call frame of a trace, as the tracing provider hands it over.
#[derive(Debug)]
pub struct CallFrameInfo {
    pub trace_index: u64,
    pub from: Address,
    pub target: Address,
    pub msg_sender: Address,
    pub value: U256,
    pub input: Vec<u8>,
    pub logs: Vec<Log>,
    /// The trace indices of the calls that the frame made, in call order.
    pub subtraces: Vec<u64>,
    /// The address of the contract that the frame created, if it is a
    /// creation.
    pub created: Option<Address>,
}

/// What a call frame holds.
pub struct CallFrameView {
    pub trace_index: u64,
    pub from: Address,
    pub target: Address,
    pub msg_sender: Address,
    pub value: U256,
    pub input: Seq<u8>,
    pub logs: Seq<LogView>,
    pub subtraces: Seq<u64>,
    pub created: Option<Address>,
}

impl View for CallFrameInfo {
    type V = CallFrameView;

    open spec fn view(&self) -> CallFrameView {
        CallFrameView {
            trace_index: self.trace_index,
            from: self.from,
            target: self.target,
            msg_sender: self.msg_sender,
            value: self.value,
            input: self.input@,
            logs: logs_view(self.logs@),
            subtraces: self.subtraces@,
            created: self.created,
        }
    }
}

/// A message to the pricing side.
#[derive(Clone, Copy, Debug, PartialEq, Eq, Structural)]
pub enum DexPriceMsg {
    /// A pool has new reserves.
    Update(PoolUpdate),
    /// A pool with ticks has a new price and liquidity.
    TickUpdate(TickUpdate),
    /// A pool was created.
    DiscoveredPool(Address, PoolInfo),
}

/// The selector of `swap(uint256,uint256,address,bytes)`.
pub const SWAP_SELECTOR: u32 = 0x022c0d9f;

/// The selector of `mint(address)`.
pub const MINT_SELECTOR: u32 = 0x6a627842;

/// The selector of `burn(address)`.
pub const BURN_SELECTOR: u32 = 0x89afcb44;

/// The selector of `swap(address,bool,int256,uint160,bytes)`.
pub const TICK_SWAP_SELECTOR: u32 = 0x128acb08;

/// The selector of `mint(address,int24,int24,uint128,bytes)`.
pub const TICK_MINT_SELECTOR: u32 = 0x3c8a7d8d;

/// The selector of `burn(int24,int24,uint128)`.
pub const TICK_BURN_SELECTOR: u32 = 0xa34123a7;

/// The signature of `Swap(address,address,int256,int256,uint160,uint128,int24)`.
pub open spec fn tick_swap_event() -> B256 {
    B256 { hi: 0xc42079f94a6350d7e6235f29174924f9, lo: 0x28cc2ac818eb64fed8004e115fbcca67 }
}

/// The signature of `Mint(address,address,int24,int24,uint128,uint256,uint256)`.
pub open spec fn tick_mint_event() -> B256 {
    B256 { hi: 0x7a53080ba414158be7ec69b987b5fb7d, lo: 0x07dee101fe85488f0853ae16239d0bde }
}

/// The signature of `Burn(address,int24,int24,uint128,uint256,uint256)`.
pub open spec fn tick_burn_event() -> B256 {
    B256 { hi: 0x0c396cd989a39f4459b5fa1aed6a9a8d, lo: 0xcdbc45908acfd67e028cd568da98982c }
}

/// The signature of `Swap(address,address,int256,int256,uint160,uint128,int24)`.
pub fn tick_swap_signature() -> (r: B256)
    ensures
        r == tick_swap_event(),
{
    B256 { hi: 0xc42079f94a6350d7e6235f29174924f9, lo: 0x28cc2ac818eb64fed8004e115fbcca67 }
}

/// The signature of `Mint(address,address,int24,int24,uint128,uint256,uint256)`.
pub fn tick_mint_signature() -> (r: B256)
    ensures
        r == tick_mint_event(),
{
    B256 { hi: 0x7a53080ba414158be7ec69b987b5fb7d, lo: 0x07dee101fe85488f0853ae16239d0bde }
}

/// The signature of `Burn(address,int24,int24,uint128,uint256,uint256)`.
pub fn tick_burn_signature() -> (r: B256)
    ensures
        r == tick_burn_event(),
{
    B256 { hi: 0x0c396cd989a39f4459b5fa1aed6a9a8d, lo: 0xcdbc45908acfd67e028cd568da98982c }
}

/// The signature of `Swap(address,uint256,uint256,uint256,uint256,address)`.
pub open spec fn swap_event() -> B256 {
    B256 { hi: 0xd78ad95fa46c994b6551d0da85fc275f, lo: 0xe613ce37657fb8d5e3d130840159d822 }
}

/// The signature of `Sync(uint112,uint112)`.
pub open spec fn sync_event() -> B256 {
    B256 { hi: 0x1c411e9a96e071241c2f21f7726b17ae, lo: 0x89e3cab4c78be50e062b03a9fffbbad1 }
}

/// The signature of `Mint(address,uint256,uint256)`.
pub open spec fn mint_event() -> B256 {
    B256 { hi: 0x4c209b5fc8ad50758f13e2e1088ba56a, lo: 0x560dff690a1c6fef26394f4c03821c4f }
}

/// The signature of `Burn(address,uint256,uint256,address)`.
pub open spec fn burn_event() -> B256 {
    B256 { hi: 0xdccd412f0b1252819cb1fd330b93224c, lo: 0xa42612892bb3f4f789976e6d81936496 }
}

/// The signature of `Transfer(address,address,uint256)`.
pub open spec fn transfer_event() -> B256 {
    B256 { hi: 0xddf252ad1be2c89b69c2b068fc378daa, lo: 0x952ba7f163c4a11628f55a4df523b3ef }
}

/// The signature of `Swap(address,uint256,uint256,uint256,uint256,address)`.
pub fn swap_signature() -> (r: B256)
    ensures
        r == swap_event(),
{
    B256 { hi: 0xd78ad95fa46c994b6551d0da85fc275f, lo: 0xe613ce37657fb8d5e3d130840159d822 }
}

/// The signature of `Sync(uint112,uint112)`.
pub fn sync_signature() -> (r: B256)
    ensures
        r == sync_event(),
{
    B256 { hi: 0x1c411e9a96e071241c2f21f7726b17ae, lo: 0x89e3cab4c78be50e062b03a9fffbbad1 }
}

/// The signature of `Mint(address,uint256,uint256)`.
pub fn mint_signature() -> (r: B256)
    ensures
        r == mint_event(),
{
    B256 { hi: 0x4c209b5fc8ad50758f13e2e1088ba56a, lo: 0x560dff690a1c6fef26394f4c03821c4f }
}

/// The signature of `Burn(address,uint256,uint256,address)`.
pub fn burn_signature() -> (r: B256)
    ensures
        r == burn_event(),
{
    B256 { hi: 0xdccd412f0b1252819cb1fd330b93224c, lo: 0xa42612892bb3f4f789976e6d81936496 }
}

/// The signature of `Transfer(address,address,uint256)`.
pub fn transfer_signature() -> (r: B256)
    ensures
        r == transfer_event(),
{
    B256 { hi: 0xddf252ad1be2c89b69c2b068fc378daa, lo: 0x952ba7f163c4a11628f55a4df523b3ef }
}

/// What a decoder makes of a call and the log it has captured.
#[derive(Clone, Copy, Debug, PartialEq, Eq, Structural)]
pub enum DecoderKind {
    /// A swap against a constant-product pool.
    Swap,
    /// Liquidity added to a constant-product pool.
    Mint,
    /// Liquidity removed from a constant-product pool.
    Burn,
    /// A swap against a pool with ticks.
    TickSwap,
    /// Liquidity added to a pool with ticks.
    TickMint,
    /// Liquidity removed from a pool with ticks.
    TickBurn,
}

/// One entry of the registry.
#[derive(Debug)]
pub struct Decoder {
    pub protocol: Protocol,
    pub selector: u32,
    pub pattern: Vec<LogMatcher>,
    pub kind: DecoderKind,
}

/// What a registry entry holds.
pub struct DecoderView {
    pub protocol: Protocol,
    pub selector: u32,
    pub pattern: Seq<LogMatcher>,
    pub kind: DecoderKind,
}

impl View for Decoder {
    type V = DecoderView;

    open spec fn view(&self) -> DecoderView {
        DecoderView {
            protocol: self.protocol,
            selector: self.selector,
            pattern: self.pattern@,
            kind: self.kind,
        }
    }
}

/// The swap that a call of `swap` with its `Swap` log is: the recipient is
/// the third argument of the call; what went in is token 1 if no token 0
/// went in, and token 0 otherwise. A swap in which nothing went in and
/// nothing came out is none.
pub open spec fn swap_of(frame: CallFrameView, log: LogView, tokens: (Address, Address)) -> Option<
    NormalizedSwap,
> {
    match (
        address_of(frame.input, 68),
        word_of(log.data, 0),
        word_of(log.data, 32),
        word_of(log.data, 64),
        word_of(log.data, 96),
    ) {
        (Some(recipient), Some(in_0), Some(in_1), Some(out_0), Some(out_1)) => {
            let swap = if in_0.value() == 0 {
                NormalizedSwap {
                    trace_index: frame.trace_index,
                    from: frame.from,
                    recipient,
                    pool: frame.target,
                    token_in: tokens.1,
                    token_out: tokens.0,
                    amount_in: in_1,
                    amount_out: out_0,
                }
            } else {
                NormalizedSwap {
                    trace_index: frame.trace_index,
                    from: frame.from,
                    recipient,
                    pool: frame.target,
                    token_in: tokens.0,
                    token_out: tokens.1,
                    amount_in: in_0,
                    amount_out: out_1,
                }
            };
            if swap.amount_in.value() == 0 && swap.amount_out.value() == 0 {
                None
            } else {
                Some(swap)
            }
        },
        _ => None,
    }
}

/// The change of liquidity that a call of `mint` or `burn` with its `Mint`
/// or `Burn` log is: the recipient is the first argument of the call, the
/// amounts are the first two words of the log.
pub open spec fn liquidity_of(frame: CallFrameView, log: LogView, tokens: (Address, Address)) -> Option<
    LiquidityView,
> {
    match (address_of(frame.input, 4), word_of(log.data, 0), word_of(log.data, 32)) {
        (Some(recipient), Some(amount_0), Some(amount_1)) => Some(
            LiquidityView {
                trace_index: frame.trace_index,
                from: frame.from,
                pool: frame.target,
                recipient,
                tokens: seq![tokens.0, tokens.1],
                amounts: seq![amount_0, amount_1],
            },
        ),
        _ => None,
    }
}

/// The swap that a call of `swap` on a pool with ticks with its `Swap` log
/// is. The recipient is the first argument of the call. The log holds what
/// the pool has gained of each token, as signed numbers: the token of which
/// it has lost some came out, the other went in; where it has lost none of
/// the first, the first went in. A swap in which nothing went in and
/// nothing came out is none.
pub open spec fn tick_swap_of(frame: CallFrameView, log: LogView, tokens: (Address, Address)) -> Option<
    NormalizedSwap,
> {
    match (address_of(frame.input, 4), word_of(log.data, 0), word_of(log.data, 32)) {
        (Some(recipient), Some(delta_0), Some(delta_1)) => {
            let swap = if delta_0.signed_value() < 0 {
                NormalizedSwap {
                    trace_index: frame.trace_index,
                    from: frame.from,
                    recipient,
                    pool: frame.target,
                    token_in: tokens.1,
                    token_out: tokens.0,
                    amount_in: delta_1.absolute(),
                    amount_out: delta_0.absolute(),
                }
            } else {
                NormalizedSwap {
                    trace_index: frame.trace_index,
                    from: frame.from,
                    recipient,
                    pool: frame.target,
                    token_in: tokens.0,
                    token_out: tokens.1,
                    amount_in: delta_0.absolute(),
                    amount_out: delta_1.absolute(),
                }
            };
            if swap.amount_in.value() == 0 && swap.amount_out.value() == 0 {
                None
            } else {
                Some(swap)
            }
        },
        _ => None,
    }
}

/// The liquidity that a call of `mint` on a pool with ticks with its `Mint`
/// log adds: the recipient is the first argument of the call, the amounts
/// are the third and fourth word of the log.
pub open spec fn tick_mint_of(frame: CallFrameView, log: LogView, tokens: (Address, Address)) -> Option<
    LiquidityView,
> {
    match (address_of(frame.input, 4), word_of(log.data, 64), word_of(log.data, 96)) {
        (Some(recipient), Some(amount_0), Some(amount_1)) => Some(
            LiquidityView {
                trace_index: frame.trace_index,
                from: frame.from,
                pool: frame.target,
                recipient,
                tokens: seq![tokens.0, tokens.1],
                amounts: seq![amount_0, amount_1],
            },
        ),
        _ => None,
    }
}

/// The liquidity that a call of `burn` on a pool with ticks with its `Burn`
/// log removes: it stays with the caller until it is collected, and the
/// amounts are the second and third word of the log.
pub open spec fn tick_burn_of(frame: CallFrameView, log: LogView, tokens: (Address, Address)) -> Option<
    LiquidityView,
> {
    match (word_of(log.data, 32), word_of(log.data, 64)) {
        (Some(amount_0), Some(amount_1)) => Some(
            LiquidityView {
                trace_index: frame.trace_index,
                from: frame.from,
                pool: frame.target,
                recipient: frame.from,
                tokens: seq![tokens.0, tokens.1],
                amounts: seq![amount_0, amount_1],
            },
        ),
        _ => None,
    }
}

/// The action that a kind of decoder makes of a call and the log it has
/// captured.
pub open spec fn decoded(kind: DecoderKind, frame: CallFrameView, log: LogView, tokens: (
    Address,
    Address,
)) -> Option<ActionView> {
    match kind {
        DecoderKind::TickSwap => match tick_swap_of(frame, log, tokens) {
            Some(s) => Some(ActionView::Swap(s)),
            None => None,
        },
        DecoderKind::TickMint => match tick_mint_of(frame, log, tokens) {
            Some(m) => Some(ActionView::Mint(m)),
            None => None,
        },
        DecoderKind::TickBurn => match tick_burn_of(frame, log, tokens) {
            Some(b) => Some(ActionView::Burn(b)),
            None => None,
        },
        DecoderKind::Swap => match swap_of(frame, log, tokens) {
            Some(s) => Some(ActionView::Swap(s)),
            None => None,
        },
        DecoderKind::Mint => match liquidity_of(frame, log, tokens) {
            Some(m) => Some(ActionView::Mint(m)),
            None => None,
        },
        DecoderKind::Burn => match liquidity_of(frame, log, tokens) {
            Some(b) => Some(ActionView::Burn(b)),
            None => None,
        },
    }
}

/// The action that a registry entry makes of a call frame: the logs have to
/// match the pattern and capture one log, the target has to be a known
/// pool, and the call data and the log have to decode.
pub open spec fn decoder_action(d: DecoderView, frame: CallFrameView, db: MetadataView) -> Option<
    ActionView,
> {
    match (matched(d.pattern, frame.logs), db.pools.get(frame.target)) {
        (Some(found), Some(info)) => if found.len() == 1 {
            decoded(d.kind, frame, frame.logs[found[0]], (info.token_0, info.token_1))
        } else {
            None
        },
        _ => None,
    }
}

/// A swap, decoded.
fn decode_swap(call_info: &CallFrameInfo, log: &Log, tokens: (Address, Address)) -> (r: Option<
    NormalizedSwap,
>)
    ensures
        r == swap_of(call_info@, log@, tokens),
{
    let recipient = match address_at(&call_info.input, 68) {
        Some(a) => a,
        None => {
            return None;
        },
    };
    let amount_0_in = match word_at(&log.data, 0) {
        Some(w) => w,
        None => {
            return None;
        },
    };
    let amount_1_in = match word_at(&log.data, 32) {
        Some(w) => w,
        None => {
            return None;
        },
    };
    let amount_0_out = match word_at(&log.data, 64) {
        Some(w) => w,
        None => {
            return None;
        },
    };
    let amount_1_out = match word_at(&log.data, 96) {
        Some(w) => w,
        None => {
            return None;
        },
    };
    let swap = if amount_0_in.is_zero() {
        NormalizedSwap {
            trace_index: call_info.trace_index,
            from: call_info.from,
            recipient,
            pool: call_info.target,
            token_in: tokens.1,
            token_out: tokens.0,
            amount_in: amount_1_in,
            amount_out: amount_0_out,
        }
    } else {
        NormalizedSwap {
            trace_index: call_info.trace_index,
            from: call_info.from,
            recipient,
            pool: call_info.target,
            token_in: tokens.0,
            token_out: tokens.1,
            amount_in: amount_0_in,
            amount_out: amount_1_out,
        }
    };
    if swap.amount_in.is_zero() && swap.amount_out.is_zero() {
        None
    } else {
        Some(swap)
    }
}

/// A swap against a pool with ticks, decoded.
fn decode_tick_swap(call_info: &CallFrameInfo, log: &Log, tokens: (Address, Address)) -> (r: Option<
    NormalizedSwap,
>)
    ensures
        r == tick_swap_of(call_info@, log@, tokens),
{
    let recipient = match address_at(&call_info.input, 4) {
        Some(a) => a,
        None => {
            return None;
        },
    };
    let delta_0 = match word_at(&log.data, 0) {
        Some(w) => w,
        None => {
            return None;
        },
    };
    let delta_1 = match word_at(&log.data, 32) {
        Some(w) => w,
        None => {
            return None;
        },
    };
    let swap = if delta_0.is_negative() {
        NormalizedSwap {
            trace_index: call_info.trace_index,
            from: call_info.from,
            recipient,
            pool: call_info.target,
            token_in: tokens.1,
            token_out: tokens.0,
            amount_in: delta_1.magnitude(),
            amount_out: delta_0.magnitude(),
        }
    } else {
        NormalizedSwap {
            trace_index: call_info.trace_index,
            from: call_info.from,
            recipient,
            pool: call_info.target,
            token_in: tokens.0,
            token_out: tokens.1,
            amount_in: delta_0.magnitude(),
            amount_out: delta_1.magnitude(),
        }
    };
    if swap.amount_in.is_zero() && swap.amount_out.is_zero() {
        None
    } else {
        Some(swap)
    }
}

/// A list of the two tokens of a pool, and a list of two amounts.
fn two_sides(tokens: (Address, Address), amount_0: U256, amount_1: U256) -> (r: (
    Vec<Address>,
    Vec<U256>,
))
    ensures
        r.0@ == seq![tokens.0, tokens.1],
        r.1@ == seq![amount_0, amount_1],
{
    let mut token_list: Vec<Address> = Vec::new();
    token_list.push(tokens.0);
    token_list.push(tokens.1);
    let mut amounts: Vec<U256> = Vec::new();
    amounts.push(amount_0);
    amounts.push(amount_1);
    assert(token_list@ =~= seq![tokens.0, tokens.1]);
    assert(amounts@ =~= seq![amount_0, amount_1]);
    (token_list, amounts)
}

/// Liquidity added to a pool with ticks, decoded.
fn decode_tick_mint(call_info: &CallFrameInfo, log: &Log, tokens: (Address, Address)) -> (r: Option<
    NormalizedMint,
>)
    ensures
        match r {
            Some(m) => tick_mint_of(call_info@, log@, tokens) == Some(m@),
            None => tick_mint_of(call_info@, log@, tokens) is None,
        },
{
    let recipient = match address_at(&call_info.input, 4) {
        Some(a) => a,
        None => {
            return None;
        },
    };
    let amount_0 = match word_at(&log.data, 64) {
        Some(w) => w,
        None => {
            return None;
        },
    };
    let amount_1 = match word_at(&log.data, 96) {
        Some(w) => w,
        None => {
            return None;
        },
    };
    let (token_list, amounts) = two_sides(tokens, amount_0, amount_1);
    Some(
        NormalizedMint {
            trace_index: call_info.trace_index,
            from: call_info.from,
            pool: call_info.target,
            recipient,
            tokens: token_list,
            amounts,
        },
    )
}

/// Liquidity removed from a pool with ticks, decoded.
fn decode_tick_burn(call_info: &CallFrameInfo, log: &Log, tokens: (Address, Address)) -> (r: Option<
    NormalizedBurn,
>)
    ensures
        match r {
            Some(b) => tick_burn_of(call_info@, log@, tokens) == Some(b@),
            None => tick_burn_of(call_info@, log@, tokens) is None,
        },
{
    let amount_0 = match word_at(&log.data, 32) {
        Some(w) => w,
        None => {
            return None;
        },
    };
    let amount_1 = match word_at(&log.data, 64) {
        Some(w) => w,
        None => {
            return None;
        },
    };
    let (token_list, amounts) = two_sides(tokens, amount_0, amount_1);
    Some(
        NormalizedBurn {
            trace_index: call_info.trace_index,
            from: call_info.from,
            pool: call_info.target,
            recipient: call_info.from,
            tokens: token_list,
            amounts,
        },
    )
}

/// The recipient and the two amounts of a change of liquidity, decoded.
fn decode_liquidity(call_info: &CallFrameInfo, log: &Log) -> (r: Option<(Address, U256, U256)>)
    ensures
        r == match (
            address_of(call_info@.input, 4),
            word_of(log@.data, 0),
            word_of(log@.data, 32),
        ) {
            (Some(recipient), Some(amount_0), Some(amount_1)) => Some(
                (recipient, amount_0, amount_1),
            ),
            _ => None::<(Address, U256, U256)>,
        },
{
    let recipient = match address_at(&call_info.input, 4) {
        Some(a) => a,
        None => {
            return None;
        },
    };
    let amount_0 = match word_at(&log.data, 0) {
        Some(w) => w,
        None => {
            return None;
        },
    };
    let amount_1 = match word_at(&log.data, 32) {
        Some(w) => w,
        None => {
            return None;
        },
    };
    Some((recipient, amount_0, amount_1))
}

/// The action that a kind of decoder makes of a call and the log it has
/// captured.
fn decode(kind: DecoderKind, call_info: &CallFrameInfo, log: &Log, tokens: (Address, Address)) -> (r:
    Option<Actions>)
    ensures
        match r {
            Some(a) => decoded(kind, call_info@, log@, tokens) == Some(a@),
            None => decoded(kind, call_info@, log@, tokens) is None,
        },
{
    match kind {
        DecoderKind::TickSwap => match decode_tick_swap(call_info, log, tokens) {
            Some(s) => Some(Actions::Swap(s)),
            None => None,
        },
        DecoderKind::TickMint => match decode_tick_mint(call_info, log, tokens) {
            Some(m) => Some(Actions::Mint(m)),
            None => None,
        },
        DecoderKind::TickBurn => match decode_tick_burn(call_info, log, tokens) {
            Some(b) => Some(Actions::Burn(b)),
            None => None,
        },
        DecoderKind::Swap => match decode_swap(call_info, log, tokens) {
            Some(s) => Some(Actions::Swap(s)),
            None => None,
        },
        DecoderKind::Mint => match decode_liquidity(call_info, log) {
            Some((recipient, amount_0, amount_1)) => {
                let (token_list, amounts) = two_sides(tokens, amount_0, amount_1);
                Some(
                    Actions::Mint(
                        NormalizedMint {
                            trace_index: call_info.trace_index,
                            from: call_info.from,
                            pool: call_info.target,
                            recipient,
                            tokens: token_list,
                            amounts,
                        },
                    ),
                )
            },
            None => None,
        },
        DecoderKind::Burn => match decode_liquidity(call_info, log) {
            Some((recipient, amount_0, amount_1)) => {
                let (token_list, amounts) = two_sides(tokens, amount_0, amount_1);
                Some(
                    Actions::Burn(
                        NormalizedBurn {
                            trace_index: call_info.trace_index,
                            from: call_info.from,
                            pool: call_info.target,
                            recipient,
                            tokens: token_list,
                            amounts,
                        },
                    ),
                )
            },
            None => None,
        },
    }
}

/// A decoder of a protocol's calls: it turns a call frame into an action.
pub trait IntoAction {
    /// The action that the decoder makes of a call frame, given what the
    /// metadata says.
    spec fn action_of(&self, call_info: CallFrameView, db: MetadataView) -> Option<ActionView>;

    /// Decodes a call frame. Nothing comes back where the frame is not what
    /// the decoder is for, or is semantically empty; the same frame and the
    /// same metadata always give the same answer.
    fn decode_trace_data(
        &self,
        call_info: &CallFrameInfo,
        block: u64,
        tx_idx: u64,
        db_tx: &Metadata,
    ) -> (r: Option<Actions>)
        requires
            db_tx.wf(),
        ensures
            match r {
                Some(a) => self.action_of(call_info@, db_tx@) == Some(a@),
                None => self.action_of(call_info@, db_tx@) is None,
            },
    ;
}

impl IntoAction for Decoder {
    open spec fn action_of(&self, call_info: CallFrameView, db: MetadataView) -> Option<ActionView> {
        decoder_action(self@, call_info, db)
    }

    fn decode_trace_data(
        &self,
        call_info: &CallFrameInfo,
        block: u64,
        tx_idx: u64,
        db_tx: &Metadata,
    ) -> (r: Option<Actions>) {
        let found = match match_logs(&self.pattern, &call_info.logs) {
            Some(found) => found,
            None => {
                return None;
            },
        };
        let tokens = match db_tx.tokens_of(call_info.target) {
            Some(t) => t,
            None => {
                return None;
            },
        };
        if found.len() != 1 {
            return None;
        }
        proof {
            lemma_scan_captures(
                crate::pattern::exact_sigs(self.pattern@),
                crate::pattern::ignored(self.pattern@),
                logs_view(call_info.logs@),
                0,
                0,
            );
            assert(places(found@)[0] == found@[0]);
            assert(logs_view(call_info.logs@)[found@[0] as int] == call_info.logs@[found@[0] as int]@);
        }
        decode(self.kind, call_info, &call_info.logs[found[0]], tokens)
    }
}

} // verus!
