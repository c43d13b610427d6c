//! Normalized, protocol-agnostic actions: what a call frame did, once its
//! call data and logs have been decoded.

use vstd::prelude::*;
use crate::primitives::{Address, B256, U256};

verus! {

/// The protocols whose pools are recognized.
#[derive(Clone, Copy, Debug, PartialEq, Eq, Hash, Structural)]
pub enum Protocol {
    UniswapV2,
    SushiSwapV2,
    PancakeSwapV2,
    UniswapV3,
    SushiSwapV3,
    PancakeSwapV3,
    CurveV1,
    CurveV2,
    BalancerV1,
    AaveV2,
    AaveV3,
    CompoundV2,
    MakerPSM,
    UniswapX,
}

/// A copy of a vector of plain values.
pub fn clone_vec<T: Copy>(v: &Vec<T>) -> (r: Vec<T>)
    ensures
        r@ == v@,
{
    let mut r: Vec<T> = Vec::new();
    let mut i: usize = 0;
    while i < v.len()
        invariant
            i <= v.len(),
            r@ == v@.take(i as int),
        decreases v.len() - i,
    {
        r.push(v[i]);
        i = i + 1;
        assert(v@.take(i as int) =~= v@.take(i - 1).push(v@[i - 1]));
    }
    assert(v@.take(v.len() as int) =~= v@);
    r
}

/// An event log as the chain records it.
#[derive(Debug)]
pub struct Log {
    pub address: Address,
    pub topics: Vec<B256>,
    pub data: Vec<u8>,
}

/// What a log holds.
pub struct LogView {
    pub address: Address,
    pub topics: Seq<B256>,
    pub data: Seq<u8>,
}

impl View for Log {
    type V = LogView;

    open spec fn view(&self) -> LogView {
        LogView { address: self.address, topics: self.topics@, data: self.data@ }
    }
}

impl Log {
    /// A copy of the log.
    pub fn duplicate(&self) -> (r: Log)
        ensures
            r@ == self@,
    {
        Log { address: self.address, topics: clone_vec(&self.topics), data: clone_vec(&self.data) }
    }

    /// The signature of the event, its first topic, where it has one.
    pub fn signature(&self) -> (r: Option<B256>)
        ensures
            r == log_signature(self@),
    {
        if self.topics.len() > 0 {
            Some(self.topics[0])
        } else {
            None
        }
    }
}

/// The first topic of a log, which names its event.
pub open spec fn log_signature(log: LogView) -> Option<B256> {
    if log.topics.len() > 0 {
        Some(log.topics[0])
    } else {
        None
    }
}

/// What a vector of logs holds.
pub open spec fn logs_view(logs: Seq<Log>) -> Seq<LogView> {
    logs.map_values(|l: Log| l@)
}

/// A copy of a vector of logs.
pub fn clone_logs(logs: &Vec<Log>) -> (r: Vec<Log>)
    ensures
        logs_view(r@) == logs_view(logs@),
{
    let mut r: Vec<Log> = Vec::new();
    let mut i: usize = 0;
    while i < logs.len()
        invariant
            i <= logs.len(),
            r@.len() == i,
            forall|k: int| 0 <= k < i ==> (#[trigger] r@[k])@ == logs@[k]@,
        decreases logs.len() - i,
    {
        r.push(logs[i].duplicate());
        i = i + 1;
    }
    assert(logs_view(r@) =~= logs_view(logs@));
    r
}

/// A token exchange against a pool.
#[derive(Clone, Copy, Debug, PartialEq, Eq, Structural)]
pub struct NormalizedSwap {
    pub trace_index: u64,
    pub from: Address,
    pub recipient: Address,
    pub pool: Address,
    pub token_in: Address,
    pub token_out: Address,
    pub amount_in: U256,
    pub amount_out: U256,
}

/// Liquidity added to a pool.
#[derive(Debug)]
pub struct NormalizedMint {
    pub trace_index: u64,
    pub from: Address,
    pub pool: Address,
    pub recipient: Address,
    pub tokens: Vec<Address>,
    pub amounts: Vec<U256>,
}

/// Liquidity removed from a pool.
#[derive(Debug)]
pub struct NormalizedBurn {
    pub trace_index: u64,
    pub from: Address,
    pub pool: Address,
    pub recipient: Address,
    pub tokens: Vec<Address>,
    pub amounts: Vec<U256>,
}

/// What a mint or a burn holds.
pub struct LiquidityView {
    pub trace_index: u64,
    pub from: Address,
    pub pool: Address,
    pub recipient: Address,
    pub tokens: Seq<Address>,
    pub amounts: Seq<U256>,
}

impl View for NormalizedMint {
    type V = LiquidityView;

    open spec fn view(&self) -> LiquidityView {
        LiquidityView {
            trace_index: self.trace_index,
            from: self.from,
            pool: self.pool,
            recipient: self.recipient,
            tokens: self.tokens@,
            amounts: self.amounts@,
        }
    }
}

impl View for NormalizedBurn {
    type V = LiquidityView;

    open spec fn view(&self) -> LiquidityView {
        LiquidityView {
            trace_index: self.trace_index,
            from: self.from,
            pool: self.pool,
            recipient: self.recipient,
            tokens: self.tokens@,
            amounts: self.amounts@,
        }
    }
}

/// A token moved from one account to another.
#[derive(Clone, Copy, Debug, PartialEq, Eq, Structural)]
pub struct NormalizedTransfer {
    pub trace_index: u64,
    pub token: Address,
    pub from: Address,
    pub to: Address,
    pub amount: U256,
}

/// A position closed by a liquidator.
#[derive(Clone, Copy, Debug, PartialEq, Eq, Structural)]
pub struct NormalizedLiquidation {
    pub trace_index: u64,
    pub pool: Address,
    pub liquidator: Address,
    pub debtor: Address,
    pub collateral_token: Address,
    pub debt_token: Address,
    pub collateral_amount: U256,
    pub debt_amount: U256,
}

/// A pool created by a factory.
#[derive(Debug)]
pub struct NormalizedNewPool {
    pub trace_index: u64,
    pub factory: Address,
    pub pool: Address,
    pub tokens: Vec<Address>,
    pub protocol: Protocol,
}

/// What a pool creation holds.
pub struct NewPoolView {
    pub trace_index: u64,
    pub factory: Address,
    pub pool: Address,
    pub tokens: Seq<Address>,
    pub protocol: Protocol,
}

impl View for NormalizedNewPool {
    type V = NewPoolView;

    open spec fn view(&self) -> NewPoolView {
        NewPoolView {
            trace_index: self.trace_index,
            factory: self.factory,
            pool: self.pool,
            tokens: self.tokens@,
            protocol: self.protocol,
        }
    }
}

/// A call that no decoder recognized, with its raw input and logs.
#[derive(Debug)]
pub struct Unclassified {
    pub trace_index: u64,
    pub input: Vec<u8>,
    pub logs: Vec<Log>,
}

/// What an unclassified call holds.
pub struct UnclassifiedView {
    pub trace_index: u64,
    pub input: Seq<u8>,
    pub logs: Seq<LogView>,
}

impl View for Unclassified {
    type V = UnclassifiedView;

    open spec fn view(&self) -> UnclassifiedView {
        UnclassifiedView {
            trace_index: self.trace_index,
            input: self.input@,
            logs: logs_view(self.logs@),
        }
    }
}

/// What a call frame did.
#[derive(Debug)]
pub enum Actions {
    Swap(NormalizedSwap),
    Mint(NormalizedMint),
    Burn(NormalizedBurn),
    Transfer(NormalizedTransfer),
    Liquidation(NormalizedLiquidation),
    NewPool(NormalizedNewPool),
    Unclassified(Unclassified),
}

/// What an action holds.
pub enum ActionView {
    Swap(NormalizedSwap),
    Mint(LiquidityView),
    Burn(LiquidityView),
    Transfer(NormalizedTransfer),
    Liquidation(NormalizedLiquidation),
    NewPool(NewPoolView),
    Unclassified(UnclassifiedView),
}

impl ActionView {
    /// The pre-order position of the call frame that produced the action.
    pub open spec fn trace_index(self) -> u64 {
        match self {
            ActionView::Swap(s) => s.trace_index,
            ActionView::Mint(m) => m.trace_index,
            ActionView::Burn(b) => b.trace_index,
            ActionView::Transfer(t) => t.trace_index,
            ActionView::Liquidation(l) => l.trace_index,
            ActionView::NewPool(p) => p.trace_index,
            ActionView::Unclassified(u) => u.trace_index,
        }
    }

    /// Whether a decoder recognized the call.
    pub open spec fn is_classified(self) -> bool {
        !(self is Unclassified)
    }
}

impl View for Actions {
    type V = ActionView;

    open spec fn view(&self) -> ActionView {
        match self {
            Actions::Swap(s) => ActionView::Swap(*s),
            Actions::Mint(m) => ActionView::Mint(m@),
            Actions::Burn(b) => ActionView::Burn(b@),
            Actions::Transfer(t) => ActionView::Transfer(*t),
            Actions::Liquidation(l) => ActionView::Liquidation(*l),
            Actions::NewPool(p) => ActionView::NewPool(p@),
            Actions::Unclassified(u) => ActionView::Unclassified(u@),
        }
    }
}

/// What a vector of actions holds.
pub open spec fn actions_view(actions: Seq<Actions>) -> Seq<ActionView> {
    actions.map_values(|a: Actions| a@)
}

impl Actions {
    /// A copy of the action.
    pub fn duplicate(&self) -> (r: Actions)
        ensures
            r@ == self@,
    {
        match self {
            Actions::Swap(s) => Actions::Swap(*s),
            Actions::Mint(m) => Actions::Mint(
                NormalizedMint {
                    trace_index: m.trace_index,
                    from: m.from,
                    pool: m.pool,
                    recipient: m.recipient,
                    tokens: clone_vec(&m.tokens),
                    amounts: clone_vec(&m.amounts),
                },
            ),
            Actions::Burn(b) => Actions::Burn(
                NormalizedBurn {
                    trace_index: b.trace_index,
                    from: b.from,
                    pool: b.pool,
                    recipient: b.recipient,
                    tokens: clone_vec(&b.tokens),
                    amounts: clone_vec(&b.amounts),
                },
            ),
            Actions::Transfer(t) => Actions::Transfer(*t),
            Actions::Liquidation(l) => Actions::Liquidation(*l),
            Actions::NewPool(p) => Actions::NewPool(
                NormalizedNewPool {
                    trace_index: p.trace_index,
                    factory: p.factory,
                    pool: p.pool,
                    tokens: clone_vec(&p.tokens),
                    protocol: p.protocol,
                },
            ),
            Actions::Unclassified(u) => Actions::Unclassified(
                Unclassified {
                    trace_index: u.trace_index,
                    input: clone_vec(&u.input),
                    logs: clone_logs(&u.logs),
                },
            ),
        }
    }

    /// The pre-order position of the call frame that produced the action.
    pub fn trace_index(&self) -> (i: u64)
        ensures
            i == self@.trace_index(),
    {
        match self {
            Actions::Swap(s) => s.trace_index,
            Actions::Mint(m) => m.trace_index,
            Actions::Burn(b) => b.trace_index,
            Actions::Transfer(t) => t.trace_index,
            Actions::Liquidation(l) => l.trace_index,
            Actions::NewPool(p) => p.trace_index,
            Actions::Unclassified(u) => u.trace_index,
        }
    }

    /// Whether the action is a swap.
    pub fn is_swap(&self) -> (b: bool)
        ensures
            b == (self@ is Swap),
    {
        matches!(self, Actions::Swap(_))
    }

    /// Whether the action is a mint.
    pub fn is_mint(&self) -> (b: bool)
        ensures
            b == (self@ is Mint),
    {
        matches!(self, Actions::Mint(_))
    }

    /// Whether the action is a burn.
    pub fn is_burn(&self) -> (b: bool)
        ensures
            b == (self@ is Burn),
    {
        matches!(self, Actions::Burn(_))
    }

    /// Whether the action is a transfer.
    pub fn is_transfer(&self) -> (b: bool)
        ensures
            b == (self@ is Transfer),
    {
        matches!(self, Actions::Transfer(_))
    }

    /// Whether the action is a liquidation.
    pub fn is_liquidation(&self) -> (b: bool)
        ensures
            b == (self@ is Liquidation),
    {
        matches!(self, Actions::Liquidation(_))
    }

    /// Whether the action is a pool creation.
    pub fn is_new_pool(&self) -> (b: bool)
        ensures
            b == (self@ is NewPool),
    {
        matches!(self, Actions::NewPool(_))
    }

    /// Whether no decoder recognized the call.
    pub fn is_unclassified(&self) -> (b: bool)
        ensures
            b == !self@.is_classified(),
    {
        matches!(self, Actions::Unclassified(_))
    }

    /// The swap that the action is.
    pub fn force_swap(&self) -> (s: NormalizedSwap)
        requires
            self@ is Swap,
        ensures
            self@ == ActionView::Swap(s),
    {
        match self {
            Actions::Swap(s) => *s,
            _ => vstd::pervasive::unreached(),
        }
    }

    /// The swap that the action is, if it is one.
    pub fn as_swap(&self) -> (r: Option<NormalizedSwap>)
        ensures
            match r {
                Some(s) => self@ == ActionView::Swap(s),
                None => !(self@ is Swap),
            },
    {
        match self {
            Actions::Swap(s) => Some(*s),
            _ => None,
        }
    }

    /// The liquidation that the action is, if it is one.
    pub fn as_liquidation(&self) -> (r: Option<NormalizedLiquidation>)
        ensures
            match r {
                Some(l) => self@ == ActionView::Liquidation(l),
                None => !(self@ is Liquidation),
            },
    {
        match self {
            Actions::Liquidation(l) => Some(*l),
            _ => None,
        }
    }
}

/// Whether two vectors of bytes hold the same values in the same order.
pub fn same_bytes(a: &Vec<u8>, b: &Vec<u8>) -> (r: bool)
    ensures
        r == (a@ == b@),
{
    if a.len() != b.len() {
        return false;
    }
    let mut i: usize = 0;
    while i < a.len()
        invariant
            i <= a@.len(),
            a@.len() == b@.len(),
            forall|k: int| 0 <= k < i ==> a@[k] == b@[k],
        decreases a@.len() - i,
    {
        if a[i] != b[i] {
            return false;
        }
        i = i + 1;
    }
    assert(a@ =~= b@);
    true
}

/// Whether two vectors of 32-byte words hold the same values in the same order.
pub fn same_words(a: &Vec<B256>, b: &Vec<B256>) -> (r: bool)
    ensures
        r == (a@ == b@),
{
    if a.len() != b.len() {
        return false;
    }
    let mut i: usize = 0;
    while i < a.len()
        invariant
            i <= a@.len(),
            a@.len() == b@.len(),
            forall|k: int| 0 <= k < i ==> a@[k] == b@[k],
        decreases a@.len() - i,
    {
        if a[i] != b[i] {
            return false;
        }
        i = i + 1;
    }
    assert(a@ =~= b@);
    true
}

/// Whether two vectors of addresses hold the same values in the same order.
pub fn same_addresses(a: &Vec<Address>, b: &Vec<Address>) -> (r: bool)
    ensures
        r == (a@ == b@),
{
    if a.len() != b.len() {
        return false;
    }
    let mut i: usize = 0;
    while i < a.len()
        invariant
            i <= a@.len(),
            a@.len() == b@.len(),
            forall|k: int| 0 <= k < i ==> a@[k] == b@[k],
        decreases a@.len() - i,
    {
        if a[i] != b[i] {
            return false;
        }
        i = i + 1;
    }
    assert(a@ =~= b@);
    true
}

/// Whether two vectors of amounts hold the same values in the same order.
pub fn same_amounts(a: &Vec<U256>, b: &Vec<U256>) -> (r: bool)
    ensures
        r == (a@ == b@),
{
    if a.len() != b.len() {
        return false;
    }
    let mut i: usize = 0;
    while i < a.len()
        invariant
            i <= a@.len(),
            a@.len() == b@.len(),
            forall|k: int| 0 <= k < i ==> a@[k] == b@[k],
        decreases a@.len() - i,
    {
        if a[i] != b[i] {
            return false;
        }
        i = i + 1;
    }
    assert(a@ =~= b@);
    true
}

impl Log {
    /// Whether two logs hold the same address, topics and data.
    pub fn same(&self, other: &Log) -> (r: bool)
        ensures
            r == (self@ == other@),
    {
        self.address == other.address && same_words(&self.topics, &other.topics) && same_bytes(
            &self.data,
            &other.data,
        )
    }
}

/// Whether two vectors of logs hold the same logs in the same order.
pub fn same_logs(a: &Vec<Log>, b: &Vec<Log>) -> (r: bool)
    ensures
        r == (logs_view(a@) == logs_view(b@)),
{
    if a.len() != b.len() {
        assert(logs_view(a@).len() != logs_view(b@).len());
        return false;
    }
    let mut i: usize = 0;
    while i < a.len()
        invariant
            i <= a@.len(),
            a@.len() == b@.len(),
            forall|k: int| 0 <= k < i ==> a@[k]@ == b@[k]@,
        decreases a@.len() - i,
    {
        if !a[i].same(&b[i]) {
            assert(logs_view(a@)[i as int] != logs_view(b@)[i as int]);
            return false;
        }
        i = i + 1;
    }
    assert(logs_view(a@) =~= logs_view(b@));
    true
}

impl Actions {
    /// Whether two actions are of the same kind and hold the same values.
    pub fn same(&self, other: &Actions) -> (r: bool)
        ensures
            r == (self@ == other@),
    {
        match (self, other) {
            (Actions::Swap(a), Actions::Swap(b)) => *a == *b,
            (Actions::Mint(a), Actions::Mint(b)) => {
                a.trace_index == b.trace_index && a.from == b.from && a.pool == b.pool
                    && a.recipient == b.recipient && same_addresses(&a.tokens, &b.tokens)
                    && same_amounts(&a.amounts, &b.amounts)
            },
            (Actions::Burn(a), Actions::Burn(b)) => {
                a.trace_index == b.trace_index && a.from == b.from && a.pool == b.pool
                    && a.recipient == b.recipient && same_addresses(&a.tokens, &b.tokens)
                    && same_amounts(&a.amounts, &b.amounts)
            },
            (Actions::Transfer(a), Actions::Transfer(b)) => *a == *b,
            (Actions::Liquidation(a), Actions::Liquidation(b)) => *a == *b,
            (Actions::NewPool(a), Actions::NewPool(b)) => {
                a.trace_index == b.trace_index && a.factory == b.factory && a.pool == b.pool
                    && a.protocol == b.protocol && same_addresses(&a.tokens, &b.tokens)
            },
            (Actions::Unclassified(a), Actions::Unclassified(b)) => {
                a.trace_index == b.trace_index && same_bytes(&a.input, &b.input) && same_logs(
                    &a.logs,
                    &b.logs,
                )
            },
            _ => false,
        }
    }
}

/// Whether two vectors of actions hold the same actions in the same order.
pub fn same_actions(a: &Vec<Actions>, b: &Vec<Actions>) -> (r: bool)
    ensures
        r == (actions_view(a@) == actions_view(b@)),
{
    if a.len() != b.len() {
        assert(actions_view(a@).len() != actions_view(b@).len());
        return false;
    }
    let mut i: usize = 0;
    while i < a.len()
        invariant
            i <= a@.len(),
            a@.len() == b@.len(),
            forall|k: int| 0 <= k < i ==> a@[k]@ == b@[k]@,
        decreases a@.len() - i,
    {
        if !a[i].same(&b[i]) {
            assert(actions_view(a@)[i as int] != actions_view(b@)[i as int]);
            return false;
        }
        i = i + 1;
    }
    assert(actions_view(a@) =~= actions_view(b@));
    true
}

/// A copy of a vector of actions.
pub fn clone_actions(actions: &Vec<Actions>) -> (r: Vec<Actions>)
    ensures
        actions_view(r@) == actions_view(actions@),
{
    let mut r: Vec<Actions> = Vec::new();
    let mut i: usize = 0;
    while i < actions.len()
        invariant
            i <= actions@.len(),
            r@.len() == i,
            forall|k: int| 0 <= k < i ==> (#[trigger] r@[k])@ == actions@[k]@,
        decreases actions@.len() - i,
    {
        r.push(actions[i].duplicate());
        i = i + 1;
    }
    assert(actions_view(r@) =~= actions_view(actions@));
    r
}

} // verus!
