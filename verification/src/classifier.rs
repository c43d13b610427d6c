//! The block tree builder: classifies the call frames of every transaction
//! of a block, registers the pools that are created on the way, and
//! assembles one tree per transaction.

use vstd::prelude::*;
use crate::primitives::B256;
use crate::actions::{ActionView, Actions, NewPoolView, NormalizedNewPool, clone_vec};
use crate::decoder::{CallFrameInfo, CallFrameView, DexPriceMsg};
use crate::discovery::{FactoryDiscoveryDispatch, creation_found, pools_view};
use crate::metadata::{Metadata, MetadataView, PoolInfo};
use crate::registry::{
    Registry, classified_as, dispatched, first_action, lemma_classified_alike, same_decoding,
};
use crate::tree::{
    BlockTree, ClassifiedFrame, FrameShape, GasDetails, Root, arena_wf, classified, end_of,
    forms_tree, lemma_same_hits, mirrors, node_actions, node_wf, same_arena, same_node,
    same_roots, shapes, span_end,
};

verus! {

/// The traces of one transaction: its call frames in pre-order.
#[derive(Debug)]
pub struct TxTraces {
    pub tx_hash: B256,
    pub gas_details: GasDetails,
    pub frames: Vec<CallFrameInfo>,
}

/// Why a block tree could not be built.
#[derive(Clone, Copy, Debug, PartialEq, Eq, Structural)]
pub enum BuildError {
    /// The frames of the transaction at this place in the block are not a
    /// tree in pre-order.
    MalformedTrace(usize),
    /// The transaction at this place in the block has the hash of a
    /// transaction before it.
    DuplicateTransaction(usize),
}

/// What a vector of call frames holds.
pub open spec fn frames_view(frames: Seq<CallFrameInfo>) -> Seq<CallFrameView> {
    frames.map_values(|f: CallFrameInfo| f@)
}

/// The shapes of the frames of a transaction. The action of a frame always
/// carries the trace index of the frame.
pub open spec fn frame_shapes(frames: Seq<CallFrameView>) -> Seq<FrameShape> {
    frames.map_values(
        |f: CallFrameView|
            FrameShape {
                trace_index: f.trace_index,
                action_index: f.trace_index,
                subtraces: f.subtraces,
            },
    )
}

/// Whether a frame lists the frame with trace index `i` among the calls
/// that it made.
pub open spec fn lists(frame: CallFrameView, i: int) -> bool {
    exists|j: int| 0 <= j < frame.subtraces.len() && #[trigger] frame.subtraces[j] == i
}

/// The place of the first frame from place `p` on that lists frame `i`
/// among its calls, or -1 where none does.
pub open spec fn parent_from(frames: Seq<CallFrameView>, i: int, p: int) -> int
    decreases frames.len() - p,
{
    if p >= frames.len() || p < 0 {
        -1
    } else if lists(frames[p], i) {
        p
    } else {
        parent_from(frames, i, p + 1)
    }
}

/// The input of the call that made frame `i`; empty for a frame that no
/// frame lists.
pub open spec fn parent_input(frames: Seq<CallFrameView>, i: int) -> Seq<u8> {
    let p = parent_from(frames, i, 0);
    if p >= 0 {
        frames[p].input
    } else {
        Seq::empty()
    }
}

/// What is known of a new pool, where it has two tokens.
pub open spec fn info_of(pool: NewPoolView) -> Option<PoolInfo> {
    if pool.tokens.len() >= 2 {
        Some(PoolInfo { protocol: pool.protocol, token_0: pool.tokens[0], token_1: pool.tokens[1] })
    } else {
        None
    }
}

/// The metadata once a new pool is registered.
pub open spec fn registered(db: MetadataView, pool: NewPoolView) -> MetadataView {
    match info_of(pool) {
        Some(info) => MetadataView {
            pools: db.pools.insert(pool.pool, info),
            decimals: db.decimals,
            factories: db.factories,
        },
        None => db,
    }
}

/// The metadata once several new pools are registered, one after the
/// other.
pub open spec fn registered_all(db: MetadataView, pools: Seq<NewPoolView>) -> MetadataView
    decreases pools.len(),
{
    if pools.len() == 0 {
        db
    } else {
        registered(registered_all(db, pools.drop_last()), pools.last())
    }
}

/// The pools that frame `i` has created: none unless the frame is a
/// creation by a known factory.
pub open spec fn born(frames: Seq<CallFrameView>, i: int, db: MetadataView) -> Seq<NewPoolView> {
    match frames[i].created {
        Some(deployed) => creation_found(
            db,
            frames[i].from,
            deployed,
            frames[i].trace_index,
            parent_input(frames, i),
        ),
        None => Seq::empty(),
    }
}

/// The message that announces a new pool.
pub open spec fn announced(pool: NewPoolView) -> Option<DexPriceMsg> {
    match info_of(pool) {
        Some(info) => Some(DexPriceMsg::DiscoveredPool(pool.pool, info)),
        None => None,
    }
}

/// What the first pass makes of frame `i`: the first pool that the frame
/// has created, or else what dispatch gives.
pub open spec fn first_entry(
    decoders: Seq<crate::decoder::DecoderView>,
    frames: Seq<CallFrameView>,
    i: int,
    db: MetadataView,
    block: u64,
    tx_idx: u64,
) -> (ActionView, Option<DexPriceMsg>) {
    let pools = born(frames, i, db);
    if pools.len() > 0 {
        (ActionView::NewPool(pools[0]), announced(pools[0]))
    } else {
        classified_as(decoders, frames[i], db, block, tx_idx)
    }
}

/// The metadata and the entries after the first pass over the first `k`
/// frames of a transaction: each frame is classified with the metadata as
/// the frames before it have left it, and the pools that it has created are
/// registered.
pub open spec fn first_pass(
    decoders: Seq<crate::decoder::DecoderView>,
    frames: Seq<CallFrameView>,
    db: MetadataView,
    block: u64,
    tx_idx: u64,
    k: int,
) -> (MetadataView, Seq<(ActionView, Option<DexPriceMsg>)>)
    decreases k,
{
    if k <= 0 {
        (db, Seq::empty())
    } else {
        let before = first_pass(decoders, frames, db, block, tx_idx, k - 1);
        (
            registered_all(before.0, born(frames, k - 1, before.0)),
            before.1.push(first_entry(decoders, frames, k - 1, before.0, block, tx_idx)),
        )
    }
}

/// What the second pass makes of a frame: a frame that the first pass left
/// unclassified is dispatched again, with the metadata as the whole
/// transaction has left it.
pub open spec fn second_entry(
    decoders: Seq<crate::decoder::DecoderView>,
    frame: CallFrameView,
    db: MetadataView,
    block: u64,
    tx_idx: u64,
    first: (ActionView, Option<DexPriceMsg>),
) -> (ActionView, Option<DexPriceMsg>) {
    if first.0 is Unclassified {
        classified_as(decoders, frame, db, block, tx_idx)
    } else {
        first
    }
}

/// The metadata as a transaction leaves it.
pub open spec fn tx_db(
    decoders: Seq<crate::decoder::DecoderView>,
    frames: Seq<CallFrameView>,
    db: MetadataView,
    block: u64,
    tx_idx: u64,
) -> MetadataView {
    first_pass(decoders, frames, db, block, tx_idx, frames.len() as int).0
}

/// The action of every frame of a transaction with the message that goes
/// with it, after both passes.
pub open spec fn tx_entries(
    decoders: Seq<crate::decoder::DecoderView>,
    frames: Seq<CallFrameView>,
    db: MetadataView,
    block: u64,
    tx_idx: u64,
) -> Seq<(ActionView, Option<DexPriceMsg>)> {
    let first = first_pass(decoders, frames, db, block, tx_idx, frames.len() as int);
    Seq::new(
        frames.len(),
        |i: int| second_entry(decoders, frames[i], first.0, block, tx_idx, first.1[i]),
    )
}

/// The messages among the entries, in trace order.
pub open spec fn messages(entries: Seq<(ActionView, Option<DexPriceMsg>)>) -> Seq<DexPriceMsg>
    decreases entries.len(),
{
    if entries.len() == 0 {
        Seq::empty()
    } else {
        match entries.last().1 {
            Some(msg) => messages(entries.drop_last()).push(msg),
            None => messages(entries.drop_last()),
        }
    }
}

/// Whether a classified frame is a call frame with the given action.
pub open spec fn reflects(classified: ClassifiedFrame, frame: CallFrameView, action: ActionView) -> bool {
    &&& classified.trace_index == frame.trace_index
    &&& classified.address == frame.from
    &&& classified.target == frame.target
    &&& classified.subtraces@ == frame.subtraces
    &&& classified.data@ == action
}

/// Whether a frame lists the frame with trace index `i` among its calls.
fn frame_lists(frame: &CallFrameInfo, i: usize) -> (r: bool)
    ensures
        r == lists(frame@, i as int),
{
    let mut j: usize = 0;
    while j < frame.subtraces.len()
        invariant
            j <= frame.subtraces@.len(),
            forall|q: int| 0 <= q < j ==> frame.subtraces@[q] != i,
        decreases frame.subtraces@.len() - j,
    {
        if frame.subtraces[j] == i as u64 {
            assert(frame@.subtraces[j as int] == i);
            return true;
        }
        j = j + 1;
    }
    false
}

/// The place of the first frame that lists frame `i` among its calls.
fn find_parent(frames: &Vec<CallFrameInfo>, i: usize) -> (r: Option<usize>)
    ensures
        match r {
            Some(p) => p < frames@.len() && p == parent_from(frames_view(frames@), i as int, 0),
            None => parent_from(frames_view(frames@), i as int, 0) == -1,
        },
{
    let ghost views = frames_view(frames@);
    let mut p: usize = 0;
    while p < frames.len()
        invariant
            p <= frames@.len(),
            views == frames_view(frames@),
            parent_from(views, i as int, 0) == parent_from(views, i as int, p as int),
        decreases frames@.len() - p,
    {
        assert(views[p as int] == frames@[p as int]@);
        if frame_lists(&frames[p], i) {
            return Some(p);
        }
        p = p + 1;
    }
    None
}

/// Registers new pools, one after the other.
fn register_all(db: &mut Metadata, pools: &Vec<NormalizedNewPool>)
    requires
        old(db).wf(),
    ensures
        final(db).wf(),
        final(db)@ == registered_all(old(db)@, pools_view(pools@)),
{
    let ghost views = pools_view(pools@);
    let ghost start = db@;
    let mut k: usize = 0;
    assert(views.take(0) =~= Seq::<NewPoolView>::empty());
    while k < pools.len()
        invariant
            k <= pools@.len(),
            db.wf(),
            views == pools_view(pools@),
            db@ == registered_all(start, views.take(k as int)),
        decreases pools@.len() - k,
    {
        proof {
            assert(views.take(k + 1).drop_last() =~= views.take(k as int));
            assert(views.take(k + 1).last() == pools@[k as int]@);
        }
        let ghost before = db@;
        db.put_new_pool(&pools[k]);
        proof {
            assert(db@.pools == registered(before, pools@[k as int]@).pools);
        }
        k = k + 1;
    }
    assert(views.take(pools@.len() as int) =~= views);
}

/// The classifier: a decoder registry that is run over whole blocks.
#[derive(Debug)]
pub struct Classifier {
    registry: Registry,
}

impl Classifier {
    /// The decoders of the classifier.
    pub closed spec fn decoders(&self) -> Seq<crate::decoder::DecoderView> {
        self.registry@
    }

    /// A classifier that runs the given registry.
    pub fn new(registry: Registry) -> (r: Classifier)
        ensures
            r.decoders() == registry@,
    {
        Classifier { registry }
    }

    /// What the first pass makes of frame `i`, with the pools that the
    /// frame has created.
    fn first_look(&self, frames: &Vec<CallFrameInfo>, i: usize, db: &Metadata, block: u64, tx_idx: u64) -> (r: (
        Actions,
        Option<DexPriceMsg>,
        Vec<NormalizedNewPool>,
    ))
        requires
            db.wf(),
            i < frames@.len(),
        ensures
            (r.0@, r.1) == first_entry(
                self.decoders(),
                frames_view(frames@),
                i as int,
                db@,
                block,
                tx_idx,
            ),
            pools_view(r.2@) == born(frames_view(frames@), i as int, db@),
    {
        let frame = &frames[i];
        let ghost views = frames_view(frames@);
        assert(views[i as int] == frames@[i as int]@);
        let mut pools: Vec<NormalizedNewPool> = Vec::new();
        assert(pools_view(pools@) =~= Seq::<NewPoolView>::empty());
        match frame.created {
            Some(deployed) => {
                let none: Vec<u8> = Vec::new();
                let found = match find_parent(frames, i) {
                    Some(p) => {
                        assert(views[p as int] == frames@[p as int]@);
                        db.dispatch(frame.from, deployed, frame.trace_index, &frames[p].input)
                    },
                    None => db.dispatch(frame.from, deployed, frame.trace_index, &none),
                };
                pools = found;
            },
            None => {},
        }
        if pools.len() > 0 {
            let first = &pools[0];
            assert(pools_view(pools@)[0] == first@);
            let msg = if first.tokens.len() >= 2 {
                Some(
                    DexPriceMsg::DiscoveredPool(
                        first.pool,
                        PoolInfo {
                            protocol: first.protocol,
                            token_0: first.tokens[0],
                            token_1: first.tokens[1],
                        },
                    ),
                )
            } else {
                None
            };
            let action = Actions::NewPool(
                NormalizedNewPool {
                    trace_index: first.trace_index,
                    factory: first.factory,
                    pool: first.pool,
                    tokens: clone_vec(&first.tokens),
                    protocol: first.protocol,
                },
            );
            (action, msg, pools)
        } else {
            let (action, msg) = self.registry.classify(frame, db, block, tx_idx);
            (action, msg, pools)
        }
    }

    /// Classifies the frames of one transaction in two passes and registers
    /// the pools that the transaction has created.
    pub fn classify_tx(&self, frames: &Vec<CallFrameInfo>, db: &mut Metadata, block: u64, tx_idx: u64) -> (r: (
        Vec<ClassifiedFrame>,
        Vec<DexPriceMsg>,
    ))
        requires
            old(db).wf(),
        ensures
            final(db).wf(),
            final(db)@ == tx_db(self.decoders(), frames_view(frames@), old(db)@, block, tx_idx),
            r.0@.len() == frames@.len(),
            forall|i: int|
                0 <= i < frames@.len() ==> reflects(
                    #[trigger] r.0@[i],
                    frames@[i]@,
                    tx_entries(self.decoders(), frames_view(frames@), old(db)@, block, tx_idx)[i].0,
                ),
            r.1@ == messages(
                tx_entries(self.decoders(), frames_view(frames@), old(db)@, block, tx_idx),
            ),
    {
        let ghost views = frames_view(frames@);
        let ghost db0 = db@;
        let ghost decoders = self.decoders();
        let n = frames.len();
        let mut actions: Vec<Actions> = Vec::new();
        let mut notes: Vec<Option<DexPriceMsg>> = Vec::new();
        let mut i: usize = 0;
        while i < n
            invariant
                i <= n,
                n == frames@.len(),
                views == frames_view(frames@),
                decoders == self.decoders(),
                db.wf(),
                actions@.len() == i,
                notes@.len() == i,
                db@ == first_pass(decoders, views, db0, block, tx_idx, i as int).0,
                forall|k: int|
                    0 <= k < i ==> ((#[trigger] actions@[k])@, notes@[k]) == first_pass(
                        decoders,
                        views,
                        db0,
                        block,
                        tx_idx,
                        i as int,
                    ).1[k],
                first_pass(decoders, views, db0, block, tx_idx, i as int).1.len() == i,
            decreases n - i,
        {
            let ghost before = first_pass(decoders, views, db0, block, tx_idx, i as int);
            let (action, msg, pools) = self.first_look(frames, i, db, block, tx_idx);
            register_all(db, &pools);
            actions.push(action);
            notes.push(msg);
            proof {
                let after = first_pass(decoders, views, db0, block, tx_idx, i + 1);
                assert(after.1 == before.1.push(
                    first_entry(decoders, views, i as int, before.0, block, tx_idx),
                ));
                assert forall|k: int| 0 <= k < i + 1 implies ((#[trigger] actions@[k])@, notes@[k])
                    == after.1[k] by {
                    if k < i {
                        assert(after.1[k] == before.1[k]);
                    }
                }
            }
            i = i + 1;
        }
        let ghost first = first_pass(decoders, views, db0, block, tx_idx, n as int);
        let ghost entries = tx_entries(decoders, views, db0, block, tx_idx);
        let mut classified: Vec<ClassifiedFrame> = Vec::new();
        let mut msgs: Vec<DexPriceMsg> = Vec::new();
        let mut k: usize = 0;
        assert(entries.take(0) =~= Seq::<(ActionView, Option<DexPriceMsg>)>::empty());
        while k < n
            invariant
                k <= n,
                n == frames@.len(),
                views == frames_view(frames@),
                decoders == self.decoders(),
                db.wf(),
                db@ == first.0,
                first == first_pass(decoders, views, db0, block, tx_idx, n as int),
                entries == tx_entries(decoders, views, db0, block, tx_idx),
                actions@.len() == n,
                notes@.len() == n,
                forall|q: int| 0 <= q < n ==> ((#[trigger] actions@[q])@, notes@[q]) == first.1[q],
                classified@.len() == k,
                forall|q: int|
                    0 <= q < k ==> reflects(#[trigger] classified@[q], frames@[q]@, entries[q].0),
                msgs@ == messages(entries.take(k as int)),
            decreases n - k,
        {
            let frame = &frames[k];
            proof {
                assert(views[k as int] == frames@[k as int]@);
                assert((actions@[k as int]@, notes@[k as int]) == first.1[k as int]);
                assert(entries.take(k + 1).drop_last() =~= entries.take(k as int));
                assert(entries.take(k + 1).last() == entries[k as int]);
            }
            let (action, msg) = if actions[k].is_unclassified() {
                self.registry.classify(frame, db, block, tx_idx)
            } else {
                (actions[k].duplicate(), notes[k])
            };
            match msg {
                Some(m) => {
                    msgs.push(m);
                },
                None => {},
            }
            classified.push(
                ClassifiedFrame {
                    trace_index: frame.trace_index,
                    address: frame.from,
                    target: frame.target,
                    data: action,
                    subtraces: clone_vec(&frame.subtraces),
                },
            );
            k = k + 1;
        }
        assert(entries.take(n as int) =~= entries);
        (classified, msgs)
    }
}

/// The action that a decoder gives carries the trace index of the frame.
pub proof fn lemma_first_action_index(
    decoders: Seq<crate::decoder::DecoderView>,
    protocol: crate::actions::Protocol,
    selector: u32,
    frame: CallFrameView,
    db: MetadataView,
    k: int,
)
    requires
        first_action(decoders, protocol, selector, frame, db, k) is Some,
    ensures
        first_action(decoders, protocol, selector, frame, db, k)->0.trace_index()
            == frame.trace_index,
    decreases decoders.len() - k,
{
    if 0 <= k < decoders.len() {
        if decoders[k].protocol == protocol && decoders[k].selector == selector
            && crate::decoder::decoder_action(decoders[k], frame, db) is Some {
        } else {
            lemma_first_action_index(decoders, protocol, selector, frame, db, k + 1);
        }
    }
}

/// The action that classification gives carries the trace index of the
/// frame.
pub proof fn lemma_classified_index(
    decoders: Seq<crate::decoder::DecoderView>,
    frame: CallFrameView,
    db: MetadataView,
    block: u64,
    tx_idx: u64,
)
    ensures
        classified_as(decoders, frame, db, block, tx_idx).0.trace_index() == frame.trace_index,
{
    if dispatched(decoders, frame, db, block, tx_idx) is Some {
        let info = db.pools.get(frame.target)->0;
        let sel = crate::abi::selector_of(frame.input)->0;
        lemma_first_action_index(decoders, info.protocol, sel, frame, db, 0);
    }
}

/// The first pass over `k` frames leaves one entry per frame, and its
/// entries stay as they are when the pass goes on.
pub proof fn lemma_first_pass(
    decoders: Seq<crate::decoder::DecoderView>,
    frames: Seq<CallFrameView>,
    db: MetadataView,
    block: u64,
    tx_idx: u64,
    k: int,
    i: int,
)
    requires
        0 <= i < k,
    ensures
        first_pass(decoders, frames, db, block, tx_idx, k).1.len() == k,
        first_pass(decoders, frames, db, block, tx_idx, k).1[i] == first_entry(
            decoders,
            frames,
            i,
            first_pass(decoders, frames, db, block, tx_idx, i).0,
            block,
            tx_idx,
        ),
    decreases k,
{
    if k > 1 {
        if i < k - 1 {
            lemma_first_pass(decoders, frames, db, block, tx_idx, k - 1, i);
        } else {
            lemma_first_pass(decoders, frames, db, block, tx_idx, k - 1, 0);
        }
    } else {
        assert(first_pass(decoders, frames, db, block, tx_idx, 0).1.len() == 0);
    }
}

/// Every entry of a transaction carries the trace index of its frame.
pub proof fn lemma_entry_index(
    decoders: Seq<crate::decoder::DecoderView>,
    frames: Seq<CallFrameView>,
    db: MetadataView,
    block: u64,
    tx_idx: u64,
    i: int,
)
    requires
        0 <= i < frames.len(),
    ensures
        tx_entries(decoders, frames, db, block, tx_idx)[i].0.trace_index() == frames[i].trace_index,
{
    let n = frames.len() as int;
    let first = first_pass(decoders, frames, db, block, tx_idx, n);
    lemma_first_pass(decoders, frames, db, block, tx_idx, n, i);
    let at = first_pass(decoders, frames, db, block, tx_idx, i).0;
    lemma_classified_index(decoders, frames[i], at, block, tx_idx);
    lemma_classified_index(decoders, frames[i], first.0, block, tx_idx);
}

/// The metadata after the first `k` transactions of a block.
pub open spec fn block_db(
    decoders: Seq<crate::decoder::DecoderView>,
    txs: Seq<TxTraces>,
    db: MetadataView,
    block: u64,
    k: int,
) -> MetadataView
    decreases k,
{
    if k <= 0 {
        db
    } else {
        tx_db(
            decoders,
            frames_view(txs[k - 1].frames@),
            block_db(decoders, txs, db, block, k - 1),
            block,
            (k - 1) as u64,
        )
    }
}

/// The entries of transaction `t` of a block.
pub open spec fn block_entries(
    decoders: Seq<crate::decoder::DecoderView>,
    txs: Seq<TxTraces>,
    db: MetadataView,
    block: u64,
    t: int,
) -> Seq<(ActionView, Option<DexPriceMsg>)> {
    tx_entries(
        decoders,
        frames_view(txs[t].frames@),
        block_db(decoders, txs, db, block, t),
        block,
        t as u64,
    )
}

/// The messages of the first `k` transactions of a block, in block order
/// and, within a transaction, in trace order.
pub open spec fn block_messages(
    decoders: Seq<crate::decoder::DecoderView>,
    txs: Seq<TxTraces>,
    db: MetadataView,
    block: u64,
    k: int,
) -> Seq<DexPriceMsg>
    decreases k,
{
    if k <= 0 {
        Seq::empty()
    } else {
        block_messages(decoders, txs, db, block, k - 1) + messages(
            block_entries(decoders, txs, db, block, k - 1),
        )
    }
}

/// Whether no transaction before transaction `t` has its hash.
pub open spec fn tx_is_fresh(txs: Seq<TxTraces>, t: int) -> bool {
    forall|q: int| 0 <= q < t ==> (#[trigger] txs[q]).tx_hash != txs[t].tx_hash
}

/// Whether the frames of transaction `t` are a tree in pre-order.
pub open spec fn tx_is_tree(txs: Seq<TxTraces>, t: int) -> bool {
    forms_tree(frame_shapes(frames_view(txs[t].frames@)))
}

/// Whether node `i` of a tree is frame `i` of a transaction with its
/// action: it has the frame's trace index, caller and target, the action of
/// the frame, the calls of the frame as its children, and its subtree ends
/// where the frames say.
pub open spec fn node_of(
    root: Root,
    tx: TxTraces,
    entries: Seq<(ActionView, Option<DexPriceMsg>)>,
    i: int,
) -> bool {
    let node = root.nodes()[i];
    let frame = tx.frames@[i];
    &&& node.trace_index == frame.trace_index
    &&& node.address == frame.from
    &&& node.target == frame.target
    &&& node.data@ == entries[i].0
    &&& node.subtree_end == span_end(frame_shapes(frames_view(tx.frames@)), i)
    &&& node.children@.len() == frame.subtraces@.len()
    &&& forall|j: int|
        0 <= j < node.children@.len() ==> (#[trigger] node.children@[j]) as int
            == frame.subtraces@[j] as int
}

/// Whether a tree is the tree of a transaction: it is well formed, it
/// carries the hash, the place and the gas of the transaction, and node `i`
/// is frame `i` with its action. With well-formedness this fixes the whole
/// tree, the subactions of every node included.
pub open spec fn tree_of(
    root: Root,
    tx: TxTraces,
    place: int,
    entries: Seq<(ActionView, Option<DexPriceMsg>)>,
) -> bool {
    &&& root.wf()
    &&& root.hash() == tx.tx_hash
    &&& root.index() == place
    &&& root.gas() == tx.gas_details
    &&& root.nodes().len() == tx.frames@.len()
    &&& forall|i: int| 0 <= i < tx.frames@.len() ==> #[trigger] node_of(root, tx, entries, i)
}

impl Classifier {
    /// Builds the tree of a block and the messages to the pricing side.
    /// Every frame of every transaction is classified, in block order; the
    /// pools that are created on the way are registered in the metadata, so
    /// that later frames and transactions see them. Where a transaction has
    /// the hash of a transaction before it, or its frames are not a tree in
    /// pre-order, the first such transaction is reported and no tree is
    /// built; a repeated hash is found before the frames are looked at.
    pub fn build_block_tree(&self, block: u64, traces: &Vec<TxTraces>, db: &mut Metadata) -> (r: Result<
        (BlockTree, Vec<DexPriceMsg>),
        BuildError,
    >)
        requires
            old(db).wf(),
        ensures
            final(db).wf(),
            match r {
                Ok((tree, msgs)) => {
                    &&& forall|t: int| 0 <= t < traces@.len() ==> #[trigger] tx_is_tree(traces@, t)
                    &&& forall|t: int| 0 <= t < traces@.len() ==> #[trigger] tx_is_fresh(traces@, t)
                    &&& tree.wf()
                    &&& tree.number() == block
                    &&& tree.roots().len() == traces@.len()
                    &&& forall|t: int|
                        0 <= t < traces@.len() ==> tree_of(
                            #[trigger] tree.roots()[t],
                            traces@[t],
                            t,
                            block_entries(self.decoders(), traces@, old(db)@, block, t),
                        )
                    &&& msgs@ == block_messages(
                        self.decoders(),
                        traces@,
                        old(db)@,
                        block,
                        traces@.len() as int,
                    )
                    &&& final(db)@ == block_db(
                        self.decoders(),
                        traces@,
                        old(db)@,
                        block,
                        traces@.len() as int,
                    )
                },
                Err(BuildError::MalformedTrace(t)) => {
                    &&& t < traces@.len()
                    &&& !tx_is_tree(traces@, t as int)
                    &&& forall|q: int| 0 <= q < t ==> #[trigger] tx_is_tree(traces@, q)
                    &&& forall|q: int| 0 <= q <= t ==> #[trigger] tx_is_fresh(traces@, q)
                    &&& final(db)@ == block_db(self.decoders(), traces@, old(db)@, block, t + 1)
                },
                Err(BuildError::DuplicateTransaction(t)) => {
                    &&& t < traces@.len()
                    &&& !tx_is_fresh(traces@, t as int)
                    &&& forall|q: int| 0 <= q < t ==> #[trigger] tx_is_tree(traces@, q)
                    &&& forall|q: int| 0 <= q < t ==> #[trigger] tx_is_fresh(traces@, q)
                    &&& final(db)@ == block_db(self.decoders(), traces@, old(db)@, block, t as int)
                },
            },
    {
        let ghost db0 = db@;
        let ghost decoders = self.decoders();
        let mut tree = BlockTree::new(block);
        let mut msgs: Vec<DexPriceMsg> = Vec::new();
        let mut t: usize = 0;
        while t < traces.len()
            invariant
                t <= traces@.len(),
                decoders == self.decoders(),
                db0 == old(db)@,
                db.wf(),
                tree.wf(),
                tree.number() == block,
                tree.roots().len() == t,
                forall|q: int| 0 <= q < t ==> #[trigger] tx_is_tree(traces@, q),
                forall|q: int| 0 <= q < t ==> #[trigger] tx_is_fresh(traces@, q),
                forall|q: int|
                    0 <= q < t ==> tree_of(
                        #[trigger] tree.roots()[q],
                        traces@[q],
                        q,
                        block_entries(decoders, traces@, db0, block, q),
                    ),
                msgs@ == block_messages(decoders, traces@, db0, block, t as int),
                db@ == block_db(decoders, traces@, db0, block, t as int),
            decreases traces@.len() - t,
        {
            let tx = &traces[t];
            if tree.contains(tx.tx_hash) {
                proof {
                    let q = choose|q: int|
                        0 <= q < tree.roots().len() && (#[trigger] tree.roots()[q]).hash()
                            == tx.tx_hash;
                    assert(tree_of(
                        tree.roots()[q],
                        traces@[q],
                        q,
                        block_entries(decoders, traces@, db0, block, q),
                    ));
                    assert(traces@[q].tx_hash == traces@[t as int].tx_hash);
                }
                return Err(BuildError::DuplicateTransaction(t));
            }
            proof {
                assert forall|q: int| 0 <= q < t implies (#[trigger] traces@[q]).tx_hash
                    != traces@[t as int].tx_hash by {
                    assert(tree_of(
                        tree.roots()[q],
                        traces@[q],
                        q,
                        block_entries(decoders, traces@, db0, block, q),
                    ));
                }
                assert(tx_is_fresh(traces@, t as int));
            }
            let ghost views = frames_view(tx.frames@);
            let ghost entries = block_entries(decoders, traces@, db0, block, t as int);
            let (classified, mut notes) = self.classify_tx(&tx.frames, db, block, t as u64);
            proof {
                assert(shapes(classified@) =~= frame_shapes(views)) by {
                    assert forall|i: int| 0 <= i < views.len() implies shapes(classified@)[i]
                        == frame_shapes(views)[i] by {
                        lemma_entry_index(
                            decoders,
                            views,
                            block_db(decoders, traces@, db0, block, t as int),
                            block,
                            t as u64,
                            i,
                        );
                        assert(reflects(classified@[i], tx.frames@[i]@, entries[i].0));
                        assert(views[i] == tx.frames@[i]@);
                    }
                }
            }
            let root = match Root::assemble(tx.tx_hash, t, tx.gas_details, &classified) {
                Some(root) => root,
                None => {
                    proof {
                        assert(!tx_is_tree(traces@, t as int));
                        assert(db@ == block_db(decoders, traces@, db0, block, t + 1));
                    }
                    return Err(BuildError::MalformedTrace(t));
                },
            };
            assert(tx_is_tree(traces@, t as int));
            proof {
                assert forall|i: int| 0 <= i < tx.frames@.len() implies #[trigger] node_of(
                    root,
                    *tx,
                    entries,
                    i,
                ) by {
                    assert(mirrors(root.nodes(), classified@, i));
                    assert(reflects(classified@[i], tx.frames@[i]@, entries[i].0));
                    assert(views[i] == tx.frames@[i]@);
                }
                assert(tree_of(root, traces@[t as int], t as int, entries));
            }
            let ghost before = tree.roots();
            tree.insert_root(root);
            msgs.append(&mut notes);
            proof {
                assert forall|q: int| 0 <= q < t + 1 implies tree_of(
                    #[trigger] tree.roots()[q],
                    traces@[q],
                    q,
                    block_entries(decoders, traces@, db0, block, q),
                ) by {
                    if q < t {
                        assert(tree.roots()[q] == before[q]);
                    }
                }
            }
            t = t + 1;
        }
        Ok((tree, msgs))
    }
}

/// Two trees of one transaction with the same actions hold the same
/// nodes: the frames and their actions fix the whole tree.
pub proof fn lemma_tree_fixed(
    a: Root,
    b: Root,
    tx: TxTraces,
    place: int,
    entries: Seq<(ActionView, Option<DexPriceMsg>)>,
)
    requires
        tree_of(a, tx, place, entries),
        tree_of(b, tx, place, entries),
    ensures
        a.hash() == b.hash(),
        a.index() == b.index(),
        a.gas() == b.gas(),
        same_arena(a.nodes(), b.nodes()),
{
    let n = tx.frames@.len() as int;
    assert(node_actions(a.nodes()) =~= node_actions(b.nodes())) by {
        assert forall|i: int| 0 <= i < n implies node_actions(a.nodes())[i] == node_actions(
            b.nodes(),
        )[i] by {
            assert(node_of(a, tx, entries, i));
            assert(node_of(b, tx, entries, i));
        }
    }
    assert forall|i: int| 0 <= i < n implies #[trigger] same_node(a.nodes()[i], b.nodes()[i]) by {
        assert(node_of(a, tx, entries, i));
        assert(node_of(b, tx, entries, i));
        assert(node_wf(a.nodes(), i));
        assert(node_wf(b.nodes(), i));
        let x = a.nodes()[i];
        let y = b.nodes()[i];
        assert(x.children@ =~= y.children@) by {
            assert forall|j: int| 0 <= j < x.children@.len() implies x.children@[j]
                == y.children@[j] by {
                assert(x.children@[j] as int == tx.frames@[i].subtraces@[j] as int);
                assert(y.children@[j] as int == tx.frames@[i].subtraces@[j] as int);
            }
        }
    }
}

/// Decoder purity, for whole blocks: two trees built of the same traces
/// with the same registry against the same metadata hold the same nodes,
/// so every query that looks only at what the nodes hold reports the same
/// of both.
pub proof fn lemma_builds_agree(
    decoders: Seq<crate::decoder::DecoderView>,
    txs: Seq<TxTraces>,
    db: MetadataView,
    block: u64,
    a: BlockTree,
    b: BlockTree,
    p: spec_fn(crate::tree::Node) -> bool,
)
    requires
        a.roots().len() == txs.len(),
        b.roots().len() == txs.len(),
        forall|t: int|
            0 <= t < txs.len() ==> tree_of(
                #[trigger] a.roots()[t],
                txs[t],
                t,
                block_entries(decoders, txs, db, block, t),
            ),
        forall|t: int|
            0 <= t < txs.len() ==> tree_of(
                #[trigger] b.roots()[t],
                txs[t],
                t,
                block_entries(decoders, txs, db, block, t),
            ),
        crate::tree::respects(p),
    ensures
        same_roots(a.roots(), b.roots()),
        crate::tree::hits_upto(a.roots(), p, txs.len() as int) == crate::tree::hits_upto(
            b.roots(),
            p,
            txs.len() as int,
        ),
{
    assert forall|t: int| 0 <= t < txs.len() implies {
        &&& (#[trigger] a.roots()[t]).hash() == b.roots()[t].hash()
        &&& a.roots()[t].index() == b.roots()[t].index()
        &&& a.roots()[t].gas() == b.roots()[t].gas()
        &&& same_arena(a.roots()[t].nodes(), b.roots()[t].nodes())
    } by {
        lemma_tree_fixed(
            a.roots()[t],
            b.roots()[t],
            txs[t],
            t,
            block_entries(decoders, txs, db, block, t),
        );
    }
    lemma_same_hits(a.roots(), b.roots(), p, txs.len() as int);
}

/// Whether every frame of every transaction satisfies `ok`.
pub open spec fn all_frames(txs: Seq<TxTraces>, ok: spec_fn(CallFrameView) -> bool) -> bool {
    forall|t: int, i: int|
        0 <= t < txs.len() && 0 <= i < txs[t].frames@.len() ==> ok((#[trigger] txs[t].frames@[i])@)
}

/// Two registries that decode the frames of a transaction alike leave the
/// same metadata and the same entries after the first pass.
pub proof fn lemma_first_pass_alike(
    d: Seq<crate::decoder::DecoderView>,
    e: Seq<crate::decoder::DecoderView>,
    ok: spec_fn(CallFrameView) -> bool,
    frames: Seq<CallFrameView>,
    db: MetadataView,
    block: u64,
    tx_idx: u64,
    k: int,
)
    requires
        same_decoding(d, e, ok),
        forall|i: int| 0 <= i < frames.len() ==> ok(#[trigger] frames[i]),
        0 <= k <= frames.len(),
    ensures
        first_pass(d, frames, db, block, tx_idx, k) == first_pass(e, frames, db, block, tx_idx, k),
    decreases k,
{
    if k > 0 {
        lemma_first_pass_alike(d, e, ok, frames, db, block, tx_idx, k - 1);
        let before = first_pass(d, frames, db, block, tx_idx, k - 1);
        assert(ok(frames[k - 1]));
        lemma_classified_alike(d, e, ok, frames[k - 1], before.0, block, tx_idx);
    }
}

/// Two registries that decode the frames of a transaction alike give the
/// same entries and leave the same metadata.
pub proof fn lemma_tx_alike(
    d: Seq<crate::decoder::DecoderView>,
    e: Seq<crate::decoder::DecoderView>,
    ok: spec_fn(CallFrameView) -> bool,
    frames: Seq<CallFrameView>,
    db: MetadataView,
    block: u64,
    tx_idx: u64,
)
    requires
        same_decoding(d, e, ok),
        forall|i: int| 0 <= i < frames.len() ==> ok(#[trigger] frames[i]),
    ensures
        tx_entries(d, frames, db, block, tx_idx) == tx_entries(e, frames, db, block, tx_idx),
        tx_db(d, frames, db, block, tx_idx) == tx_db(e, frames, db, block, tx_idx),
{
    let n = frames.len() as int;
    lemma_first_pass_alike(d, e, ok, frames, db, block, tx_idx, n);
    let first = first_pass(d, frames, db, block, tx_idx, n);
    assert(tx_entries(d, frames, db, block, tx_idx) =~= tx_entries(e, frames, db, block, tx_idx)) by {
        assert forall|i: int| 0 <= i < n implies tx_entries(d, frames, db, block, tx_idx)[i]
            == tx_entries(e, frames, db, block, tx_idx)[i] by {
            assert(ok(frames[i]));
            lemma_classified_alike(d, e, ok, frames[i], first.0, block, tx_idx);
        }
    }
}

/// Pattern matching, for whole blocks: two registries that decode every
/// frame of a block alike give every transaction the same entries, leave
/// the same metadata and send the same messages. With `lemma_builds_agree`
/// the trees of the two hold the same nodes, and with
/// `lemma_reports_agree` the reports are the same.
pub proof fn lemma_block_alike(
    d: Seq<crate::decoder::DecoderView>,
    e: Seq<crate::decoder::DecoderView>,
    ok: spec_fn(CallFrameView) -> bool,
    txs: Seq<TxTraces>,
    db: MetadataView,
    block: u64,
    k: int,
)
    requires
        same_decoding(d, e, ok),
        all_frames(txs, ok),
        0 <= k <= txs.len(),
    ensures
        block_db(d, txs, db, block, k) == block_db(e, txs, db, block, k),
        block_messages(d, txs, db, block, k) == block_messages(e, txs, db, block, k),
        forall|t: int|
            0 <= t < k ==> #[trigger] block_entries(d, txs, db, block, t) == block_entries(
                e,
                txs,
                db,
                block,
                t,
            ),
    decreases k,
{
    if k > 0 {
        lemma_block_alike(d, e, ok, txs, db, block, k - 1);
        let frames = frames_view(txs[k - 1].frames@);
        assert forall|i: int| 0 <= i < frames.len() implies ok(#[trigger] frames[i]) by {
            assert(ok(txs[k - 1].frames@[i]@));
        }
        lemma_tx_alike(
            d,
            e,
            ok,
            frames,
            block_db(d, txs, db, block, k - 1),
            block,
            (k - 1) as u64,
        );
    }
}

} // verus!
