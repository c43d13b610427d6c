//! The liquidation inspector: finds the transactions of a block in which a
//! position was liquidated and records the liquidations with the swaps that
//! went with them.

use vstd::prelude::*;
use crate::primitives::{Address, B256, U256};
use crate::actions::{Actions, ActionView, NormalizedSwap, NormalizedLiquidation, actions_view};
use crate::tree::{
    BlockTree, GasDetails, Node, Root, callable, computes, first_with, hits_upto, lemma_same_hits,
    lists_view, reports_view, respects, same_node, same_roots,
};

verus! {

/// The kinds of value extraction that inspectors report.
#[derive(Clone, Copy, Debug, PartialEq, Eq, Hash, Structural)]
pub enum MevType {
    Sandwich,
    AtomicArbitrage,
    CexDex,
    Liquidation,
}

/// What every report says of the transaction it is about.
#[derive(Clone, Copy, Debug, PartialEq, Eq, Structural)]
pub struct ClassifiedMev {
    pub block_number: u64,
    pub tx_index: usize,
    pub tx_hash: B256,
    pub eoa: Address,
    pub mev_contract: Address,
    pub mev_type: MevType,
}

/// A liquidation report in columns: one entry per swap in the swap columns,
/// one entry per liquidation in the liquidation columns.
#[derive(Debug)]
pub struct Liquidation {
    pub liquidation_tx_hash: B256,
    pub trigger: B256,
    pub liquidation_swaps_index: Vec<u64>,
    pub liquidation_swaps_from: Vec<Address>,
    pub liquidation_swaps_pool: Vec<Address>,
    pub liquidation_swaps_token_in: Vec<Address>,
    pub liquidation_swaps_token_out: Vec<Address>,
    pub liquidation_swaps_amount_in: Vec<U256>,
    pub liquidation_swaps_amount_out: Vec<U256>,
    pub liquidations_index: Vec<u64>,
    pub liquidations_liquidator: Vec<Address>,
    pub liquidations_liquidatee: Vec<Address>,
    pub liquidations_tokens: Vec<Address>,
    pub liquidations_amounts: Vec<U256>,
    pub gas_details: GasDetails,
}

/// The entries of several lists, one list after the other.
pub open spec fn flatten(lists: Seq<Seq<ActionView>>) -> Seq<ActionView>
    decreases lists.len(),
{
    if lists.len() == 0 {
        Seq::empty()
    } else {
        flatten(lists.drop_last()) + lists.last()
    }
}

/// The swaps among a sequence of actions, in order.
pub open spec fn swaps_of(actions: Seq<ActionView>) -> Seq<NormalizedSwap>
    decreases actions.len(),
{
    if actions.len() == 0 {
        Seq::empty()
    } else {
        match actions.last() {
            ActionView::Swap(s) => swaps_of(actions.drop_last()).push(s),
            _ => swaps_of(actions.drop_last()),
        }
    }
}

/// The liquidations among a sequence of actions, in order.
pub open spec fn liquidations_of(actions: Seq<ActionView>) -> Seq<NormalizedLiquidation>
    decreases actions.len(),
{
    if actions.len() == 0 {
        Seq::empty()
    } else {
        match actions.last() {
            ActionView::Liquidation(l) => liquidations_of(actions.drop_last()).push(l),
            _ => liquidations_of(actions.drop_last()),
        }
    }
}

/// Whether a sequence of actions holds a liquidation.
pub open spec fn has_liquidation(actions: Seq<ActionView>) -> bool {
    exists|k: int| 0 <= k < actions.len() && #[trigger] actions[k] is Liquidation
}

/// Whether a report is the one that the swaps and liquidations of a
/// transaction give.
pub open spec fn reports(
    record: Liquidation,
    tx_hash: B256,
    swaps: Seq<NormalizedSwap>,
    liquidations: Seq<NormalizedLiquidation>,
    gas_details: GasDetails,
) -> bool {
    &&& record.liquidation_tx_hash == tx_hash
    &&& record.trigger == (B256 { hi: 0, lo: 0 })
    &&& record.gas_details == gas_details
    &&& record.liquidation_swaps_index@ == Seq::new(swaps.len(), |k: int| swaps[k].trace_index)
    &&& record.liquidation_swaps_from@ == Seq::new(swaps.len(), |k: int| swaps[k].from)
    &&& record.liquidation_swaps_pool@ == Seq::new(swaps.len(), |k: int| swaps[k].pool)
    &&& record.liquidation_swaps_token_in@ == Seq::new(swaps.len(), |k: int| swaps[k].token_in)
    &&& record.liquidation_swaps_token_out@ == Seq::new(swaps.len(), |k: int| swaps[k].token_out)
    &&& record.liquidation_swaps_amount_in@ == Seq::new(swaps.len(), |k: int| swaps[k].amount_in)
    &&& record.liquidation_swaps_amount_out@ == Seq::new(
        swaps.len(),
        |k: int| swaps[k].amount_out,
    )
    &&& record.liquidations_index@ == Seq::new(
        liquidations.len(),
        |k: int| liquidations[k].trace_index,
    )
    &&& record.liquidations_liquidator@ == Seq::new(
        liquidations.len(),
        |k: int| liquidations[k].liquidator,
    )
    &&& record.liquidations_liquidatee@ == Seq::new(
        liquidations.len(),
        |k: int| liquidations[k].debtor,
    )
    &&& record.liquidations_tokens@ == Seq::new(
        liquidations.len(),
        |k: int| liquidations[k].collateral_token,
    )
    &&& record.liquidations_amounts@ == Seq::new(
        liquidations.len(),
        |k: int| liquidations[k].collateral_amount,
    )
}

/// Whether a vector of actions holds a liquidation.
pub fn any_liquidation(actions: &Vec<Actions>) -> (r: bool)
    ensures
        r == has_liquidation(actions_view(actions@)),
{
    let mut i: usize = 0;
    while i < actions.len()
        invariant
            i <= actions@.len(),
            forall|k: int| 0 <= k < i ==> !(#[trigger] actions_view(actions@)[k] is Liquidation),
        decreases actions@.len() - i,
    {
        if actions[i].is_liquidation() {
            assert(actions_view(actions@)[i as int] is Liquidation);
            return true;
        }
        i = i + 1;
    }
    false
}

/// Appending one action to a sequence appends it to the flattened lists.
proof fn lemma_flatten_step(lists: Seq<Seq<ActionView>>, i: int, j: int)
    requires
        0 <= i < lists.len(),
        0 <= j < lists[i].len(),
    ensures
        (flatten(lists.take(i)) + lists[i].take(j + 1)).drop_last() == flatten(lists.take(i))
            + lists[i].take(j),
        (flatten(lists.take(i)) + lists[i].take(j + 1)).last() == lists[i][j],
{
    let a = flatten(lists.take(i));
    assert((a + lists[i].take(j + 1)).drop_last() =~= a + lists[i].take(j));
}

/// The lists up to and including list `i` flatten to the lists before it
/// followed by the whole of list `i`.
proof fn lemma_flatten_next(lists: Seq<Seq<ActionView>>, i: int)
    requires
        0 <= i < lists.len(),
    ensures
        flatten(lists.take(i + 1)) == flatten(lists.take(i)) + lists[i].take(
            lists[i].len() as int,
        ),
        flatten(lists.take(i)) + lists[i].take(0) == flatten(lists.take(i)),
{
    assert(lists.take(i + 1).drop_last() =~= lists.take(i));
    assert(lists.take(i + 1).last() == lists[i]);
    assert(lists[i].take(lists[i].len() as int) =~= lists[i]);
    assert(flatten(lists.take(i)) + lists[i].take(0) =~= flatten(lists.take(i)));
}

/// The swaps and the liquidations among the actions of several lists, in
/// order.
fn select(liq: &Vec<Vec<Actions>>) -> (r: (Vec<NormalizedSwap>, Vec<NormalizedLiquidation>))
    ensures
        r.0@ == swaps_of(flatten(lists_view(liq@))),
        r.1@ == liquidations_of(flatten(lists_view(liq@))),
{
    let ghost lists = lists_view(liq@);
    let mut swaps: Vec<NormalizedSwap> = Vec::new();
    let mut liquidations: Vec<NormalizedLiquidation> = Vec::new();
    let mut i: usize = 0;
    assert(lists.take(0) =~= Seq::<Seq<ActionView>>::empty());
    while i < liq.len()
        invariant
            i <= liq@.len(),
            lists == lists_view(liq@),
            swaps@ == swaps_of(flatten(lists.take(i as int))),
            liquidations@ == liquidations_of(flatten(lists.take(i as int))),
        decreases liq@.len() - i,
    {
        let list = &liq[i];
        let mut j: usize = 0;
        proof {
            lemma_flatten_next(lists, i as int);
        }
        while j < list.len()
            invariant
                j <= list@.len(),
                i < liq@.len(),
                lists == lists_view(liq@),
                lists[i as int] == actions_view(list@),
                swaps@ == swaps_of(flatten(lists.take(i as int)) + lists[i as int].take(j as int)),
                liquidations@ == liquidations_of(
                    flatten(lists.take(i as int)) + lists[i as int].take(j as int),
                ),
            decreases list@.len() - j,
        {
            proof {
                lemma_flatten_step(lists, i as int, j as int);
            }
            match &list[j] {
                Actions::Swap(s) => {
                    swaps.push(*s);
                },
                Actions::Liquidation(l) => {
                    liquidations.push(*l);
                },
                _ => {},
            }
            j = j + 1;
        }
        i = i + 1;
    }
    assert(lists.take(liq@.len() as int) =~= lists);
    (swaps, liquidations)
}

/// The inspector that reports liquidations.
#[derive(Clone, Copy, Debug)]
pub struct LiquidationInspector {
    quote: Address,
}

impl LiquidationInspector {
    /// An inspector that values what it finds in the given quote asset.
    pub fn new(quote: Address) -> (r: LiquidationInspector)
        ensures
            r.quote_asset() == quote,
    {
        LiquidationInspector { quote }
    }

    /// The asset in which the inspector values what it finds.
    pub closed spec fn quote_asset(&self) -> Address {
        self.quote
    }

    /// The report on one transaction: its header, the swaps among the given
    /// actions in the swap columns, and the liquidations among them in the
    /// liquidation columns.
    pub fn calculate_liquidation(
        &self,
        tx_hash: B256,
        idx: usize,
        mev_contract: Address,
        eoa: Address,
        block_number: u64,
        liq: &Vec<Vec<Actions>>,
        gas_details: &GasDetails,
    ) -> (r: Option<(ClassifiedMev, Liquidation)>)
        ensures
            r matches Some((mev, record)) && mev == (ClassifiedMev {
                block_number,
                tx_index: idx,
                tx_hash,
                eoa,
                mev_contract,
                mev_type: MevType::Liquidation,
            }) && reports(
                record,
                tx_hash,
                swaps_of(flatten(lists_view(liq@))),
                liquidations_of(flatten(lists_view(liq@))),
                *gas_details,
            ),
    {
        let (swaps, liquidations) = select(liq);
        let mut swaps_index: Vec<u64> = Vec::new();
        let mut swaps_from: Vec<Address> = Vec::new();
        let mut swaps_pool: Vec<Address> = Vec::new();
        let mut swaps_token_in: Vec<Address> = Vec::new();
        let mut swaps_token_out: Vec<Address> = Vec::new();
        let mut swaps_amount_in: Vec<U256> = Vec::new();
        let mut swaps_amount_out: Vec<U256> = Vec::new();
        let mut i: usize = 0;
        while i < swaps.len()
            invariant
                i <= swaps@.len(),
                swaps_index@.len() == i,
                swaps_from@.len() == i,
                swaps_pool@.len() == i,
                swaps_token_in@.len() == i,
                swaps_token_out@.len() == i,
                swaps_amount_in@.len() == i,
                swaps_amount_out@.len() == i,
                forall|k: int|
                    0 <= k < i ==> {
                        &&& swaps_index@[k] == (#[trigger] swaps@[k]).trace_index
                        &&& swaps_from@[k] == swaps@[k].from
                        &&& swaps_pool@[k] == swaps@[k].pool
                        &&& swaps_token_in@[k] == swaps@[k].token_in
                        &&& swaps_token_out@[k] == swaps@[k].token_out
                        &&& swaps_amount_in@[k] == swaps@[k].amount_in
                        &&& swaps_amount_out@[k] == swaps@[k].amount_out
                    },
            decreases swaps@.len() - i,
        {
            let s = swaps[i];
            swaps_index.push(s.trace_index);
            swaps_from.push(s.from);
            swaps_pool.push(s.pool);
            swaps_token_in.push(s.token_in);
            swaps_token_out.push(s.token_out);
            swaps_amount_in.push(s.amount_in);
            swaps_amount_out.push(s.amount_out);
            i = i + 1;
        }
        let mut liqs_index: Vec<u64> = Vec::new();
        let mut liqs_liquidator: Vec<Address> = Vec::new();
        let mut liqs_liquidatee: Vec<Address> = Vec::new();
        let mut liqs_tokens: Vec<Address> = Vec::new();
        let mut liqs_amounts: Vec<U256> = Vec::new();
        let mut j: usize = 0;
        while j < liquidations.len()
            invariant
                j <= liquidations@.len(),
                liqs_index@.len() == j,
                liqs_liquidator@.len() == j,
                liqs_liquidatee@.len() == j,
                liqs_tokens@.len() == j,
                liqs_amounts@.len() == j,
                forall|k: int|
                    0 <= k < j ==> {
                        &&& liqs_index@[k] == (#[trigger] liquidations@[k]).trace_index
                        &&& liqs_liquidator@[k] == liquidations@[k].liquidator
                        &&& liqs_liquidatee@[k] == liquidations@[k].debtor
                        &&& liqs_tokens@[k] == liquidations@[k].collateral_token
                        &&& liqs_amounts@[k] == liquidations@[k].collateral_amount
                    },
            decreases liquidations@.len() - j,
        {
            let l = liquidations[j];
            liqs_index.push(l.trace_index);
            liqs_liquidator.push(l.liquidator);
            liqs_liquidatee.push(l.debtor);
            liqs_tokens.push(l.collateral_token);
            liqs_amounts.push(l.collateral_amount);
            j = j + 1;
        }
        let mev = ClassifiedMev {
            block_number,
            tx_index: idx,
            tx_hash,
            eoa,
            mev_contract,
            mev_type: MevType::Liquidation,
        };
        let record = Liquidation {
            liquidation_tx_hash: tx_hash,
            trigger: B256::zero(),
            liquidation_swaps_index: swaps_index,
            liquidation_swaps_from: swaps_from,
            liquidation_swaps_pool: swaps_pool,
            liquidation_swaps_token_in: swaps_token_in,
            liquidation_swaps_token_out: swaps_token_out,
            liquidation_swaps_amount_in: swaps_amount_in,
            liquidation_swaps_amount_out: swaps_amount_out,
            liquidations_index: liqs_index,
            liquidations_liquidator: liqs_liquidator,
            liquidations_liquidatee: liqs_liquidatee,
            liquidations_tokens: liqs_tokens,
            liquidations_amounts: liqs_amounts,
            gas_details: *gas_details,
        };
        proof {
            let sw = swaps@;
            let lq = liquidations@;
            assert(record.liquidation_swaps_index@ =~= Seq::new(sw.len(), |k: int| sw[k].trace_index));
            assert(record.liquidation_swaps_from@ =~= Seq::new(sw.len(), |k: int| sw[k].from));
            assert(record.liquidation_swaps_pool@ =~= Seq::new(sw.len(), |k: int| sw[k].pool));
            assert(record.liquidation_swaps_token_in@ =~= Seq::new(sw.len(), |k: int| sw[k].token_in));
            assert(record.liquidation_swaps_token_out@ =~= Seq::new(
                sw.len(),
                |k: int| sw[k].token_out,
            ));
            assert(record.liquidation_swaps_amount_in@ =~= Seq::new(
                sw.len(),
                |k: int| sw[k].amount_in,
            ));
            assert(record.liquidation_swaps_amount_out@ =~= Seq::new(
                sw.len(),
                |k: int| sw[k].amount_out,
            ));
            assert(record.liquidations_index@ =~= Seq::new(lq.len(), |k: int| lq[k].trace_index));
            assert(record.liquidations_liquidator@ =~= Seq::new(lq.len(), |k: int| lq[k].liquidator));
            assert(record.liquidations_liquidatee@ =~= Seq::new(lq.len(), |k: int| lq[k].debtor));
            assert(record.liquidations_tokens@ =~= Seq::new(
                lq.len(),
                |k: int| lq[k].collateral_token,
            ));
            assert(record.liquidations_amounts@ =~= Seq::new(
                lq.len(),
                |k: int| lq[k].collateral_amount,
            ));
        }
        Some((mev, record))
    }
}

/// The nodes whose subtree holds a liquidation.
pub open spec fn liquidation_nodes() -> spec_fn(Node) -> bool {
    |node: Node| has_liquidation(actions_view(node.subactions@))
}

/// Whether `entry` is the report on the transaction of `hit`: the header
/// comes from the first tree of the block with that hash, the columns from
/// the actions that the tree reported.
pub open spec fn reported(
    tree: BlockTree,
    entry: (ClassifiedMev, Liquidation),
    hit: (B256, Seq<Seq<ActionView>>),
) -> bool {
    exists|i: int|
        {
            &&& first_with(tree.roots(), hit.0, i)
            &&& entry.0 == (ClassifiedMev {
                block_number: tree.number(),
                tx_index: (#[trigger] tree.roots()[i]).index(),
                tx_hash: hit.0,
                eoa: tree.roots()[i].nodes()[0].address,
                mev_contract: tree.roots()[i].nodes()[0].target,
                mev_type: MevType::Liquidation,
            })
            &&& reports(
                entry.1,
                hit.0,
                swaps_of(flatten(hit.1)),
                liquidations_of(flatten(hit.1)),
                tree.roots()[i].gas(),
            )
        }
}

/// Whether `reports` are the liquidation reports of a block, as
/// `process_tree` gives them.
pub open spec fn reports_of(tree: BlockTree, reports: Seq<(ClassifiedMev, Liquidation)>) -> bool {
    let hits = hits_upto(tree.roots(), liquidation_nodes(), tree.roots().len() as int);
    &&& reports.len() == hits.len()
    &&& forall|k: int| 0 <= k < reports.len() ==> reported(tree, #[trigger] reports[k], hits[k])
}

/// Every transaction that is reported has a tree in the block.
proof fn lemma_hits_have_roots(roots: Seq<Root>, p: spec_fn(Node) -> bool, k: int, e: int)
    requires
        0 <= k <= roots.len(),
        0 <= e < hits_upto(roots, p, k).len(),
    ensures
        exists|i: int| 0 <= i < k && (#[trigger] roots[i]).hash() == hits_upto(roots, p, k)[e].0,
    decreases k,
{
    if k > 0 {
        let before = hits_upto(roots, p, k - 1);
        if e < before.len() {
            lemma_hits_have_roots(roots, p, k - 1, e);
            let i = choose|i: int| 0 <= i < k - 1 && (#[trigger] roots[i]).hash() == before[e].0;
            assert(0 <= i < k && roots[i].hash() == hits_upto(roots, p, k)[e].0);
        } else {
            assert(roots[k - 1].hash() == hits_upto(roots, p, k)[e].0);
        }
    }
}

impl LiquidationInspector {
    /// The liquidation reports of a block: one for each transaction whose
    /// tree holds a liquidation, in block order.
    pub fn process_tree(&self, tree: &BlockTree) -> (r: Vec<(ClassifiedMev, Liquidation)>)
        requires
            tree.wf(),
        ensures
            reports_of(*tree, r@),
    {
        let pred = |node: &Node| -> (b: bool)
            ensures
                b == has_liquidation(actions_view(node.subactions@)),
            { any_liquidation(&node.subactions) };
        proof {
            assert(callable(pred));
            assert(computes(pred, liquidation_nodes()));
        }
        let liq_txs = tree.inspect_all(&pred);
        let ghost hits = hits_upto(tree.roots(), liquidation_nodes(), tree.roots().len() as int);
        let mut r: Vec<(ClassifiedMev, Liquidation)> = Vec::new();
        let mut k: usize = 0;
        while k < liq_txs.len()
            invariant
                k <= liq_txs@.len(),
                tree.wf(),
                reports_view(liq_txs@) == hits,
                hits == hits_upto(tree.roots(), liquidation_nodes(), tree.roots().len() as int),
                r@.len() == k,
                forall|q: int| 0 <= q < k ==> reported(*tree, #[trigger] r@[q], hits[q]),
            decreases liq_txs@.len() - k,
        {
            let tx_hash = liq_txs[k].0;
            let liq = &liq_txs[k].1;
            proof {
                assert(reports_view(liq_txs@)[k as int] == (tx_hash, lists_view(liq@)));
                lemma_hits_have_roots(
                    tree.roots(),
                    liquidation_nodes(),
                    tree.roots().len() as int,
                    k as int,
                );
            }
            let root = match tree.get_root(tx_hash) {
                Some(root) => root,
                None => vstd::pervasive::unreached(),
            };
            let ghost i = choose|i: int|
                first_with(tree.roots(), tx_hash, i) && *root == #[trigger] tree.roots()[i];
            assert(tree.roots()[i].wf());
            let eoa = root.head().address;
            let mev_contract = root.head().target;
            let idx = root.get_block_position();
            let gas_details = root.get_gas_details();
            let entry = match self.calculate_liquidation(
                tx_hash,
                idx,
                mev_contract,
                eoa,
                tree.block_number(),
                liq,
                &gas_details,
            ) {
                Some(entry) => entry,
                None => vstd::pervasive::unreached(),
            };
            let ghost before = r@;
            r.push(entry);
            proof {
                assert(reported(*tree, r@[k as int], hits[k as int]));
                assert forall|q: int| 0 <= q < k + 1 implies reported(
                    *tree,
                    #[trigger] r@[q],
                    hits[q],
                ) by {
                    if q < k {
                        assert(r@[q] == before[q]);
                    }
                }
            }
            k = k + 1;
        }
        r
    }
}

/// Whether two reports say the same.
pub open spec fn same_record(a: Liquidation, b: Liquidation) -> bool {
    &&& a.liquidation_tx_hash == b.liquidation_tx_hash
    &&& a.trigger == b.trigger
    &&& a.gas_details == b.gas_details
    &&& a.liquidation_swaps_index@ == b.liquidation_swaps_index@
    &&& a.liquidation_swaps_from@ == b.liquidation_swaps_from@
    &&& a.liquidation_swaps_pool@ == b.liquidation_swaps_pool@
    &&& a.liquidation_swaps_token_in@ == b.liquidation_swaps_token_in@
    &&& a.liquidation_swaps_token_out@ == b.liquidation_swaps_token_out@
    &&& a.liquidation_swaps_amount_in@ == b.liquidation_swaps_amount_in@
    &&& a.liquidation_swaps_amount_out@ == b.liquidation_swaps_amount_out@
    &&& a.liquidations_index@ == b.liquidations_index@
    &&& a.liquidations_liquidator@ == b.liquidations_liquidator@
    &&& a.liquidations_liquidatee@ == b.liquidations_liquidatee@
    &&& a.liquidations_tokens@ == b.liquidations_tokens@
    &&& a.liquidations_amounts@ == b.liquidations_amounts@
}

/// The liquidation reports of a block are fixed by what its trees hold:
/// two blocks with the same number whose trees hold the same nodes get the
/// same reports.
pub proof fn lemma_reports_agree(
    a: BlockTree,
    b: BlockTree,
    of_a: Seq<(ClassifiedMev, Liquidation)>,
    of_b: Seq<(ClassifiedMev, Liquidation)>,
)
    requires
        a.wf(),
        b.wf(),
        a.number() == b.number(),
        same_roots(a.roots(), b.roots()),
        reports_of(a, of_a),
        reports_of(b, of_b),
    ensures
        of_a.len() == of_b.len(),
        forall|k: int|
            0 <= k < of_a.len() ==> (#[trigger] of_a[k]).0 == of_b[k].0 && same_record(
                of_a[k].1,
                of_b[k].1,
            ),
{
    let n = a.roots().len() as int;
    assert(respects(liquidation_nodes()));
    lemma_same_hits(a.roots(), b.roots(), liquidation_nodes(), n);
    let hits = hits_upto(a.roots(), liquidation_nodes(), n);
    assert forall|k: int| 0 <= k < of_a.len() implies (#[trigger] of_a[k]).0 == of_b[k].0
        && same_record(of_a[k].1, of_b[k].1) by {
        assert(reported(a, of_a[k], hits[k]));
        assert(reported(b, of_b[k], hits[k]));
        let hash = hits[k].0;
        let i = choose|i: int|
            {
                &&& first_with(a.roots(), hash, i)
                &&& of_a[k].0 == (ClassifiedMev {
                    block_number: a.number(),
                    tx_index: (#[trigger] a.roots()[i]).index(),
                    tx_hash: hash,
                    eoa: a.roots()[i].nodes()[0].address,
                    mev_contract: a.roots()[i].nodes()[0].target,
                    mev_type: MevType::Liquidation,
                })
                &&& reports(
                    of_a[k].1,
                    hash,
                    swaps_of(flatten(hits[k].1)),
                    liquidations_of(flatten(hits[k].1)),
                    a.roots()[i].gas(),
                )
            };
        let j = choose|j: int|
            {
                &&& first_with(b.roots(), hash, j)
                &&& of_b[k].0 == (ClassifiedMev {
                    block_number: b.number(),
                    tx_index: (#[trigger] b.roots()[j]).index(),
                    tx_hash: hash,
                    eoa: b.roots()[j].nodes()[0].address,
                    mev_contract: b.roots()[j].nodes()[0].target,
                    mev_type: MevType::Liquidation,
                })
                &&& reports(
                    of_b[k].1,
                    hash,
                    swaps_of(flatten(hits[k].1)),
                    liquidations_of(flatten(hits[k].1)),
                    b.roots()[j].gas(),
                )
            };
        assert(a.roots()[i].hash() == b.roots()[i].hash());
        assert(a.roots()[j].hash() == b.roots()[j].hash());
        if i < j {
            assert(b.roots()[i].hash() != hash);
        } else if j < i {
            assert(a.roots()[j].hash() != hash);
        }
        assert(i == j);
        assert(a.roots()[i].wf());
        assert(b.roots()[i].wf());
        assert(same_node(a.roots()[i].nodes()[0], b.roots()[i].nodes()[0]));
    }
}

/// Decoder purity, for reports: two runs over the same traces with the
/// same registry against the same metadata, each building its trees and
/// reading its reports off them, give the same liquidation reports.
pub proof fn lemma_runs_report_alike(
    decoders: Seq<crate::decoder::DecoderView>,
    txs: Seq<crate::classifier::TxTraces>,
    db: crate::metadata::MetadataView,
    a: BlockTree,
    b: BlockTree,
    of_a: Seq<(ClassifiedMev, Liquidation)>,
    of_b: Seq<(ClassifiedMev, Liquidation)>,
)
    requires
        a.wf(),
        b.wf(),
        a.number() == b.number(),
        a.roots().len() == txs.len(),
        b.roots().len() == txs.len(),
        forall|t: int|
            0 <= t < txs.len() ==> crate::classifier::tree_of(
                #[trigger] a.roots()[t],
                txs[t],
                t,
                crate::classifier::block_entries(decoders, txs, db, a.number(), t),
            ),
        forall|t: int|
            0 <= t < txs.len() ==> crate::classifier::tree_of(
                #[trigger] b.roots()[t],
                txs[t],
                t,
                crate::classifier::block_entries(decoders, txs, db, a.number(), t),
            ),
        reports_of(a, of_a),
        reports_of(b, of_b),
    ensures
        of_a.len() == of_b.len(),
        forall|k: int|
            0 <= k < of_a.len() ==> (#[trigger] of_a[k]).0 == of_b[k].0 && same_record(
                of_a[k].1,
                of_b[k].1,
            ),
{
    assert(respects(liquidation_nodes()));
    crate::classifier::lemma_builds_agree(decoders, txs, db, a.number(), a, b, liquidation_nodes());
    lemma_reports_agree(a, b, of_a, of_b);
}

} // verus!
