use brontes::actions::{
    Actions, Log, NormalizedLiquidation, NormalizedNewPool, NormalizedSwap, NormalizedTransfer,
    Protocol, Unclassified,
};
use brontes::liquidations::{any_liquidation, LiquidationInspector, MevType};
use brontes::primitives::{Address, B256, U256};
use brontes::tree::{BlockTree, ClassifiedFrame, GasDetails, Node, Root};

fn unclassified(trace_index: u64) -> Actions {
    Actions::Unclassified(Unclassified { trace_index, input: vec![1, 2, 3], logs: vec![] })
}

fn swap(trace_index: u64) -> Actions {
    Actions::Swap(NormalizedSwap {
        trace_index,
        from: Address::from_u64(1),
        recipient: Address::from_u64(2),
        pool: Address::from_u64(3),
        token_in: Address::from_u64(4),
        token_out: Address::from_u64(5),
        amount_in: U256::from_u64(100 + trace_index),
        amount_out: U256::from_u64(90),
    })
}

fn liquidation(trace_index: u64) -> Actions {
    Actions::Liquidation(NormalizedLiquidation {
        trace_index,
        pool: Address::from_u64(30),
        liquidator: Address::from_u64(31),
        debtor: Address::from_u64(32),
        collateral_token: Address::from_u64(33),
        debt_token: Address::from_u64(34),
        collateral_amount: U256::from_u64(1000),
        debt_amount: U256::from_u64(900),
    })
}

fn frame(trace_index: u64, data: Actions, subtraces: Vec<u64>) -> ClassifiedFrame {
    ClassifiedFrame {
        trace_index,
        address: Address::from_u64(70 + trace_index),
        target: Address::from_u64(80 + trace_index),
        data,
        subtraces,
    }
}

fn gas() -> GasDetails {
    GasDetails { coinbase_transfer: Some(5), priority_fee: 1, gas_used: 21000, effective_gas_price: 30 }
}

fn hash(n: u128) -> B256 {
    B256 { hi: 0, lo: n }
}

/// 0 -> [1 (swap) -> [2 (liquidation)], 3 -> [4 (swap), 5], 6 (liquidation)]
fn sample() -> Root {
    let frames = vec![
        frame(0, unclassified(0), vec![1, 3, 6]),
        frame(1, swap(1), vec![2]),
        frame(2, liquidation(2), vec![]),
        frame(3, unclassified(3), vec![4, 5]),
        frame(4, swap(4), vec![]),
        frame(5, unclassified(5), vec![]),
        frame(6, liquidation(6), vec![]),
    ];
    Root::assemble(hash(1), 0, gas(), &frames).unwrap()
}

fn indices(actions: &Vec<Actions>) -> Vec<u64> {
    actions.iter().map(|a| a.trace_index()).collect()
}

#[test]
fn tree_is_laid_out_in_preorder() {
    let root = sample();
    assert_eq!(root.len(), 7);
    for i in 0..7 {
        assert_eq!(root.node(i).trace_index, i as u64);
    }
    assert_eq!(root.head().children, vec![1, 3, 6]);
    assert_eq!(root.head().subtree_end, 7);
    assert_eq!(root.node(1).subtree_end, 3);
    assert_eq!(root.node(3).children, vec![4, 5]);
    assert_eq!(root.node(3).subtree_end, 6);
    assert_eq!(root.node(5).subtree_end, 6);
    assert_eq!(root.tx_hash(), hash(1));
    assert_eq!(root.get_block_position(), 0);
    assert_eq!(root.get_gas_details(), gas());
    assert_eq!(root.node(4).address, Address::from_u64(74));
    assert_eq!(root.node(4).target, Address::from_u64(84));
}

#[test]
fn subactions_are_the_recognized_actions_of_the_subtree() {
    let root = sample();
    assert_eq!(indices(&root.head().subactions), vec![1, 2, 4, 6]);
    assert_eq!(indices(&root.node(1).subactions), vec![1, 2]);
    assert_eq!(indices(&root.node(2).subactions), vec![2]);
    assert_eq!(indices(&root.node(3).subactions), vec![4]);
    assert_eq!(indices(&root.node(5).subactions), Vec::<u64>::new());
    // Own action first, then the children's lists in call order.
    let mut joined = indices(&root.node(1).subactions);
    joined.extend(indices(&root.node(3).subactions));
    joined.extend(indices(&root.node(6).subactions));
    assert_eq!(indices(&root.head().subactions), joined);
}

#[test]
fn frames_out_of_preorder_are_no_tree() {
    let build = |frames: Vec<ClassifiedFrame>| Root::assemble(hash(1), 0, gas(), &frames);
    assert!(build(vec![]).is_none());
    // A trace index that is not the position.
    assert!(build(vec![frame(1, unclassified(1), vec![])]).is_none());
    // An action that carries another trace index than its frame.
    assert!(build(vec![frame(0, swap(3), vec![])]).is_none());
    // A child that does not follow its parent.
    assert!(build(vec![
        frame(0, unclassified(0), vec![2]),
        frame(1, unclassified(1), vec![]),
        frame(2, unclassified(2), vec![]),
    ])
    .is_none());
    // A second child that starts inside the subtree of the first.
    assert!(build(vec![
        frame(0, unclassified(0), vec![1, 2]),
        frame(1, unclassified(1), vec![2]),
        frame(2, unclassified(2), vec![]),
    ])
    .is_none());
    // A child beyond the last frame.
    assert!(build(vec![frame(0, unclassified(0), vec![1])]).is_none());
    // A frame that nothing lists.
    assert!(build(vec![frame(0, unclassified(0), vec![]), frame(1, unclassified(1), vec![])]).is_none());
    assert!(build(vec![frame(0, unclassified(0), vec![1]), frame(1, unclassified(1), vec![])]).is_some());
}

#[test]
fn inspect_reports_the_topmost_matches_without_repetitions() {
    let root = sample();
    let has_liquidation = |node: &Node| any_liquidation(&node.subactions);
    let found = root.inspect(&has_liquidation);
    // The root matches, so nothing below it is reported.
    assert_eq!(found.len(), 1);
    assert_eq!(indices(&found[0]), vec![1, 2, 4, 6]);

    let has_swap_not_root = |node: &Node| node.trace_index != 0 && node.subactions.iter().any(|a| a.is_swap());
    let found = root.inspect(&has_swap_not_root);
    assert_eq!(found.len(), 2);
    assert_eq!(indices(&found[0]), vec![1, 2]);
    assert_eq!(indices(&found[1]), vec![4]);

    // Two leaves without recognized actions give the same empty list once.
    let frames = vec![
        frame(0, swap(0), vec![1, 2]),
        frame(1, unclassified(1), vec![]),
        frame(2, unclassified(2), vec![]),
    ];
    let root = Root::assemble(hash(2), 0, gas(), &frames).unwrap();
    let empty = |node: &Node| node.subactions.is_empty();
    let found = root.inspect(&empty);
    assert_eq!(found.len(), 1);
    assert!(found[0].is_empty());

    let never = |_: &Node| false;
    assert!(root.inspect(&never).is_empty());
}

#[test]
fn collect_is_flat_across_the_transaction() {
    let root = sample();
    let swaps = |node: &Node| node.data.is_swap();
    assert_eq!(indices(&root.collect(&swaps)), vec![1, 4]);
    let all = |_: &Node| true;
    assert_eq!(indices(&root.collect(&all)), vec![0, 1, 2, 3, 4, 5, 6]);

    let mut tree = BlockTree::new(7);
    tree.insert_root(sample());
    assert_eq!(indices(&tree.collect(hash(1), &swaps)), vec![1, 4]);
    assert!(tree.collect(hash(9), &swaps).is_empty());
}

#[test]
fn inspect_all_reports_the_transactions_that_match() {
    let mut tree = BlockTree::new(7);
    tree.insert_root(sample());
    let plain = vec![frame(0, swap(0), vec![1]), frame(1, unclassified(1), vec![])];
    tree.insert_root(Root::assemble(hash(2), 1, gas(), &plain).unwrap());
    let liquidated = vec![frame(0, liquidation(0), vec![])];
    tree.insert_root(Root::assemble(hash(3), 2, gas(), &liquidated).unwrap());
    assert_eq!(tree.len(), 3);
    assert_eq!(tree.block_number(), 7);

    let has_liquidation = |node: &Node| any_liquidation(&node.subactions);
    let found = tree.inspect_all(&has_liquidation);
    assert_eq!(found.len(), 2);
    assert_eq!(found[0].0, hash(1));
    assert_eq!(found[1].0, hash(3));
    assert_eq!(indices(&found[1].1[0]), vec![0]);
    assert_eq!(tree.root(1).tx_hash(), hash(2));
}

#[test]
fn liquidation_inspector_reports_liquidations_with_their_swaps() {
    let mut tree = BlockTree::new(7);
    tree.insert_root(sample());
    let plain = vec![frame(0, swap(0), vec![])];
    tree.insert_root(Root::assemble(hash(2), 1, gas(), &plain).unwrap());
    let inspector = LiquidationInspector::new(Address::from_u64(99));
    let reports = inspector.process_tree(&tree);
    assert_eq!(reports.len(), 1);
    let (mev, record) = &reports[0];
    assert_eq!(mev.block_number, 7);
    assert_eq!(mev.tx_index, 0);
    assert_eq!(mev.tx_hash, hash(1));
    assert_eq!(mev.eoa, Address::from_u64(70));
    assert_eq!(mev.mev_contract, Address::from_u64(80));
    assert_eq!(mev.mev_type, MevType::Liquidation);
    assert_eq!(record.liquidation_tx_hash, hash(1));
    assert_eq!(record.trigger, B256::zero());
    assert_eq!(record.liquidation_swaps_index, vec![1, 4]);
    assert_eq!(record.liquidation_swaps_from, vec![Address::from_u64(1); 2]);
    assert_eq!(record.liquidation_swaps_pool, vec![Address::from_u64(3); 2]);
    assert_eq!(record.liquidation_swaps_token_in, vec![Address::from_u64(4); 2]);
    assert_eq!(record.liquidation_swaps_token_out, vec![Address::from_u64(5); 2]);
    assert_eq!(record.liquidation_swaps_amount_in, vec![U256::from_u64(101), U256::from_u64(104)]);
    assert_eq!(record.liquidation_swaps_amount_out, vec![U256::from_u64(90); 2]);
    assert_eq!(record.liquidations_index, vec![2, 6]);
    assert_eq!(record.liquidations_liquidator, vec![Address::from_u64(31); 2]);
    assert_eq!(record.liquidations_liquidatee, vec![Address::from_u64(32); 2]);
    assert_eq!(record.liquidations_tokens, vec![Address::from_u64(33); 2]);
    assert_eq!(record.liquidations_amounts, vec![U256::from_u64(1000); 2]);
    assert_eq!(record.gas_details, gas());
}

#[test]
fn calculate_liquidation_keeps_the_order_of_the_lists() {
    let inspector = LiquidationInspector::new(Address::from_u64(99));
    let lists = vec![vec![swap(5), liquidation(6)], vec![], vec![unclassified(7), swap(8)]];
    let (mev, record) = inspector
        .calculate_liquidation(hash(4), 3, Address::from_u64(10), Address::from_u64(11), 55, &lists, &gas())
        .unwrap();
    assert_eq!(mev.tx_index, 3);
    assert_eq!(mev.block_number, 55);
    assert_eq!(mev.mev_contract, Address::from_u64(10));
    assert_eq!(mev.eoa, Address::from_u64(11));
    assert_eq!(record.liquidation_swaps_index, vec![5, 8]);
    assert_eq!(record.liquidations_index, vec![6]);
    let none: Vec<Vec<Actions>> = vec![];
    let (_, record) = inspector
        .calculate_liquidation(hash(4), 3, Address::from_u64(10), Address::from_u64(11), 55, &none, &gas())
        .unwrap();
    assert!(record.liquidation_swaps_index.is_empty());
    assert!(record.liquidations_index.is_empty());
}

#[test]
fn actions_know_their_kind() {
    let transfer = Actions::Transfer(NormalizedTransfer {
        trace_index: 9,
        token: Address::from_u64(1),
        from: Address::from_u64(2),
        to: Address::from_u64(3),
        amount: U256::from_u64(4),
    });
    let new_pool = Actions::NewPool(NormalizedNewPool {
        trace_index: 2,
        factory: Address::from_u64(1),
        pool: Address::from_u64(2),
        tokens: vec![Address::from_u64(3), Address::from_u64(4)],
        protocol: Protocol::UniswapV2,
    });
    assert!(transfer.is_transfer() && !transfer.is_swap());
    assert!(new_pool.is_new_pool() && !new_pool.is_unclassified());
    assert!(swap(1).is_swap() && swap(1).as_swap().is_some() && swap(1).as_liquidation().is_none());
    assert!(liquidation(1).is_liquidation() && liquidation(1).as_liquidation().is_some());
    assert!(unclassified(1).is_unclassified() && !unclassified(1).is_mint() && !unclassified(1).is_burn());
    assert_eq!(transfer.trace_index(), 9);
    assert_eq!(swap(4).force_swap().trace_index, 4);
    assert!(swap(4).same(&swap(4).duplicate()));
    assert!(!swap(4).same(&swap(5)));
    assert!(!swap(4).same(&liquidation(4)));
    assert!(new_pool.same(&new_pool.duplicate()));
    let with_logs = Actions::Unclassified(Unclassified {
        trace_index: 1,
        input: vec![1],
        logs: vec![Log { address: Address::from_u64(1), topics: vec![B256::zero()], data: vec![7] }],
    });
    assert!(with_logs.same(&with_logs.duplicate()));
    assert!(!with_logs.same(&unclassified(1)));
}
