use brontes::actions::{Actions, Log, Protocol};
use brontes::classifier::{BuildError, Classifier, TxTraces};
use brontes::decoder::{
    burn_signature, mint_signature, swap_signature, sync_signature, tick_burn_signature,
    tick_mint_signature, tick_swap_signature, transfer_signature, CallFrameInfo, DexPriceMsg,
    BURN_SELECTOR, MINT_SELECTOR, SWAP_SELECTOR, TICK_BURN_SELECTOR, TICK_MINT_SELECTOR,
    TICK_SWAP_SELECTOR,
};
use brontes::pool::PoolStates;
use brontes::pricing::{apply_price_msg, apply_price_msgs};
use brontes::rational::Rational;
use brontes::discovery::CREATE_PAIR_SELECTOR;
use brontes::metadata::{Metadata, PoolInfo};
use brontes::primitives::{Address, B256, U256};
use brontes::registry::{ActionCollection, Registry};
use brontes::tree::GasDetails;

fn word(n: u64) -> Vec<u8> {
    let mut w = vec![0u8; 24];
    w.extend_from_slice(&n.to_be_bytes());
    w
}

fn address_word(n: u64) -> Vec<u8> {
    word(n)
}

fn selector_bytes(selector: u32) -> Vec<u8> {
    selector.to_be_bytes().to_vec()
}

fn sync_log(pool: Address, reserve_0: u64, reserve_1: u64) -> Log {
    let mut data = word(reserve_0);
    data.extend(word(reserve_1));
    Log { address: pool, topics: vec![sync_signature()], data }
}

fn swap_log(pool: Address, in_0: u64, in_1: u64, out_0: u64, out_1: u64) -> Log {
    let mut data = word(in_0);
    data.extend(word(in_1));
    data.extend(word(out_0));
    data.extend(word(out_1));
    Log { address: pool, topics: vec![swap_signature(), B256::zero(), B256::zero()], data }
}

fn swap_input(recipient: u64) -> Vec<u8> {
    let mut input = selector_bytes(SWAP_SELECTOR);
    input.extend(word(0));
    input.extend(word(90));
    input.extend(address_word(recipient));
    input.extend(word(128));
    input.extend(word(0));
    input
}

const POOL: u64 = 500;
const T0: u64 = 10;
const T1: u64 = 11;

fn metadata() -> Metadata {
    let mut db = Metadata::new();
    db.put_pool(
        Address::from_u64(POOL),
        PoolInfo {
            protocol: Protocol::UniswapV2,
            token_0: Address::from_u64(T0),
            token_1: Address::from_u64(T1),
        },
    );
    db
}

fn frame(trace_index: u64, target: u64, input: Vec<u8>, logs: Vec<Log>, subtraces: Vec<u64>) -> CallFrameInfo {
    CallFrameInfo {
        trace_index,
        from: Address::from_u64(1),
        target: Address::from_u64(target),
        msg_sender: Address::from_u64(1),
        value: U256::zero(),
        input,
        logs,
        subtraces,
        created: None,
    }
}

#[test]
fn event_signatures_are_the_hashes_of_the_event_declarations() {
    fn hash(declaration: &str) -> B256 {
        let h = alloy_primitives::keccak256(declaration.as_bytes());
        let bytes: [u8; 32] = h.0;
        B256 {
            hi: u128::from_be_bytes(bytes[..16].try_into().unwrap()),
            lo: u128::from_be_bytes(bytes[16..].try_into().unwrap()),
        }
    }
    assert_eq!(swap_signature(), hash("Swap(address,uint256,uint256,uint256,uint256,address)"));
    assert_eq!(sync_signature(), hash("Sync(uint112,uint112)"));
    assert_eq!(mint_signature(), hash("Mint(address,uint256,uint256)"));
    assert_eq!(burn_signature(), hash("Burn(address,uint256,uint256,address)"));
    assert_eq!(transfer_signature(), hash("Transfer(address,address,uint256)"));
    assert_eq!(
        tick_swap_signature(),
        hash("Swap(address,address,int256,int256,uint160,uint128,int24)")
    );
    assert_eq!(
        tick_mint_signature(),
        hash("Mint(address,address,int24,int24,uint128,uint256,uint256)")
    );
    assert_eq!(tick_burn_signature(), hash("Burn(address,int24,int24,uint128,uint256,uint256)"));
}

#[test]
fn selectors_are_the_hashes_of_the_function_declarations() {
    fn first_four(declaration: &str) -> u32 {
        let h = alloy_primitives::keccak256(declaration.as_bytes());
        u32::from_be_bytes(h.0[..4].try_into().unwrap())
    }
    assert_eq!(SWAP_SELECTOR, first_four("swap(uint256,uint256,address,bytes)"));
    assert_eq!(MINT_SELECTOR, first_four("mint(address)"));
    assert_eq!(BURN_SELECTOR, first_four("burn(address)"));
    assert_eq!(CREATE_PAIR_SELECTOR, first_four("createPair(address,address)"));
    assert_eq!(TICK_SWAP_SELECTOR, first_four("swap(address,bool,int256,uint160,bytes)"));
    assert_eq!(TICK_MINT_SELECTOR, first_four("mint(address,int24,int24,uint128,bytes)"));
    assert_eq!(TICK_BURN_SELECTOR, first_four("burn(int24,int24,uint128)"));
}

#[test]
fn empty_swap_logs_leave_the_frame_unclassified() {
    let registry = Registry::constant_product_family();
    let db = metadata();
    let pool = Address::from_u64(POOL);
    let call = frame(0, POOL, swap_input(7), vec![sync_log(pool, 1000, 2000)], vec![]);
    assert!(registry.dispatch(&call, &db, 1, 0).is_none());
    let (action, msg) = registry.classify(&call, &db, 1, 0);
    assert!(action.is_unclassified());
    assert!(msg.is_none());
}

#[test]
fn v2_swap_token0_to_token1() {
    let registry = Registry::constant_product_family();
    let db = metadata();
    let pool = Address::from_u64(POOL);
    let logs = vec![sync_log(pool, 1100, 1910), swap_log(pool, 100, 0, 0, 90)];
    let call = frame(3, POOL, swap_input(7), logs, vec![]);
    let (msg, action) = registry.dispatch(&call, &db, 12, 4).unwrap();
    let swap = action.force_swap();
    assert_eq!(swap.token_in, Address::from_u64(T0));
    assert_eq!(swap.token_out, Address::from_u64(T1));
    assert_eq!(swap.amount_in, U256::from_u64(100));
    assert_eq!(swap.amount_out, U256::from_u64(90));
    assert_eq!(swap.recipient, Address::from_u64(7));
    assert_eq!(swap.pool, pool);
    assert_eq!(swap.trace_index, 3);
    match msg {
        Some(DexPriceMsg::Update(update)) => {
            assert_eq!(update.pool, pool);
            assert_eq!(update.block, 12);
            assert_eq!(update.tx_idx, 4);
            assert_eq!(update.reserve_0, U256::from_u64(1100));
            assert_eq!(update.reserve_1, U256::from_u64(1910));
        }
        _ => panic!("a swap with a Sync log updates the pool"),
    }
}

#[test]
fn v2_swap_token1_to_token0() {
    let registry = Registry::constant_product_family();
    let db = metadata();
    let pool = Address::from_u64(POOL);
    let logs = vec![sync_log(pool, 955, 2050), swap_log(pool, 0, 50, 45, 0)];
    let call = frame(0, POOL, swap_input(7), logs, vec![]);
    let (_, action) = registry.dispatch(&call, &db, 1, 0).unwrap();
    let swap = action.force_swap();
    assert_eq!(swap.token_in, Address::from_u64(T1));
    assert_eq!(swap.amount_in, U256::from_u64(50));
    assert_eq!(swap.token_out, Address::from_u64(T0));
    assert_eq!(swap.amount_out, U256::from_u64(45));
}

#[test]
fn dispatch_gives_the_same_action_twice() {
    let registry = Registry::constant_product_family();
    let db = metadata();
    let pool = Address::from_u64(POOL);
    let logs = vec![sync_log(pool, 1100, 1910), swap_log(pool, 100, 0, 0, 90)];
    let call = frame(3, POOL, swap_input(7), logs, vec![]);
    let (first_msg, first) = registry.dispatch(&call, &db, 12, 4).unwrap();
    let (second_msg, second) = registry.dispatch(&call, &db, 12, 4).unwrap();
    assert!(first.same(&second));
    assert_eq!(first_msg, second_msg);
}

#[test]
fn zero_amount_swap_and_unknown_pool_are_unclassified() {
    let registry = Registry::constant_product_family();
    let db = metadata();
    let pool = Address::from_u64(POOL);
    let empty = frame(0, POOL, swap_input(7), vec![sync_log(pool, 1, 1), swap_log(pool, 0, 0, 0, 0)], vec![]);
    assert!(registry.dispatch(&empty, &db, 1, 0).is_none());
    let unknown = frame(0, 999, swap_input(7), vec![swap_log(pool, 100, 0, 0, 90)], vec![]);
    assert!(registry.dispatch(&unknown, &db, 1, 0).is_none());
    let short = frame(0, POOL, vec![0x02, 0x2c], vec![swap_log(pool, 100, 0, 0, 90)], vec![]);
    assert!(registry.dispatch(&short, &db, 1, 0).is_none());
}

#[test]
fn mint_and_burn_are_decoded() {
    let registry = Registry::constant_product_family();
    let db = metadata();
    let pool = Address::from_u64(POOL);
    let transfer = Log { address: pool, topics: vec![transfer_signature()], data: word(5) };
    let mut amounts = word(300);
    amounts.extend(word(400));
    let minted = Log { address: pool, topics: vec![mint_signature(), B256::zero()], data: amounts.clone() };
    let mut input = selector_bytes(MINT_SELECTOR);
    input.extend(address_word(9));
    let call = frame(2, POOL, input, vec![transfer.duplicate(), sync_log(pool, 1, 2), minted], vec![]);
    let (_, action) = registry.dispatch(&call, &db, 1, 0).unwrap();
    match &action {
        Actions::Mint(m) => {
            assert_eq!(m.recipient, Address::from_u64(9));
            assert_eq!(m.tokens, vec![Address::from_u64(T0), Address::from_u64(T1)]);
            assert_eq!(m.amounts, vec![U256::from_u64(300), U256::from_u64(400)]);
            assert_eq!(m.trace_index, 2);
        }
        _ => panic!("a mint call with a Mint log is a mint"),
    }

    let burned = Log { address: pool, topics: vec![burn_signature(), B256::zero(), B256::zero()], data: amounts };
    let mut input = selector_bytes(BURN_SELECTOR);
    input.extend(address_word(9));
    let call = frame(2, POOL, input, vec![transfer.duplicate(), transfer, sync_log(pool, 1, 2), burned], vec![]);
    let (_, action) = registry.dispatch(&call, &db, 1, 0).unwrap();
    assert!(action.is_burn());
}

#[test]
fn subactions_bubble_up_in_trace_order() {
    // R -> [C1 (swap), C2 -> [C21 (mint)]]
    let classifier = Classifier::new(Registry::constant_product_family());
    let mut db = metadata();
    let pool = Address::from_u64(POOL);
    let mut amounts = word(300);
    amounts.extend(word(400));
    let minted = Log { address: pool, topics: vec![mint_signature(), B256::zero()], data: amounts };
    let mut mint_input = selector_bytes(MINT_SELECTOR);
    mint_input.extend(address_word(9));
    let frames = vec![
        frame(0, 50, vec![], vec![], vec![1, 2]),
        frame(1, POOL, swap_input(7), vec![sync_log(pool, 1100, 1910), swap_log(pool, 100, 0, 0, 90)], vec![]),
        frame(2, 51, vec![], vec![], vec![3]),
        frame(3, POOL, mint_input, vec![sync_log(pool, 1400, 2310), minted], vec![]),
    ];
    let gas = GasDetails { coinbase_transfer: None, priority_fee: 1, gas_used: 2, effective_gas_price: 3 };
    let traces = vec![TxTraces { tx_hash: B256 { hi: 0, lo: 77 }, gas_details: gas, frames }];
    let (tree, msgs) = classifier.build_block_tree(9, &traces, &mut db).unwrap();
    assert_eq!(msgs.len(), 2);
    let root = tree.get_root(B256 { hi: 0, lo: 77 }).unwrap();
    assert_eq!(root.len(), 4);
    let head = root.head();
    assert!(head.data.is_unclassified());
    assert_eq!(head.subactions.len(), 2);
    assert!(head.subactions[0].is_swap());
    assert!(head.subactions[1].is_mint());
    assert_eq!(head.subactions[0].trace_index(), 1);
    assert_eq!(head.subactions[1].trace_index(), 3);
    assert_eq!(head.children, vec![1, 2]);
    let c2 = root.node(2);
    assert_eq!(c2.subactions.len(), 1);
    assert!(c2.subactions[0].is_mint());
    assert_eq!(c2.children, vec![3]);
    assert_eq!(root.node(1).subactions.len(), 1);
    assert_eq!(tree.get_gas_details(B256 { hi: 0, lo: 77 }), Some(gas));
    assert!(tree.get_root(B256 { hi: 0, lo: 78 }).is_none());
}

#[test]
fn frames_that_are_no_tree_are_reported() {
    let classifier = Classifier::new(Registry::constant_product_family());
    let mut db = metadata();
    let gas = GasDetails { coinbase_transfer: None, priority_fee: 0, gas_used: 0, effective_gas_price: 0 };
    // The second frame is not listed by the first.
    let frames = vec![frame(0, 50, vec![], vec![], vec![]), frame(1, 51, vec![], vec![], vec![])];
    let good = vec![frame(0, 50, vec![], vec![], vec![])];
    let traces = vec![
        TxTraces { tx_hash: B256 { hi: 0, lo: 1 }, gas_details: gas, frames: good },
        TxTraces { tx_hash: B256 { hi: 0, lo: 2 }, gas_details: gas, frames },
    ];
    match classifier.build_block_tree(9, &traces, &mut db) {
        Err(BuildError::MalformedTrace(t)) => assert_eq!(t, 1),
        _ => panic!("the second transaction is no tree"),
    }
}

#[test]
fn a_transaction_hash_that_comes_twice_is_reported() {
    let classifier = Classifier::new(Registry::constant_product_family());
    let mut db = metadata();
    let gas = GasDetails { coinbase_transfer: None, priority_fee: 0, gas_used: 0, effective_gas_price: 0 };
    let tx = |hash: u128| TxTraces {
        tx_hash: B256 { hi: 0, lo: hash },
        gas_details: gas,
        frames: vec![frame(0, 50, vec![], vec![], vec![])],
    };
    let traces = vec![tx(1), tx(2), tx(1), tx(2)];
    match classifier.build_block_tree(9, &traces, &mut db) {
        Err(BuildError::DuplicateTransaction(t)) => assert_eq!(t, 2),
        _ => panic!("the third transaction has the hash of the first"),
    }
    let (tree, _) = classifier.build_block_tree(9, &vec![tx(1), tx(2)], &mut db).unwrap();
    assert!(tree.contains(B256 { hi: 0, lo: 2 }));
    assert!(!tree.contains(B256 { hi: 0, lo: 3 }));
}

#[test]
fn price_messages_become_pool_states_once_decimals_are_known() {
    let registry = Registry::constant_product_family();
    let mut db = metadata();
    let pool = Address::from_u64(POOL);
    let logs = vec![sync_log(pool, 1000, 4000), swap_log(pool, 100, 0, 0, 90)];
    let call = frame(3, POOL, swap_input(7), logs, vec![]);
    let (msg, _) = registry.dispatch(&call, &db, 12, 4).unwrap();
    let msg = msg.unwrap();
    let mut states = PoolStates::new();
    // The decimals of the tokens are not known yet.
    assert!(!apply_price_msg(&mut states, &db, &msg));
    assert!(!states.contains(pool));
    db.put_decimals(Address::from_u64(T0), 1);
    assert!(!apply_price_msg(&mut states, &db, &msg));
    db.put_decimals(Address::from_u64(T1), 2);
    assert!(apply_price_msg(&mut states, &db, &msg));
    // 100.0 of token 0 and 40.00 of token 1.
    let state = states.get(pool).unwrap();
    assert!(state.get_price(Address::from_u64(T0)).equals(&Rational::from_ratio(2, 5).unwrap()));
    // The discovery of a pool brings no state.
    let found = DexPriceMsg::DiscoveredPool(
        Address::from_u64(9),
        PoolInfo { protocol: Protocol::UniswapV2, token_0: Address::from_u64(T0), token_1: Address::from_u64(T1) },
    );
    assert!(!apply_price_msg(&mut states, &db, &found));
    let mut again = PoolStates::new();
    apply_price_msgs(&mut again, &db, &vec![found, msg]);
    assert!(again.contains(pool));
    assert!(!again.contains(Address::from_u64(9)));
}

#[test]
fn a_pool_created_by_a_factory_is_known_to_later_frames() {
    let classifier = Classifier::new(Registry::constant_product_family());
    let mut db = Metadata::new();
    let factory = Address::from_u64(40);
    db.put_factory(factory, Protocol::UniswapV2);
    let pool = Address::from_u64(POOL);
    let mut create_pair = selector_bytes(CREATE_PAIR_SELECTOR);
    create_pair.extend(address_word(T1));
    create_pair.extend(address_word(T0));
    let mut creation = frame(2, 0, vec![0x60, 0x80], vec![], vec![]);
    creation.from = factory;
    creation.created = Some(pool);
    let frames = vec![
        frame(0, 50, vec![], vec![], vec![1, 3]),
        frame(1, 40, create_pair, vec![], vec![2]),
        creation,
        frame(3, POOL, swap_input(7), vec![sync_log(pool, 1100, 1910), swap_log(pool, 100, 0, 0, 90)], vec![]),
    ];
    let gas = GasDetails { coinbase_transfer: None, priority_fee: 0, gas_used: 0, effective_gas_price: 0 };
    let traces = vec![TxTraces { tx_hash: B256 { hi: 0, lo: 1 }, gas_details: gas, frames }];
    let (tree, msgs) = classifier.build_block_tree(9, &traces, &mut db).unwrap();
    let root = tree.root(0);
    assert!(root.node(2).data.is_new_pool());
    assert!(root.node(3).data.is_swap());
    // The tokens of the pair are registered in address order.
    assert_eq!(db.tokens_of(pool), Some((Address::from_u64(T0), Address::from_u64(T1))));
    assert_eq!(db.protocol_of(pool), Some(Protocol::UniswapV2));
    assert_eq!(msgs.len(), 2);
    assert!(matches!(msgs[0], DexPriceMsg::DiscoveredPool(..)));
    assert!(matches!(msgs[1], DexPriceMsg::Update(..)));
    let swap = root.node(3).data.force_swap();
    assert_eq!(swap.token_in, Address::from_u64(T0));
}

const TICK_POOL: u64 = 600;

fn tick_metadata() -> Metadata {
    let mut db = Metadata::new();
    db.put_pool(
        Address::from_u64(TICK_POOL),
        PoolInfo {
            protocol: Protocol::UniswapV3,
            token_0: Address::from_u64(T0),
            token_1: Address::from_u64(T1),
        },
    );
    db
}

/// A 32-byte word that holds a signed number.
fn signed_word(n: i64) -> Vec<u8> {
    let fill = if n < 0 { 0xff } else { 0x00 };
    let mut w = vec![fill; 24];
    w.extend_from_slice(&n.to_be_bytes());
    w
}

fn tick_swap_log(delta_0: i64, delta_1: i64, sqrt_price_x96: u128, liquidity: u64) -> Log {
    let mut data = signed_word(delta_0);
    data.extend(signed_word(delta_1));
    let mut price = vec![0u8; 16];
    price.extend_from_slice(&sqrt_price_x96.to_be_bytes());
    data.extend(price);
    data.extend(word(liquidity));
    data.extend(signed_word(-5));
    Log {
        address: Address::from_u64(TICK_POOL),
        topics: vec![tick_swap_signature(), B256::zero(), B256::zero()],
        data,
    }
}

fn tick_swap_input(recipient: u64) -> Vec<u8> {
    let mut input = selector_bytes(TICK_SWAP_SELECTOR);
    input.extend(address_word(recipient));
    input.extend(word(1));
    input.extend(word(100));
    input.extend(word(0));
    input.extend(word(160));
    input.extend(word(0));
    input
}

#[test]
fn tick_swap_reads_what_the_pool_gained_and_lost() {
    let registry = Registry::standard();
    let db = tick_metadata();
    // The pool gains 100 of token 0 and loses 90 of token 1.
    let call = frame(1, TICK_POOL, tick_swap_input(7), vec![tick_swap_log(100, -90, 1 << 96, 1000)], vec![]);
    let (msg, action) = registry.dispatch(&call, &db, 3, 2).unwrap();
    let swap = action.force_swap();
    assert_eq!(swap.token_in, Address::from_u64(T0));
    assert_eq!(swap.token_out, Address::from_u64(T1));
    assert_eq!(swap.amount_in, U256::from_u64(100));
    assert_eq!(swap.amount_out, U256::from_u64(90));
    assert_eq!(swap.recipient, Address::from_u64(7));
    match msg {
        Some(DexPriceMsg::TickUpdate(update)) => {
            assert_eq!(update.sqrt_price_x96, U256::from_u128(1 << 96));
            assert_eq!(update.liquidity, U256::from_u64(1000));
            assert_eq!(update.tick, U256 { hi: u128::MAX, lo: u128::MAX - 4 });
            assert_eq!((update.block, update.tx_idx), (3, 2));
        }
        _ => panic!("a swap against a pool with ticks tells its price"),
    }
    // The other way round.
    let call = frame(1, TICK_POOL, tick_swap_input(7), vec![tick_swap_log(-45, 50, 1 << 96, 1000)], vec![]);
    let (_, action) = registry.dispatch(&call, &db, 3, 2).unwrap();
    let swap = action.force_swap();
    assert_eq!(swap.token_in, Address::from_u64(T1));
    assert_eq!(swap.amount_in, U256::from_u64(50));
    assert_eq!(swap.token_out, Address::from_u64(T0));
    assert_eq!(swap.amount_out, U256::from_u64(45));
    // The registry of constant-product pools does not know the call.
    assert!(Registry::constant_product_family().dispatch(&call, &db, 3, 2).is_none());
}

#[test]
fn tick_mint_and_burn_are_decoded() {
    let registry = Registry::standard();
    let db = tick_metadata();
    let pool = Address::from_u64(TICK_POOL);
    let mut data = address_word(8);
    data.extend(word(5000));
    data.extend(word(300));
    data.extend(word(400));
    let minted = Log { address: pool, topics: vec![tick_mint_signature(); 4], data };
    let mut input = selector_bytes(TICK_MINT_SELECTOR);
    input.extend(address_word(9));
    let call = frame(2, TICK_POOL, input, vec![minted], vec![]);
    let (msg, action) = registry.dispatch(&call, &db, 1, 0).unwrap();
    assert!(msg.is_none());
    match &action {
        Actions::Mint(m) => {
            assert_eq!(m.recipient, Address::from_u64(9));
            assert_eq!(m.amounts, vec![U256::from_u64(300), U256::from_u64(400)]);
        }
        _ => panic!("a mint call with a Mint log is a mint"),
    }
    let mut data = word(5000);
    data.extend(word(30));
    data.extend(word(40));
    let burned = Log { address: pool, topics: vec![tick_burn_signature(); 4], data };
    let call = frame(2, TICK_POOL, selector_bytes(TICK_BURN_SELECTOR), vec![burned], vec![]);
    let (_, action) = registry.dispatch(&call, &db, 1, 0).unwrap();
    match &action {
        Actions::Burn(b) => {
            assert_eq!(b.recipient, Address::from_u64(1));
            assert_eq!(b.amounts, vec![U256::from_u64(30), U256::from_u64(40)]);
        }
        _ => panic!("a burn call with a Burn log is a burn"),
    }
}

#[test]
fn tick_update_prices_like_a_pool_with_the_same_depth() {
    let registry = Registry::standard();
    let db = tick_metadata();
    // The square root of the price is 2, so one token 0 buys four token 1.
    let call = frame(1, TICK_POOL, tick_swap_input(7), vec![tick_swap_log(100, -90, 2 << 96, 1000)], vec![]);
    let (msg, _) = registry.dispatch(&call, &db, 3, 2).unwrap();
    let Some(DexPriceMsg::TickUpdate(update)) = msg else {
        panic!("a swap against a pool with ticks tells its price");
    };
    let mut states = PoolStates::new();
    states.update_ticks(&update, 0, 0);
    let state = states.get(Address::from_u64(TICK_POOL)).unwrap();
    assert!(state.get_price(Address::from_u64(T0)).equals(&Rational::from_u64(4)));
    assert!(state.get_price(Address::from_u64(T1)).equals(&Rational::from_ratio(1, 4).unwrap()));
    // Virtual reserves: 1000 / 2 of token 0 and 1000 * 2 of token 1.
    let (t0, _) = state.get_tvl(Address::from_u64(T0));
    assert!(t0.equals(&Rational::from_u64(500)));
    let (t1, _) = state.get_tvl(Address::from_u64(T1));
    assert!(t1.equals(&Rational::from_u64(2000)));
    // Decimals scale the two sides apart.
    states.update_ticks(&update, 1, 0);
    let state = states.get(Address::from_u64(TICK_POOL)).unwrap();
    assert!(state.get_price(Address::from_u64(T0)).equals(&Rational::from_u64(40)));
}
