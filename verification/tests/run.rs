use brontes::orchestrator::{Command, Event, Exit, Orchestrator, RetryPolicy};
use brontes::primitives::Address;
use brontes::run::{determine_max_tasks, Inspectors, RunArgs, RunError};

fn args(quote: &str, end_block: Option<u64>, run_dex_pricing: bool) -> RunArgs {
    RunArgs {
        start_block: 100,
        end_block,
        max_tasks: None,
        quote_asset: quote.to_string(),
        inspectors: None,
        cex_exchanges: None,
        run_dex_pricing,
    }
}

const USDC: &str = "0xA0b86991c6218b36c1d19D4a2e9Eb0cE3606eB48";

#[test]
fn quote_asset_is_parsed_as_an_address() {
    let expected = Address { hi: 0xA0b86991, lo: 0xc6218b36c1d19D4a2e9Eb0cE3606eB48 };
    assert_eq!(args(USDC, None, true).quote(), Ok(expected));
    // Without the prefix, and with an upper-case prefix.
    assert_eq!(args(&USDC[2..], None, true).quote(), Ok(expected));
    assert_eq!(args(&format!("0X{}", &USDC[2..]), None, true).quote(), Ok(expected));
    assert_eq!(
        args("0x0000000000000000000000000000000000000001", None, true).quote(),
        Ok(Address::from_u64(1))
    );
}

#[test]
fn quote_asset_that_is_no_address_is_refused() {
    assert_eq!(args("usdc", None, true).quote(), Err(RunError::InvalidQuoteAsset));
    assert_eq!(args("", None, true).quote(), Err(RunError::InvalidQuoteAsset));
    assert_eq!(args(&USDC[..41], None, true).quote(), Err(RunError::InvalidQuoteAsset));
    assert_eq!(args(&format!("{}00", USDC), None, true).quote(), Err(RunError::InvalidQuoteAsset));
    assert_eq!(
        args("0xZ0b86991c6218b36c1d19D4a2e9Eb0cE3606eB48", None, true).quote(),
        Err(RunError::InvalidQuoteAsset)
    );
}

#[test]
fn run_is_planned_from_its_arguments() {
    let plan = args(USDC, Some(200), false).execute(true, 10).unwrap();
    assert_eq!(plan.start_block, 100);
    assert_eq!(plan.end_block, Some(200));
    assert_eq!(plan.max_tasks, 8);
    assert_eq!(plan.quote_asset, Address { hi: 0xA0b86991, lo: 0xc6218b36c1d19D4a2e9Eb0cE3606eB48 });
    assert!(!plan.run_dex_pricing);
    assert_eq!(
        plan.inspectors,
        vec![
            Inspectors::AtomicBackrun,
            Inspectors::CexDex,
            Inspectors::Jit,
            Inspectors::Liquidations,
            Inspectors::LongTail,
            Inspectors::Sandwich,
        ]
    );
    let mut asked = args(USDC, None, true);
    asked.inspectors = Some(vec![Inspectors::Liquidations]);
    asked.max_tasks = Some(3);
    let plan = asked.execute(false, 10).unwrap();
    assert_eq!(plan.inspectors, vec![Inspectors::Liquidations]);
    assert_eq!(plan.max_tasks, 3);
    assert_eq!(plan.end_block, None);
}

#[test]
fn each_refusal_has_its_input() {
    assert_eq!(args("nope", Some(200), false).execute(false, 4).unwrap_err(), RunError::InvalidQuoteAsset);
    assert_eq!(args(USDC, Some(200), false).execute(false, 4).unwrap_err(), RunError::RangeUnavailable);
    assert_eq!(args(USDC, Some(200), true).execute(false, 4).unwrap_err(), RunError::RangeUnavailable);
    assert_eq!(args(USDC, None, false).execute(true, 4).unwrap_err(), RunError::EndBlockRequired);
    // Without an end the stored range is not looked at.
    assert!(args(USDC, None, true).execute(false, 4).is_ok());
    assert_eq!(args(USDC, Some(200), true).range_to_check(), Some((100, 200)));
    assert_eq!(args(USDC, None, true).range_to_check(), None);
}

#[test]
fn default_tasks_are_four_fifths_of_the_cores() {
    assert_eq!(determine_max_tasks(None, 10), 8);
    assert_eq!(determine_max_tasks(None, 16), 12);
    assert_eq!(determine_max_tasks(None, 1), 0);
    assert_eq!(determine_max_tasks(None, 0), 0);
    assert_eq!(determine_max_tasks(None, u64::MAX), 14757395258967641292);
    assert_eq!(determine_max_tasks(Some(5), 64), 5);
}

#[test]
fn orchestrator_starts_blocks_in_order_and_within_the_flight() {
    let mut o = Orchestrator::new(10, Some(12), 11, 2);
    assert_eq!(o.next(), Command::Start(10));
    assert_eq!(o.next(), Command::Start(11));
    // The flight is full, and block 12 is beyond the tip anyway.
    assert_eq!(o.next(), Command::Wait);
    o.on_event(Event::BlockFinished);
    assert_eq!(o.next(), Command::Wait);
    o.on_event(Event::TipAdvanced(20));
    assert_eq!(o.next(), Command::Start(12));
    assert_eq!(o.next(), Command::Wait);
    o.on_event(Event::BlockFinished);
    o.on_event(Event::BlockFinished);
    assert_eq!(o.next(), Command::Exit(Exit::Clean));
}

#[test]
fn orchestrator_drains_before_it_stops() {
    let mut o = Orchestrator::new(10, None, 100, 0);
    // A flight of no blocks is widened to one.
    assert_eq!(o.max_tasks, 1);
    assert_eq!(o.next(), Command::Start(10));
    o.on_event(Event::Shutdown);
    assert_eq!(o.next(), Command::Wait);
    o.on_event(Event::BlockFinished);
    assert_eq!(o.next(), Command::Exit(Exit::Clean));

    let mut o = Orchestrator::new(10, None, 100, 4);
    assert_eq!(o.next(), Command::Start(10));
    assert_eq!(o.next(), Command::Start(11));
    o.on_event(Event::BlockFailed);
    assert_eq!(o.next(), Command::Wait);
    o.on_event(Event::BlockFinished);
    assert_eq!(o.next(), Command::Exit(Exit::Failed));
    // The tip never moves back.
    o.on_event(Event::TipAdvanced(5));
    assert_eq!(o.chain_tip, 100);
}

#[test]
fn orchestrator_stops_at_the_last_block_number() {
    let mut o = Orchestrator::new(u64::MAX, None, u64::MAX, 2);
    assert_eq!(o.next(), Command::Start(u64::MAX));
    assert_eq!(o.next(), Command::Wait);
    o.on_event(Event::BlockFinished);
    assert_eq!(o.next(), Command::Exit(Exit::Clean));
}

#[test]
fn retries_pause_twice_as_long_each_time_and_then_give_up() {
    let policy = RetryPolicy { base_delay_ms: 250, max_attempts: 5 };
    assert_eq!(policy.retry_delay(0), None);
    assert_eq!(policy.retry_delay(1), Some(250));
    assert_eq!(policy.retry_delay(2), Some(500));
    assert_eq!(policy.retry_delay(3), Some(1000));
    assert_eq!(policy.retry_delay(4), Some(2000));
    assert_eq!(policy.retry_delay(5), None);
    assert_eq!(policy.retry_delay(u32::MAX), None);
    // The pause stops growing at what a u64 holds.
    let long = RetryPolicy { base_delay_ms: 1 << 62, max_attempts: 100 };
    assert_eq!(long.retry_delay(2), Some(1 << 63));
    assert_eq!(long.retry_delay(3), Some(u64::MAX));
    assert_eq!(long.retry_delay(99), Some(u64::MAX));
    let none = RetryPolicy { base_delay_ms: 0, max_attempts: 3 };
    assert_eq!(none.retry_delay(2), Some(0));
    let never = RetryPolicy { base_delay_ms: 10, max_attempts: 1 };
    assert_eq!(never.retry_delay(1), None);
}
