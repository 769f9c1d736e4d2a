//! Unit tests of the ledger accounting rules, position triggers, FX
//! conversion and decimal re-expression.

use sim_broker::broker::SimBroker;
use sim_broker::convert_decimals;
use sim_broker::ledger::Ledger;
use sim_broker::objects::{BrokerError, BrokerMessage, Position, PositionClosureReason};
use sim_broker::pow10_checked;
use sim_broker::settings::SimBrokerSettings;

fn pending_position(symbol_id: usize, size: u64, intended: u64, long: bool) -> Position {
    Position {
        creation_time: 0,
        symbol_id,
        size,
        intended_price: Some(intended),
        long,
        stop: None,
        take_profit: None,
        execution_time: None,
        execution_price: None,
        exit_price: None,
        exit_time: None,
    }
}

fn open_position(symbol_id: usize, size: u64, entry: u64, long: bool) -> Position {
    Position {
        creation_time: 0,
        symbol_id,
        size,
        intended_price: Some(entry),
        long,
        stop: None,
        take_profit: None,
        execution_time: Some(5),
        execution_price: Some(entry),
        exit_price: None,
        exit_time: None,
    }
}

#[test]
fn decimal_conversion_scales_and_truncates() {
    assert_eq!(convert_decimals(11000, 4, 10), Some(11_000_000_000));
    assert_eq!(convert_decimals(12345, 4, 2), Some(123));
    assert_eq!(convert_decimals(7, 3, 3), Some(7));
    assert_eq!(convert_decimals(0, 0, 30), Some(0));
    assert_eq!(convert_decimals(2, 0, 19), None);
    assert_eq!(pow10_checked(19), Some(10_000_000_000_000_000_000));
    assert_eq!(pow10_checked(20), None);
}

#[test]
fn place_order_debits_margin_or_rejects() {
    let mut ledger = Ledger::new(50);
    let pos = pending_position(0, 5, 100, true);
    assert_eq!(ledger.place_order(1, pos, 60), Err(BrokerError::InsufficientBuyingPower));
    assert_eq!(ledger.balance, 50);
    assert_eq!(ledger.place_order(1, pos, 20), Ok(BrokerMessage::Success));
    assert_eq!(ledger.balance, 30);
    assert_eq!(ledger.pending_positions.len(), 1);
}

#[test]
fn open_position_requires_execution_and_funds() {
    let mut ledger = Ledger::new(50);
    let unexecuted = pending_position(0, 5, 100, true);
    assert!(matches!(
        ledger.open_position(1, unexecuted, 10),
        Err(BrokerError::Message { .. })
    ));
    let pos = open_position(0, 5, 100, true);
    match ledger.open_position(1, pos, 10) {
        Ok(BrokerMessage::PositionOpened { position_id, timestamp, .. }) => {
            assert_eq!(position_id, 1);
            assert_eq!(timestamp, 5);
        },
        other => panic!("unexpected: {:?}", other),
    }
    assert_eq!(ledger.balance, 40);
}

#[test]
fn close_position_credits_value_and_moves_the_record() {
    let mut ledger = Ledger::new(50);
    ledger.open_position(1, open_position(0, 5, 100, true), 10).unwrap();
    assert_eq!(
        ledger.close_position(2, 7, 30, PositionClosureReason::MarketClose),
        Err(BrokerError::NoSuchPosition)
    );
    match ledger.close_position(1, 7, 30, PositionClosureReason::MarketClose) {
        Ok(BrokerMessage::PositionClosed { position, reason, timestamp, .. }) => {
            assert_eq!(reason, PositionClosureReason::MarketClose);
            assert_eq!(timestamp, 30);
            assert_eq!(position.exit_time, Some(30));
        },
        other => panic!("unexpected: {:?}", other),
    }
    assert_eq!(ledger.balance, 47);
    assert_eq!(ledger.open_positions.len(), 0);
    assert_eq!(ledger.closed_positions.len(), 1);
}

#[test]
fn resize_position_grows_shrinks_and_closes() {
    let mut ledger = Ledger::new(100);
    ledger.open_position(1, open_position(0, 5, 100, true), 10).unwrap();
    // A shrink past zero is invalid.
    assert_eq!(
        ledger.resize_position(1, -6, 0, 40),
        Err(BrokerError::InvalidModificationAmount)
    );
    // A growth debits the modification cost.
    match ledger.resize_position(1, 3, 12, 40) {
        Ok(BrokerMessage::PositionModified { position, .. }) => assert_eq!(position.size, 8),
        other => panic!("unexpected: {:?}", other),
    }
    assert_eq!(ledger.balance, 90 - 12);
    // A resize to exactly zero closes at the modification cost.
    match ledger.resize_position(1, -8, 4, 41) {
        Ok(BrokerMessage::PositionClosed { reason, .. }) => {
            assert_eq!(reason, PositionClosureReason::MarketClose)
        },
        other => panic!("unexpected: {:?}", other),
    }
    assert_eq!(ledger.balance, 90 - 12 + 4);
    assert_eq!(ledger.open_positions.len(), 0);
}

#[test]
fn modify_position_replaces_levels() {
    let mut ledger = Ledger::new(100);
    ledger.open_position(1, open_position(0, 5, 100, true), 10).unwrap();
    match ledger.modify_position(1, Some(90), Some(110), 50) {
        Ok(BrokerMessage::PositionModified { position, .. }) => {
            assert_eq!(position.stop, Some(90));
            assert_eq!(position.take_profit, Some(110));
        },
        other => panic!("unexpected: {:?}", other),
    }
    assert_eq!(
        ledger.modify_position(9, None, None, 50),
        Err(BrokerError::NoSuchPosition)
    );
}

#[test]
fn open_and_close_triggers_follow_the_quote() {
    let pending_long = pending_position(0, 1, 100, true);
    assert_eq!(pending_long.is_open_satisfied(99, 100), Some(100));
    assert_eq!(pending_long.is_open_satisfied(100, 101), None);
    let pending_short = pending_position(0, 1, 100, false);
    assert_eq!(pending_short.is_open_satisfied(100, 101), Some(100));
    assert_eq!(pending_short.is_open_satisfied(99, 100), None);

    let mut long = open_position(0, 1, 100, true);
    long.stop = Some(95);
    long.take_profit = Some(110);
    assert_eq!(
        long.is_close_satisfied(95, 96),
        Some((95, PositionClosureReason::StopLoss))
    );
    assert_eq!(
        long.is_close_satisfied(109, 110),
        Some((110, PositionClosureReason::TakeProfit))
    );
    assert_eq!(long.is_close_satisfied(100, 101), None);
    // When one quote triggers both levels, the stop wins.
    assert_eq!(
        long.is_close_satisfied(95, 110),
        Some((95, PositionClosureReason::StopLoss))
    );

    let mut short = open_position(0, 1, 100, false);
    short.stop = Some(105);
    short.take_profit = Some(90);
    assert_eq!(
        short.is_close_satisfied(104, 105),
        Some((105, PositionClosureReason::StopLoss))
    );
    assert_eq!(
        short.is_close_satisfied(90, 91),
        Some((90, PositionClosureReason::TakeProfit))
    );
    assert_eq!(short.is_close_satisfied(95, 96), None);
}

fn fx_settings() -> SimBrokerSettings {
    SimBrokerSettings {
        starting_balance: 1_000_000,
        ping_ns: 0,
        execution_delay_ns: 0,
        fx: true,
        fx_base_currency: String::from("USD"),
        fx_lot_size: 1,
    }
}

#[test]
fn fx_base_rate_uses_direct_then_reversed_pair() {
    let mut broker = SimBroker::new(fx_settings());
    broker
        .oneshot_price_set(String::from("EURUSD"), (10999, 11000), true, 4)
        .unwrap();
    broker
        .oneshot_price_set(String::from("GBPUSD"), (12000, 12001), true, 4)
        .unwrap();
    broker
        .oneshot_price_set(String::from("USDJPY"), (14999, 15000), true, 2)
        .unwrap();
    // Direct pair: the ask normalized to 10 decimal places.
    assert_eq!(broker.get_base_rate(&String::from("EUR")), Ok(11_000_000_000));
    // Only the reversed pair exists: its ask is consulted before erroring.
    assert_eq!(broker.get_base_rate(&String::from("JPY")), Ok(1_500_000_000_000));
    // Neither direction exists.
    assert_eq!(
        broker.get_base_rate(&String::from("CHF")),
        Err(BrokerError::NoDataAvailable)
    );
}

#[test]
fn fx_rate_requests_are_rejected_outside_fx_mode() {
    let mut settings = fx_settings();
    settings.fx = false;
    let broker = SimBroker::new(settings);
    assert!(matches!(
        broker.get_base_rate(&String::from("EUR")),
        Err(BrokerError::Message { .. })
    ));
}

#[test]
fn fx_position_value_converts_through_the_base_rate() {
    let mut broker = SimBroker::new(fx_settings());
    broker
        .oneshot_price_set(String::from("EURUSD"), (10999, 11000), true, 4)
        .unwrap();
    // size * rate * lot size, with the rate at 10 decimal places.
    let pos = open_position(0, 3, 11000, true);
    assert_eq!(broker.get_position_value(&pos), Ok(3 * 11_000_000_000));
    // An FX symbol registration refuses a malformed pair name.
    assert!(matches!(
        broker.oneshot_price_set(String::from("EUR"), (1, 2), true, 4),
        Err(BrokerError::Message { .. })
    ));
}

#[test]
fn register_tickstream_rejects_duplicates() {
    let mut broker = SimBroker::new(fx_settings());
    broker
        .register_tickstream(String::from("EURUSD"), Vec::new(), true, 4)
        .unwrap();
    assert!(matches!(
        broker.register_tickstream(String::from("EURUSD"), Vec::new(), true, 4),
        Err(BrokerError::Message { .. })
    ));
}
