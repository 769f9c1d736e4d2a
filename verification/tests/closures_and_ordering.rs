//! Automatic take-profit closures, partial closes through the action
//! path, and FIFO ordering of equally timestamped events.

use sim_broker::broker::{Delivery, SimBroker};
use sim_broker::objects::{
    BrokerAction, BrokerMessage, PositionClosureReason, TradingAction,
};
use sim_broker::settings::SimBrokerSettings;
use sim_broker::Tick;

fn settings(starting_balance: u64, ping_ns: u64) -> SimBrokerSettings {
    SimBrokerSettings {
        starting_balance,
        ping_ns,
        execution_delay_ns: 0,
        fx: false,
        fx_base_currency: String::from("USD"),
        fx_lot_size: 1,
    }
}

fn run_to_end(broker: &mut SimBroker) -> Vec<Delivery> {
    let mut all = Vec::new();
    while let Some(mut out) = broker.step() {
        all.append(&mut out);
    }
    all
}

#[test]
fn take_profit_closes_short() {
    let mut broker = SimBroker::new(settings(100, 0));
    let account = broker.account_uuid();
    broker
        .register_tickstream(
            String::from("X"),
            vec![Tick { timestamp: 50, bid: 90, ask: 91 }],
            false,
            0,
        )
        .unwrap();
    broker
        .oneshot_price_set(String::from("X"), (100, 101), false, 0)
        .unwrap();
    broker.init_queue();
    broker.submit(
        BrokerAction::TradingAction {
            account_id: account,
            action: TradingAction::MarketOrder {
                symbol: String::from("X"),
                long: false,
                size: 1,
                stop: None,
                take_profit: Some(90),
                max_range: None,
            },
        },
        1,
        0,
    );
    let out = run_to_end(&mut broker);
    let mut saw_close = false;
    for d in &out {
        if let Delivery::Push {
            result: Ok(BrokerMessage::PositionClosed { position, reason, .. }),
            ..
        } = d
        {
            assert_eq!(*reason, PositionClosureReason::TakeProfit);
            // A short's take-profit triggers on the bid.
            assert_eq!(position.exit_price, Some(90));
            saw_close = true;
        }
    }
    assert!(saw_close);
}

#[test]
fn market_close_shrinks_then_closes() {
    let mut broker = SimBroker::new(settings(100, 0));
    let account = broker.account_uuid();
    broker
        .oneshot_price_set(String::from("X"), (100, 101), false, 0)
        .unwrap();
    broker.submit(
        BrokerAction::TradingAction {
            account_id: account,
            action: TradingAction::MarketOrder {
                symbol: String::from("X"),
                long: true,
                size: 2,
                stop: None,
                take_profit: None,
                max_range: None,
            },
        },
        1,
        0,
    );
    while broker.step().is_some() {}
    let ledger = broker.get_ledger_clone(account).unwrap();
    assert_eq!(ledger.balance, 98);

    // Close one of the two units: the position shrinks.
    broker.submit(
        BrokerAction::TradingAction {
            account_id: account,
            action: TradingAction::MarketClose { position_id: 0, size: 1 },
        },
        2,
        0,
    );
    let out = run_to_end(&mut broker);
    assert!(out.iter().any(|d| matches!(
        d,
        Delivery::Reply {
            result: Ok(BrokerMessage::PositionModified { .. }),
            ..
        }
    )));
    let ledger = broker.get_ledger_clone(account).unwrap();
    assert_eq!(ledger.open_positions.len(), 1);

    // Close the remaining unit: the position leaves the open collection.
    broker.submit(
        BrokerAction::TradingAction {
            account_id: account,
            action: TradingAction::MarketClose { position_id: 0, size: 1 },
        },
        3,
        0,
    );
    let out = run_to_end(&mut broker);
    assert!(out.iter().any(|d| matches!(
        d,
        Delivery::Reply {
            result: Ok(BrokerMessage::PositionClosed {
                reason: PositionClosureReason::MarketClose,
                ..
            }),
            ..
        }
    )));
    let ledger = broker.get_ledger_clone(account).unwrap();
    assert_eq!(ledger.open_positions.len(), 0);
    assert_eq!(ledger.closed_positions.len(), 1);
}

#[test]
fn modify_action_updates_levels() {
    let mut broker = SimBroker::new(settings(100, 0));
    let account = broker.account_uuid();
    broker
        .oneshot_price_set(String::from("X"), (100, 101), false, 0)
        .unwrap();
    broker.submit(
        BrokerAction::TradingAction {
            account_id: account,
            action: TradingAction::MarketOrder {
                symbol: String::from("X"),
                long: true,
                size: 1,
                stop: None,
                take_profit: None,
                max_range: None,
            },
        },
        1,
        0,
    );
    while broker.step().is_some() {}
    broker.submit(
        BrokerAction::TradingAction {
            account_id: account,
            action: TradingAction::ModifyPosition {
                position_id: 0,
                stop: Some(95),
                take_profit: Some(110),
            },
        },
        2,
        0,
    );
    let out = run_to_end(&mut broker);
    let mut saw = false;
    for d in &out {
        if let Delivery::Reply {
            result: Ok(BrokerMessage::PositionModified { position, .. }),
            ..
        } = d
        {
            assert_eq!(position.stop, Some(95));
            assert_eq!(position.take_profit, Some(110));
            saw = true;
        }
    }
    assert!(saw);
}

#[test]
fn equally_timestamped_events_keep_submission_order() {
    let mut broker = SimBroker::new(settings(100, 5));
    broker.submit(BrokerAction::Ping, 10, 0);
    broker.submit(BrokerAction::Ping, 11, 0);
    broker.submit(BrokerAction::Ping, 12, 0);
    let out = run_to_end(&mut broker);
    let slots: Vec<u64> = out
        .iter()
        .filter_map(|d| match d {
            Delivery::Reply { slot, .. } => Some(*slot),
            _ => None,
        })
        .collect();
    assert_eq!(slots, vec![10, 11, 12]);
}
