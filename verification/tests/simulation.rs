//! End-to-end runs of the simulation loop: submit, step, observe.

use sim_broker::broker::{Delivery, SimBroker};
use sim_broker::objects::{
    BrokerAction, BrokerError, BrokerMessage, PositionClosureReason, TradingAction,
};
use sim_broker::settings::SimBrokerSettings;
use sim_broker::Tick;

fn settings(
    starting_balance: u64,
    ping_ns: u64,
    execution_delay_ns: u64,
    fx: bool,
) -> SimBrokerSettings {
    SimBrokerSettings {
        starting_balance,
        ping_ns,
        execution_delay_ns,
        fx,
        fx_base_currency: String::from("USD"),
        fx_lot_size: 1,
    }
}

/// Drains the whole timeline, collecting every delivery.
fn run_to_end(broker: &mut SimBroker) -> Vec<Delivery> {
    let mut all = Vec::new();
    while let Some(mut out) = broker.step() {
        all.append(&mut out);
    }
    all
}

#[test]
fn ping_round_trip() {
    let mut broker = SimBroker::new(settings(1_000_000, 1000, 0, false));
    broker.submit(BrokerAction::Ping, 7, 0);
    let out = run_to_end(&mut broker);
    assert_eq!(
        out,
        vec![
            Delivery::Reply {
                time: 2000,
                slot: 7,
                result: Ok(BrokerMessage::Pong { time_received: 1000 }),
            },
            Delivery::Push { time: 2000, result: Ok(BrokerMessage::Pong { time_received: 1000 }) },
        ]
    );
    assert!(broker.step().is_none());
}

#[test]
fn market_open_immediate_fill() {
    let mut broker = SimBroker::new(settings(100, 0, 10, false));
    let account = broker.account_uuid();
    broker
        .oneshot_price_set(String::from("X"), (100, 101), false, 0)
        .unwrap();
    let order = BrokerAction::TradingAction {
        account_id: account,
        action: TradingAction::MarketOrder {
            symbol: String::from("X"),
            long: true,
            size: 1,
            stop: None,
            take_profit: None,
            max_range: None,
        },
    };
    broker.submit(order, 1, 0);
    let out = run_to_end(&mut broker);
    assert_eq!(out.len(), 2);
    match &out[0] {
        Delivery::Reply { time, slot, result } => {
            assert_eq!(*time, 10);
            assert_eq!(*slot, 1);
            match result {
                Ok(BrokerMessage::PositionOpened { position_id, position, timestamp }) => {
                    assert_eq!(*position_id, 0);
                    assert_eq!(position.execution_price, Some(101));
                    assert_eq!(position.execution_time, Some(10));
                    assert_eq!(*timestamp, 10);
                },
                other => panic!("unexpected result: {:?}", other),
            }
        },
        other => panic!("unexpected delivery: {:?}", other),
    }
    // The non-FX position value is its size; the balance dropped by 1.
    let ledger = broker.get_ledger_clone(account).unwrap();
    assert_eq!(ledger.balance, 99);
}

#[test]
fn pending_order_trips_on_tick() {
    let mut broker = SimBroker::new(settings(1_000, 1000, 0, false));
    let account = broker.account_uuid();
    broker
        .register_tickstream(
            String::from("X"),
            vec![Tick { timestamp: 5000, bid: 99, ask: 100 }],
            false,
            0,
        )
        .unwrap();
    let placed = broker
        .place_pending_order(account, &String::from("X"), true, 1, 100, None, None)
        .unwrap();
    assert_eq!(placed, BrokerMessage::Success);
    broker.init_queue();
    let out = run_to_end(&mut broker);
    let mut saw_fill = false;
    for d in &out {
        if let Delivery::Push { time, result } = d {
            assert_eq!(*time, 6000);
            match result {
                Ok(BrokerMessage::PositionOpened { position, timestamp, .. }) => {
                    assert_eq!(position.execution_price, Some(100));
                    assert_eq!(position.execution_time, Some(5000));
                    assert_eq!(*timestamp, 5000);
                    saw_fill = true;
                },
                other => panic!("unexpected push: {:?}", other),
            }
        }
    }
    assert!(saw_fill);
    let ledger = broker.get_ledger_clone(account).unwrap();
    assert_eq!(ledger.pending_positions.len(), 0);
    assert_eq!(ledger.open_positions.len(), 1);
}

#[test]
fn stop_loss_closes_long() {
    let mut broker = SimBroker::new(settings(100, 0, 0, false));
    let account = broker.account_uuid();
    broker
        .register_tickstream(
            String::from("X"),
            vec![Tick { timestamp: 50, bid: 95, ask: 96 }],
            false,
            0,
        )
        .unwrap();
    broker
        .oneshot_price_set(String::from("X"), (100, 101), false, 0)
        .unwrap();
    broker.init_queue();
    let order = BrokerAction::TradingAction {
        account_id: account,
        action: TradingAction::MarketOrder {
            symbol: String::from("X"),
            long: true,
            size: 1,
            stop: Some(95),
            take_profit: None,
            max_range: None,
        },
    };
    broker.submit(order, 2, 0);
    let out = run_to_end(&mut broker);
    let mut saw_close = false;
    for d in &out {
        if let Delivery::Push {
            time,
            result: Ok(BrokerMessage::PositionClosed { position, reason, timestamp, .. }),
        } = d
        {
            assert_eq!(*time, 50);
            assert_eq!(*reason, PositionClosureReason::StopLoss);
            assert_eq!(position.exit_price, Some(95));
            assert_eq!(position.exit_time, Some(50));
            assert_eq!(*timestamp, 50);
            saw_close = true;
        }
    }
    assert!(saw_close);
    let ledger = broker.get_ledger_clone(account).unwrap();
    assert_eq!(ledger.open_positions.len(), 0);
    assert_eq!(ledger.closed_positions.len(), 1);
    // Margin was credited back at its (non-FX) value.
    assert_eq!(ledger.balance, 100);
}

#[test]
fn insufficient_funds_rejected_without_effect() {
    let mut broker = SimBroker::new(settings(10, 0, 0, false));
    let account = broker.account_uuid();
    broker
        .oneshot_price_set(String::from("X"), (100, 101), false, 0)
        .unwrap();
    let order = BrokerAction::TradingAction {
        account_id: account,
        action: TradingAction::MarketOrder {
            symbol: String::from("X"),
            long: true,
            size: 20,
            stop: None,
            take_profit: None,
            max_range: None,
        },
    };
    broker.submit(order, 3, 0);
    let out = run_to_end(&mut broker);
    assert!(out.iter().any(|d| matches!(
        d,
        Delivery::Reply { result: Err(BrokerError::InsufficientBuyingPower), .. }
    )));
    let ledger = broker.get_ledger_clone(account).unwrap();
    assert_eq!(ledger.balance, 10);
    assert_eq!(ledger.pending_positions.len(), 0);
    assert_eq!(ledger.open_positions.len(), 0);
    assert_eq!(ledger.closed_positions.len(), 0);
}

#[test]
fn client_tick_delivery_order_is_monotone() {
    let mut broker = SimBroker::new(settings(1_000, 10, 0, false));
    broker
        .register_tickstream(
            String::from("A"),
            vec![
                Tick { timestamp: 100, bid: 5, ask: 6 },
                Tick { timestamp: 200, bid: 7, ask: 8 },
            ],
            false,
            0,
        )
        .unwrap();
    broker
        .register_tickstream(
            String::from("B"),
            vec![Tick { timestamp: 150, bid: 9, ask: 10 }],
            false,
            0,
        )
        .unwrap();
    broker.init_queue();
    let out = run_to_end(&mut broker);
    let times: Vec<u64> = out
        .iter()
        .map(|d| match d {
            Delivery::Tick { time, .. } => *time,
            Delivery::Reply { time, .. } => *time,
            Delivery::Push { time, .. } => *time,
        })
        .collect();
    assert_eq!(times, vec![110, 160, 210]);
    for w in times.windows(2) {
        assert!(w[0] <= w[1]);
    }
    let ticks: Vec<(usize, u64)> = out
        .iter()
        .filter_map(|d| match d {
            Delivery::Tick { symbol_id, tick, .. } => Some((*symbol_id, tick.timestamp)),
            _ => None,
        })
        .collect();
    assert_eq!(ticks, vec![(0, 100), (1, 150), (0, 200)]);
}

#[test]
fn unimplemented_actions_answered_as_such() {
    let mut broker = SimBroker::new(settings(100, 0, 0, false));
    let account = broker.account_uuid();
    broker.submit(
        BrokerAction::TradingAction {
            account_id: account,
            action: TradingAction::LimitOrder {
                symbol: String::from("X"),
                long: true,
                size: 1,
                stop: None,
                take_profit: None,
                entry_price: 50,
            },
        },
        4,
        0,
    );
    let out = run_to_end(&mut broker);
    assert!(out.iter().any(|d| matches!(
        d,
        Delivery::Reply { result: Err(BrokerError::Unimplemented { .. }), .. }
    )));
}

#[test]
fn unknown_account_and_symbol_are_reported() {
    let mut broker = SimBroker::new(settings(100, 0, 0, false));
    let account = broker.account_uuid();
    broker.submit(
        BrokerAction::TradingAction {
            account_id: account.wrapping_add(1),
            action: TradingAction::MarketClose { position_id: 0, size: 1 },
        },
        5,
        0,
    );
    let out = run_to_end(&mut broker);
    assert!(out.iter().any(|d| matches!(
        d,
        Delivery::Reply { result: Err(BrokerError::NoSuchAccount), .. }
    )));

    let mut broker2 = SimBroker::new(settings(100, 0, 0, false));
    let account2 = broker2.account_uuid();
    broker2.submit(
        BrokerAction::TradingAction {
            account_id: account2,
            action: TradingAction::MarketOrder {
                symbol: String::from("MISSING"),
                long: false,
                size: 1,
                stop: None,
                take_profit: None,
                max_range: None,
            },
        },
        6,
        0,
    );
    let out2 = run_to_end(&mut broker2);
    assert!(out2.iter().any(|d| matches!(
        d,
        Delivery::Reply { result: Err(BrokerError::NoSuchSymbol), .. }
    )));
}
