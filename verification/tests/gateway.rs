//! The gateway: sequence numbers, backpressure, snapshots.
use matching_engine::gateway::{Gateway, GatewayConfig, GatewayError};
use matching_engine::replay::ReplayError;
use matching_engine::types::{
    CancelOrder, Command, CommandPayload, EngineEvent, NewOrder, OrderCondition, OrderType,
    ReplaceOrder, Side, TimeInForce,
};

fn test_config(name: &str) -> GatewayConfig {
    GatewayConfig {
        symbol: 1,
        wal_path: format!("{name}.wal.jsonl"),
        snapshot_path: format!("{name}.snap.json"),
        max_queue_depth: 1000,
        snapshot_interval: 100,
    }
}

fn limit(order_id: u64, side: Side, price: u64, qty: u64) -> NewOrder {
    NewOrder {
        order_id,
        symbol: 1,
        side,
        order_type: OrderType::Limit,
        tif: TimeInForce::GTC,
        condition: OrderCondition::Unconditional,
        price,
        qty,
        stop_price: 0,
    }
}

fn submit(gw: &mut Gateway, wal: &mut Vec<Command>, order: NewOrder) -> Vec<EngineEvent> {
    let cmd = gw.submit_new(order, 5).unwrap();
    assert!(gw.has_room_for(&cmd));
    wal.push(cmd);
    gw.process_command(cmd, Ok(())).unwrap()
}

#[test]
fn gateway_basic_flow() {
    let config = test_config("basic");
    let mut gw = Gateway::new(config.clone());
    let events = submit(
        &mut gw,
        &mut vec![],
        NewOrder {
            order_id: 1,
            symbol: 1,
            side: Side::Buy,
            order_type: OrderType::Limit,
            tif: TimeInForce::GTC,
            condition: OrderCondition::Unconditional,
            price: 100,
            qty: 10,
            stop_price: 0,
        },
    );

    assert!(!events.is_empty());
    assert_eq!(gw.next_seq_no(), 2);
    assert_eq!(gw.config().wal_path, config.wal_path);
}

#[test]
fn gateway_recovery() {
    let config = test_config("recovery");

    // First session: submit some orders.
    let mut wal = Vec::new();
    {
        let mut gw = Gateway::new(config.clone());
        submit(&mut gw, &mut wal, limit(1, Side::Sell, 100, 10));
        submit(&mut gw, &mut wal, limit(2, Side::Buy, 99, 5));
    }

    // Recover.
    let entries = wal.into_iter().map(Ok).collect();
    let (gw, _events) = Gateway::recover(config.clone(), None, Some(entries)).unwrap();
    assert_eq!(gw.engine().book.orders.len(), 2);
    assert_eq!(gw.next_seq_no(), 3);
}

#[test]
fn submissions_are_stamped() {
    let mut gw = Gateway::new(test_config("stamps"));
    submit(&mut gw, &mut vec![], limit(1, Side::Sell, 100, 10));
    let cancel = CancelOrder { order_id: 1, symbol: 1 };
    let replace = ReplaceOrder { order_id: 1, symbol: 1, new_price: 101, new_qty: 9 };
    assert_eq!(
        gw.submit_cancel(cancel, 8),
        Ok(Command { seq_no: 2, timestamp: 8, payload: CommandPayload::Cancel(cancel) })
    );
    assert_eq!(
        gw.submit_replace(replace, 9),
        Ok(Command { seq_no: 2, timestamp: 9, payload: CommandPayload::Replace(replace) })
    );
}

#[test]
fn a_full_queue_refuses_submissions() {
    let config = GatewayConfig { max_queue_depth: 0, ..test_config("full") };
    let gw = Gateway::new(config);
    assert_eq!(
        gw.submit_new(limit(1, Side::Buy, 100, 1), 0),
        Err(GatewayError::QueueFull { limit: 0 })
    );
}

#[test]
fn a_full_queue_is_reported_before_a_wrong_symbol() {
    let config = GatewayConfig { max_queue_depth: 0, ..test_config("full_and_wrong") };
    let gw = Gateway::new(config);
    let order = NewOrder { symbol: 2, ..limit(1, Side::Buy, 100, 1) };
    assert_eq!(gw.submit_new(order, 0), Err(GatewayError::QueueFull { limit: 0 }));
}

#[test]
fn a_new_order_for_another_symbol_is_refused() {
    let gw = Gateway::new(test_config("new_mismatch"));
    let order = NewOrder { symbol: 2, ..limit(1, Side::Buy, 100, 1) };
    assert_eq!(
        gw.submit_new(order, 0),
        Err(GatewayError::SymbolMismatch { expected: 1, got: 2 })
    );
    assert_eq!(gw.next_seq_no(), 1);
    assert!(gw.engine().book.orders.is_empty());
}

#[test]
fn a_cancel_for_another_symbol_is_refused() {
    let mut gw = Gateway::new(test_config("cancel_mismatch"));
    submit(&mut gw, &mut vec![], limit(1, Side::Buy, 100, 1));
    let cancel = CancelOrder { order_id: 1, symbol: 2 };
    assert_eq!(
        gw.submit_cancel(cancel, 0),
        Err(GatewayError::SymbolMismatch { expected: 1, got: 2 })
    );
    assert_eq!(gw.next_seq_no(), 2);
    assert!(gw.engine().book.orders[&1].is_open);
}

#[test]
fn a_replace_for_another_symbol_is_refused() {
    let mut gw = Gateway::new(test_config("replace_mismatch"));
    submit(&mut gw, &mut vec![], limit(1, Side::Buy, 100, 5));
    let replace = ReplaceOrder { order_id: 1, symbol: 3, new_price: 99, new_qty: 4 };
    assert_eq!(
        gw.submit_replace(replace, 0),
        Err(GatewayError::SymbolMismatch { expected: 1, got: 3 })
    );
    assert_eq!(gw.next_seq_no(), 2);
    assert_eq!(gw.engine().book.orders[&1].open_qty(), 5);
}

#[test]
fn a_command_that_was_not_logged_is_not_processed() {
    let mut gw = Gateway::new(test_config("unlogged"));
    let cmd = gw.submit_new(limit(1, Side::Buy, 100, 1), 0).unwrap();
    let error = ReplayError::Io("disk full".to_string());
    assert_eq!(
        gw.process_command(cmd, Err(error.clone())),
        Err(GatewayError::Wal(error))
    );
    assert_eq!(gw.next_seq_no(), 1);
    assert!(gw.engine().book.orders.is_empty());
}

#[test]
fn a_snapshot_is_due_every_interval() {
    let config = GatewayConfig { snapshot_interval: 2, ..test_config("interval") };
    let mut gw = Gateway::new(config);
    submit(&mut gw, &mut vec![], limit(1, Side::Buy, 100, 1));
    assert!(!gw.snapshot_due());
    submit(&mut gw, &mut vec![], limit(2, Side::Buy, 100, 1));
    assert!(gw.snapshot_due());
    let error = ReplayError::Io("disk full".to_string());
    assert_eq!(gw.snapshot_written(Err(error.clone())), Err(GatewayError::Wal(error)));
    assert!(gw.snapshot_due());
    assert_eq!(gw.snapshot_written(Ok(())), Ok(()));
    assert!(!gw.snapshot_due());
}

#[test]
fn recovery_passes_on_what_could_not_be_read() {
    let error = ReplayError::Json("no command".to_string());
    let entries = vec![Err(error.clone())];
    let result = Gateway::recover(test_config("unreadable"), None, Some(entries));
    assert_eq!(result.err(), Some(GatewayError::Wal(error)));
}

#[test]
fn a_gateway_recovers_from_a_snapshot_and_the_whole_log() {
    let config = test_config("whole");
    let mut gw = Gateway::new(config.clone());
    let mut wal = Vec::new();
    submit(&mut gw, &mut wal, limit(1, Side::Sell, 100, 10));
    submit(&mut gw, &mut wal, limit(2, Side::Buy, 100, 4));
    let snapshot = gw.engine().book.clone();
    let last = submit(&mut gw, &mut wal, limit(3, Side::Buy, 100, 4));
    let entries = wal.into_iter().map(Ok).collect();
    let (back, events) = Gateway::recover(config, Some(snapshot), Some(entries)).unwrap();
    assert_eq!(events, last);
    assert_eq!(back.next_seq_no(), gw.next_seq_no());
    assert_eq!(back.engine().book.orders, gw.engine().book.orders);
}

#[test]
fn error_messages() {
    let full = GatewayError::QueueFull { limit: 3 };
    assert_eq!(full.message(), "Queue full: backpressure limit of 3 reached");
    let wal = GatewayError::Wal(ReplayError::Io("gone".to_string()));
    assert_eq!(wal.message(), "WAL error: IO error: gone");
    let mismatch = GatewayError::SymbolMismatch { expected: 1, got: 2 };
    assert_eq!(mismatch.message(), "Symbol mismatch: expected 1, got 2");
    assert_eq!(
        ReplayError::Json("bad".to_string()).message(),
        "JSON serialization error: bad"
    );
    assert_eq!(ReplayError::Bincode("odd".to_string()).message(), "Bincode error: odd");
    assert_eq!(
        ReplayError::SequenceGap { expected: 4, got: 9 }.message(),
        "Sequence gap: expected > 4, got 9"
    );
}
