//! Commands through the matching engine.
use matching_engine::matcher::MatchingEngine;
use matching_engine::types::{
    CancelOrder, Command, CommandPayload, EngineEvent, NewOrder, OrderCondition, OrderId,
    OrderType, Price, Qty, RejectReason, ReplaceOrder, SeqNo, Side, TimeInForce, MARKET_PRICE,
};

fn new_limit_order(id: OrderId, side: Side, price: Price, qty: Qty) -> NewOrder {
    NewOrder {
        order_id: id,
        symbol: 1,
        side,
        order_type: OrderType::Limit,
        tif: TimeInForce::GTC,
        condition: OrderCondition::Unconditional,
        price,
        qty,
        stop_price: 0,
    }
}

fn new_market_order(id: OrderId, side: Side, qty: Qty) -> NewOrder {
    NewOrder {
        order_id: id,
        symbol: 1,
        side,
        order_type: OrderType::Market,
        tif: TimeInForce::GTC,
        condition: OrderCondition::Unconditional,
        price: MARKET_PRICE,
        qty,
        stop_price: 0,
    }
}

fn cmd(seq_no: SeqNo, payload: CommandPayload) -> Command {
    Command {
        seq_no,
        timestamp: seq_no * 1000,
        payload,
    }
}

fn has_event(events: &[EngineEvent], pred: impl Fn(&EngineEvent) -> bool) -> bool {
    events.iter().any(pred)
}

fn count_trades(events: &[EngineEvent]) -> usize {
    events.iter().filter(|e| matches!(e, EngineEvent::Trade(_))).count()
}

fn total_filled(events: &[EngineEvent]) -> Qty {
    events
        .iter()
        .filter_map(|e| match e {
            EngineEvent::Trade(f) => Some(f.qty),
            _ => None,
        })
        .sum()
}

// --- New order tests ---

#[test]
fn limit_buy_rests_on_empty_book() {
    let mut engine = MatchingEngine::new(1);
    let result = engine.process(&cmd(1, CommandPayload::New(new_limit_order(1, Side::Buy, 100, 10))));

    assert!(has_event(&result.events, |e| matches!(e, EngineEvent::OrderAccepted { order_id: 1, .. })));
    assert_eq!(count_trades(&result.events), 0);
    assert_eq!(engine.book.bids.level_count(), 1);
    assert!(engine.book.orders[&1].is_open);
}

#[test]
fn limit_sell_rests_on_empty_book() {
    let mut engine = MatchingEngine::new(1);
    let result = engine.process(&cmd(1, CommandPayload::New(new_limit_order(1, Side::Sell, 100, 10))));

    assert!(has_event(&result.events, |e| matches!(e, EngineEvent::OrderAccepted { order_id: 1, .. })));
    assert_eq!(engine.book.asks.level_count(), 1);
}

#[test]
fn limit_buy_matches_resting_sell() {
    let mut engine = MatchingEngine::new(1);
    engine.process(&cmd(1, CommandPayload::New(new_limit_order(1, Side::Sell, 100, 10))));
    let result = engine.process(&cmd(2, CommandPayload::New(new_limit_order(2, Side::Buy, 100, 10))));

    assert_eq!(count_trades(&result.events), 1);
    assert!(has_event(&result.events, |e| {
        matches!(e, EngineEvent::Trade(f) if f.price == 100 && f.qty == 10 && f.maker_order_id == 1 && f.taker_order_id == 2)
    }));
    assert!(engine.book.asks.is_empty());
    assert!(engine.book.bids.is_empty());
}

#[test]
fn partial_fill_leaves_maker_on_book() {
    let mut engine = MatchingEngine::new(1);
    engine.process(&cmd(1, CommandPayload::New(new_limit_order(1, Side::Sell, 100, 20))));
    let result = engine.process(&cmd(2, CommandPayload::New(new_limit_order(2, Side::Buy, 100, 10))));

    assert_eq!(total_filled(&result.events), 10);
    assert!(!engine.book.asks.is_empty());
    assert_eq!(engine.book.orders[&1].open_qty(), 10);
}

#[test]
fn price_time_priority() {
    let mut engine = MatchingEngine::new(1);
    // Two sells at different prices.
    engine.process(&cmd(1, CommandPayload::New(new_limit_order(1, Side::Sell, 101, 10))));
    engine.process(&cmd(2, CommandPayload::New(new_limit_order(2, Side::Sell, 100, 10))));

    // Buy should match the 100 ask first (better price).
    let result = engine.process(&cmd(3, CommandPayload::New(new_limit_order(3, Side::Buy, 101, 5))));

    assert!(has_event(&result.events, |e| {
        matches!(e, EngineEvent::Trade(f) if f.price == 100 && f.maker_order_id == 2)
    }));
}

#[test]
fn fifo_priority_within_price() {
    let mut engine = MatchingEngine::new(1);
    engine.process(&cmd(1, CommandPayload::New(new_limit_order(1, Side::Sell, 100, 10))));
    engine.process(&cmd(2, CommandPayload::New(new_limit_order(2, Side::Sell, 100, 10))));

    // Buy 5: should match order 1 first (FIFO).
    let result = engine.process(&cmd(3, CommandPayload::New(new_limit_order(3, Side::Buy, 100, 5))));

    assert!(has_event(&result.events, |e| {
        matches!(e, EngineEvent::Trade(f) if f.maker_order_id == 1 && f.qty == 5)
    }));
}

#[test]
fn market_buy_fills_at_best_ask() {
    let mut engine = MatchingEngine::new(1);
    engine.process(&cmd(1, CommandPayload::New(new_limit_order(1, Side::Sell, 100, 10))));
    let result = engine.process(&cmd(2, CommandPayload::New(new_market_order(2, Side::Buy, 10))));

    assert_eq!(count_trades(&result.events), 1);
    assert!(has_event(&result.events, |e| {
        matches!(e, EngineEvent::Trade(f) if f.price == 100)
    }));
}

#[test]
fn market_order_no_liquidity_rejected() {
    let mut engine = MatchingEngine::new(1);
    let result = engine.process(&cmd(1, CommandPayload::New(new_market_order(1, Side::Buy, 10))));

    assert!(has_event(&result.events, |e| {
        matches!(e, EngineEvent::OrderRejected { reason: RejectReason::NoLiquidity, .. })
    }));
}

#[test]
fn market_order_partial_fill_canceled() {
    let mut engine = MatchingEngine::new(1);
    engine.process(&cmd(1, CommandPayload::New(new_limit_order(1, Side::Sell, 100, 5))));
    let result = engine.process(&cmd(2, CommandPayload::New(new_market_order(2, Side::Buy, 10))));

    assert_eq!(total_filled(&result.events), 5);
    assert!(has_event(&result.events, |e| {
        matches!(e, EngineEvent::OrderCanceled { remaining_qty: 5, .. })
    }));
}

#[test]
fn reject_zero_qty() {
    let mut engine = MatchingEngine::new(1);
    let result = engine.process(&cmd(1, CommandPayload::New(new_limit_order(1, Side::Buy, 100, 0))));
    assert!(has_event(&result.events, |e| {
        matches!(e, EngineEvent::OrderRejected { reason: RejectReason::InvalidQuantity, .. })
    }));
}

#[test]
fn reject_duplicate_order_id() {
    let mut engine = MatchingEngine::new(1);
    engine.process(&cmd(1, CommandPayload::New(new_limit_order(1, Side::Buy, 100, 10))));
    let result = engine.process(&cmd(2, CommandPayload::New(new_limit_order(1, Side::Buy, 100, 10))));
    assert!(has_event(&result.events, |e| {
        matches!(e, EngineEvent::OrderRejected { reason: RejectReason::DuplicateOrderId, .. })
    }));
}

#[test]
fn reject_limit_with_zero_price() {
    let mut engine = MatchingEngine::new(1);
    let result = engine.process(&cmd(1, CommandPayload::New(new_limit_order(1, Side::Buy, 0, 10))));
    assert!(has_event(&result.events, |e| {
        matches!(e, EngineEvent::OrderRejected { reason: RejectReason::InvalidPrice, .. })
    }));
}

// --- Cancel tests ---

#[test]
fn cancel_resting_order() {
    let mut engine = MatchingEngine::new(1);
    engine.process(&cmd(1, CommandPayload::New(new_limit_order(1, Side::Buy, 100, 10))));
    let result = engine.process(&cmd(2, CommandPayload::Cancel(CancelOrder {
        order_id: 1,
        symbol: 1,
    })));

    assert!(has_event(&result.events, |e| {
        matches!(e, EngineEvent::OrderCanceled { order_id: 1, remaining_qty: 10, .. })
    }));
    assert!(engine.book.bids.is_empty());
    assert!(!engine.book.orders[&1].is_open);
}

#[test]
fn cancel_unknown_order() {
    let mut engine = MatchingEngine::new(1);
    let result = engine.process(&cmd(1, CommandPayload::Cancel(CancelOrder {
        order_id: 99,
        symbol: 1,
    })));
    assert!(has_event(&result.events, |e| {
        matches!(e, EngineEvent::CancelRejected { reason: RejectReason::UnknownOrder, .. })
    }));
}

#[test]
fn cancel_already_filled_order() {
    let mut engine = MatchingEngine::new(1);
    engine.process(&cmd(1, CommandPayload::New(new_limit_order(1, Side::Sell, 100, 10))));
    engine.process(&cmd(2, CommandPayload::New(new_limit_order(2, Side::Buy, 100, 10))));
    // Order 1 is fully filled, cancel should be rejected.
    let result = engine.process(&cmd(3, CommandPayload::Cancel(CancelOrder {
        order_id: 1,
        symbol: 1,
    })));
    assert!(has_event(&result.events, |e| {
        matches!(e, EngineEvent::CancelRejected { reason: RejectReason::NothingToCancel, .. })
    }));
}

// --- Replace tests ---

#[test]
fn replace_reduce_qty() {
    let mut engine = MatchingEngine::new(1);
    engine.process(&cmd(1, CommandPayload::New(new_limit_order(1, Side::Buy, 100, 20))));
    let result = engine.process(&cmd(2, CommandPayload::Replace(ReplaceOrder {
        order_id: 1,
        symbol: 1,
        new_price: 100,
        new_qty: 15,
    })));

    assert!(has_event(&result.events, |e| {
        matches!(e, EngineEvent::OrderReplaced { order_id: 1, new_qty: 15, .. })
    }));
    assert_eq!(engine.book.orders[&1].original_qty, 15);
}

#[test]
fn replace_increase_qty_rejected() {
    let mut engine = MatchingEngine::new(1);
    engine.process(&cmd(1, CommandPayload::New(new_limit_order(1, Side::Buy, 100, 10))));
    let result = engine.process(&cmd(2, CommandPayload::Replace(ReplaceOrder {
        order_id: 1,
        symbol: 1,
        new_price: 100,
        new_qty: 20,
    })));
    assert!(has_event(&result.events, |e| {
        matches!(e, EngineEvent::ReplaceRejected { reason: RejectReason::ReplaceQtyIncrease, .. })
    }));
}

#[test]
fn replace_change_price() {
    let mut engine = MatchingEngine::new(1);
    engine.process(&cmd(1, CommandPayload::New(new_limit_order(1, Side::Buy, 100, 10))));
    let result = engine.process(&cmd(2, CommandPayload::Replace(ReplaceOrder {
        order_id: 1,
        symbol: 1,
        new_price: 101,
        new_qty: 10,
    })));

    assert!(has_event(&result.events, |e| {
        matches!(e, EngineEvent::OrderReplaced { new_price: 101, .. })
    }));
    assert_eq!(engine.book.orders[&1].price, 101);

    // Old price level should be empty, new one populated.
    let bbo = engine.book.bbo();
    assert_eq!(bbo.bid_price, Some(101));
}

#[test]
fn replace_crosses_book_fills() {
    let mut engine = MatchingEngine::new(1);
    // Sell at 100.
    engine.process(&cmd(1, CommandPayload::New(new_limit_order(1, Side::Sell, 100, 10))));
    // Buy at 99 (no match).
    engine.process(&cmd(2, CommandPayload::New(new_limit_order(2, Side::Buy, 99, 10))));
    // Replace buy price to 100 -> should fill.
    let result = engine.process(&cmd(3, CommandPayload::Replace(ReplaceOrder {
        order_id: 2,
        symbol: 1,
        new_price: 100,
        new_qty: 10,
    })));

    assert!(has_event(&result.events, |e| {
        matches!(e, EngineEvent::Trade(f) if f.qty == 10)
    }));
}

// --- BBO event test ---

#[test]
fn bbo_emitted_after_every_command() {
    let mut engine = MatchingEngine::new(1);
    let result = engine.process(&cmd(1, CommandPayload::New(new_limit_order(1, Side::Buy, 100, 10))));

    assert!(has_event(&result.events, |e| {
        matches!(e, EngineEvent::BboChanged(bbo) if bbo.bid_price == Some(100) && bbo.bid_qty == 10)
    }));
}

// --- Book invariant test ---

#[test]
fn book_never_crossed_after_matching() {
    let mut engine = MatchingEngine::new(1);
    engine.process(&cmd(1, CommandPayload::New(new_limit_order(1, Side::Buy, 100, 10))));
    engine.process(&cmd(2, CommandPayload::New(new_limit_order(2, Side::Sell, 101, 10))));
    assert!(engine.book.is_uncrossed());

    // This cross should resolve via matching.
    engine.process(&cmd(3, CommandPayload::New(new_limit_order(3, Side::Buy, 101, 5))));
    assert!(engine.book.is_uncrossed());
}

// --- IOC ---

#[test]
fn ioc_fills_partial_cancels_rest() {
    let mut engine = MatchingEngine::new(1);
    engine.process(&cmd(1, CommandPayload::New(new_limit_order(1, Side::Sell, 100, 5))));

    let ioc_order = NewOrder {
        order_id: 2,
        symbol: 1,
        side: Side::Buy,
        order_type: OrderType::Limit,
        tif: TimeInForce::IOC,
        condition: OrderCondition::Unconditional,
        price: 100,
        qty: 10,
        stop_price: 0,
    };
    let result = engine.process(&cmd(2, CommandPayload::New(ioc_order)));

    assert_eq!(total_filled(&result.events), 5);
    assert!(has_event(&result.events, |e| {
        matches!(e, EngineEvent::OrderCanceled { remaining_qty: 5, .. })
    }));
    assert!(!engine.book.orders[&2].is_open);
}

#[test]
fn ioc_no_match_cancels_all() {
    let mut engine = MatchingEngine::new(1);

    let ioc_order = NewOrder {
        order_id: 1,
        symbol: 1,
        side: Side::Buy,
        order_type: OrderType::Limit,
        tif: TimeInForce::IOC,
        condition: OrderCondition::Unconditional,
        price: 100,
        qty: 10,
        stop_price: 0,
    };
    let result = engine.process(&cmd(1, CommandPayload::New(ioc_order)));

    assert_eq!(count_trades(&result.events), 0);
    assert!(has_event(&result.events, |e| {
        matches!(e, EngineEvent::OrderCanceled { remaining_qty: 10, .. })
    }));
}

// --- FOK ---

#[test]
fn fok_fills_entirely_or_rejects() {
    let mut engine = MatchingEngine::new(1);
    engine.process(&cmd(1, CommandPayload::New(new_limit_order(1, Side::Sell, 100, 10))));

    // FOK for 10: should fill.
    let fok_order = NewOrder {
        order_id: 2,
        symbol: 1,
        side: Side::Buy,
        order_type: OrderType::Limit,
        tif: TimeInForce::FOK,
        condition: OrderCondition::Unconditional,
        price: 100,
        qty: 10,
        stop_price: 0,
    };
    let result = engine.process(&cmd(2, CommandPayload::New(fok_order)));
    assert_eq!(total_filled(&result.events), 10);
}

#[test]
fn fok_insufficient_liquidity_rejected() {
    let mut engine = MatchingEngine::new(1);
    engine.process(&cmd(1, CommandPayload::New(new_limit_order(1, Side::Sell, 100, 5))));

    let fok_order = NewOrder {
        order_id: 2,
        symbol: 1,
        side: Side::Buy,
        order_type: OrderType::Limit,
        tif: TimeInForce::FOK,
        condition: OrderCondition::Unconditional,
        price: 100,
        qty: 10,
        stop_price: 0,
    };
    let result = engine.process(&cmd(2, CommandPayload::New(fok_order)));
    assert!(has_event(&result.events, |e| {
        matches!(e, EngineEvent::OrderRejected { reason: RejectReason::FOKNotFillable, .. })
    }));
    // Resting order should be untouched.
    assert_eq!(engine.book.orders[&1].open_qty(), 5);
}

// --- Multi-level sweep ---

#[test]
fn aggressive_buy_sweeps_multiple_price_levels() {
    let mut engine = MatchingEngine::new(1);
    engine.process(&cmd(1, CommandPayload::New(new_limit_order(1, Side::Sell, 100, 10))));
    engine.process(&cmd(2, CommandPayload::New(new_limit_order(2, Side::Sell, 101, 10))));
    engine.process(&cmd(3, CommandPayload::New(new_limit_order(3, Side::Sell, 102, 10))));

    let result = engine.process(&cmd(4, CommandPayload::New(new_limit_order(4, Side::Buy, 102, 25))));

    // Should fill 10@100 + 10@101 + 5@102 = 25
    assert_eq!(total_filled(&result.events), 25);
    assert_eq!(count_trades(&result.events), 3);
    // Remaining 5 at 102 should still be on the book.
    assert_eq!(engine.book.orders[&3].open_qty(), 5);
}

// --- Accounting invariant ---

#[test]
fn filled_plus_open_plus_canceled_equals_original() {
    let mut engine = MatchingEngine::new(1);
    engine.process(&cmd(1, CommandPayload::New(new_limit_order(1, Side::Sell, 100, 20))));
    engine.process(&cmd(2, CommandPayload::New(new_limit_order(2, Side::Buy, 100, 12))));
    engine.process(&cmd(3, CommandPayload::Cancel(CancelOrder {
        order_id: 1,
        symbol: 1,
    })));

    let order = &engine.book.orders[&1];
    // filled=12, canceled remainder=8, total=20
    assert_eq!(order.filled_qty, 12);
    assert_eq!(order.original_qty, 20);
    assert!(!order.is_open);
}
