//! Matching rules beyond the basic flow: stop orders, all-or-none, amendments, rejections.
use matching_engine::matcher::MatchingEngine;
use matching_engine::types::{
    CancelOrder, Command, CommandPayload, EngineEvent, Fill, NewOrder, OrderCondition, OrderType,
    RejectReason, ReplaceOrder, Side, TimeInForce, MARKET_PRICE,
};

struct Desk {
    engine: MatchingEngine,
    seq_no: u64,
}

impl Desk {
    fn open() -> Desk {
        Desk { engine: MatchingEngine::new(1), seq_no: 0 }
    }

    fn send(&mut self, payload: CommandPayload) -> Vec<EngineEvent> {
        self.seq_no += 1;
        let cmd = Command { seq_no: self.seq_no, timestamp: 0, payload };
        assert!(self.engine.has_room_for(&cmd));
        let events = self.engine.process(&cmd).events;
        assert!(self.engine.book.is_consistent());
        assert_eq!(events.last(), Some(&EngineEvent::BboChanged(self.engine.book.bbo())));
        assert_eq!(self.engine.book.last_seq_no, self.seq_no);
        events
    }

    fn new_order(&mut self, order: NewOrder) -> Vec<EngineEvent> {
        self.send(CommandPayload::New(order))
    }

    fn cancel(&mut self, order_id: u64) -> Vec<EngineEvent> {
        self.send(CommandPayload::Cancel(CancelOrder { order_id, symbol: 1 }))
    }

    fn replace(&mut self, order_id: u64, new_price: u64, new_qty: u64) -> Vec<EngineEvent> {
        self.send(CommandPayload::Replace(ReplaceOrder { order_id, symbol: 1, new_price, new_qty }))
    }

    fn queue(&self, side: Side, price: u64) -> Vec<u64> {
        let book_side = match side {
            Side::Buy => &self.engine.book.bids,
            Side::Sell => &self.engine.book.asks,
        };
        match book_side.levels.get(&book_side.key(price)) {
            Some(level) => level.orders.iter().copied().collect(),
            None => vec![],
        }
    }
}

fn limit(order_id: u64, side: Side, price: u64, qty: u64) -> NewOrder {
    NewOrder {
        order_id,
        symbol: 1,
        side,
        order_type: OrderType::Limit,
        tif: TimeInForce::GTC,
        condition: OrderCondition::Unconditional,
        price,
        qty,
        stop_price: 0,
    }
}

fn all_or_none(order_id: u64, side: Side, price: u64, qty: u64) -> NewOrder {
    NewOrder { condition: OrderCondition::AON, ..limit(order_id, side, price, qty) }
}

fn market(order_id: u64, side: Side, qty: u64) -> NewOrder {
    NewOrder { order_type: OrderType::Market, ..limit(order_id, side, MARKET_PRICE, qty) }
}

fn stop(order_id: u64, side: Side, stop_price: u64, price: u64, qty: u64) -> NewOrder {
    NewOrder { condition: OrderCondition::Stop, stop_price, ..limit(order_id, side, price, qty) }
}

fn fills(events: &[EngineEvent]) -> Vec<(u64, u64, u64, u64)> {
    events
        .iter()
        .filter_map(|event| match event {
            EngineEvent::Trade(fill) => {
                Some((fill.maker_order_id, fill.taker_order_id, fill.price, fill.qty))
            }
            _ => None,
        })
        .collect()
}

fn rejection(events: &[EngineEvent]) -> Option<RejectReason> {
    events.iter().find_map(|event| match event {
        EngineEvent::OrderRejected { reason, .. }
        | EngineEvent::CancelRejected { reason, .. }
        | EngineEvent::ReplaceRejected { reason, .. } => Some(*reason),
        _ => None,
    })
}

#[test]
fn trades_follow_price_then_time() {
    let mut desk = Desk::open();
    desk.new_order(limit(1, Side::Sell, 101, 5));
    desk.new_order(limit(2, Side::Sell, 100, 5));
    desk.new_order(limit(3, Side::Sell, 100, 5));
    let events = desk.new_order(limit(4, Side::Buy, 101, 12));
    assert_eq!(fills(&events), vec![(2, 4, 100, 5), (3, 4, 100, 5), (1, 4, 101, 2)]);
    assert_eq!(desk.queue(Side::Sell, 101), vec![1]);
}

#[test]
fn a_partly_filled_maker_keeps_its_place() {
    let mut desk = Desk::open();
    desk.new_order(limit(1, Side::Sell, 100, 10));
    desk.new_order(limit(2, Side::Sell, 100, 10));
    let events = desk.new_order(limit(3, Side::Buy, 100, 4));
    assert_eq!(
        events[1],
        EngineEvent::Trade(Fill {
            maker_order_id: 1,
            taker_order_id: 3,
            price: 100,
            qty: 4,
            maker_filled_completely: false,
            taker_filled_completely: true,
        })
    );
    assert_eq!(desk.queue(Side::Sell, 100), vec![1, 2]);
    assert_eq!(desk.engine.book.asks.best().unwrap().1.total_qty, 16);
}

#[test]
fn a_taker_that_is_not_filled_rests_below_the_ask() {
    let mut desk = Desk::open();
    desk.new_order(limit(1, Side::Sell, 100, 4));
    desk.new_order(limit(2, Side::Sell, 102, 4));
    desk.new_order(limit(3, Side::Buy, 101, 10));
    assert_eq!(desk.queue(Side::Buy, 101), vec![3]);
    assert_eq!(desk.engine.book.orders[&3].open_qty(), 6);
    assert!(desk.engine.book.is_uncrossed());
}

#[test]
fn sell_side_mirrors_buy_side() {
    let mut desk = Desk::open();
    desk.new_order(limit(1, Side::Buy, 99, 5));
    desk.new_order(limit(2, Side::Buy, 100, 5));
    let events = desk.new_order(limit(3, Side::Sell, 99, 12));
    assert_eq!(fills(&events), vec![(2, 3, 100, 5), (1, 3, 99, 5)]);
    assert_eq!(desk.queue(Side::Sell, 99), vec![3]);
}

#[test]
fn a_reduction_at_the_same_price_keeps_time_priority() {
    let mut desk = Desk::open();
    desk.new_order(limit(1, Side::Sell, 100, 10));
    desk.new_order(limit(2, Side::Sell, 100, 10));
    desk.replace(1, 100, 6);
    assert_eq!(desk.queue(Side::Sell, 100), vec![1, 2]);
    assert_eq!(desk.engine.book.asks.total_qty(), 16);
    let events = desk.new_order(limit(3, Side::Buy, 100, 7));
    assert_eq!(fills(&events), vec![(1, 3, 100, 6), (2, 3, 100, 1)]);
}

#[test]
fn a_price_change_loses_time_priority() {
    let mut desk = Desk::open();
    desk.new_order(limit(1, Side::Buy, 99, 10));
    desk.new_order(limit(2, Side::Buy, 100, 10));
    desk.replace(1, 100, 10);
    assert_eq!(desk.queue(Side::Buy, 100), vec![2, 1]);
    assert_eq!(desk.queue(Side::Buy, 99), vec![]);
}

#[test]
fn a_replace_that_fills_takes_the_order_off_the_book() {
    let mut desk = Desk::open();
    desk.new_order(limit(1, Side::Sell, 100, 10));
    desk.new_order(limit(2, Side::Buy, 99, 10));
    desk.new_order(limit(3, Side::Buy, 99, 3));
    let events = desk.replace(2, 100, 10);
    assert_eq!(fills(&events), vec![(1, 2, 100, 10)]);
    assert!(!desk.engine.book.orders[&2].is_open);
    assert_eq!(desk.queue(Side::Buy, 100), vec![]);
    assert_eq!(desk.engine.book.bids.total_qty(), 3);
}

#[test]
fn a_replace_that_fills_in_part_rests_with_the_remainder() {
    let mut desk = Desk::open();
    desk.new_order(limit(1, Side::Sell, 100, 4));
    desk.new_order(limit(2, Side::Buy, 99, 10));
    desk.replace(2, 100, 9);
    assert_eq!(desk.engine.book.orders[&2].filled_qty, 4);
    assert_eq!(desk.engine.book.orders[&2].open_qty(), 5);
    assert_eq!(desk.engine.book.bids.best().unwrap().1.total_qty, 5);
    assert!(desk.engine.book.is_uncrossed());
}

#[test]
fn replace_rejections() {
    let mut desk = Desk::open();
    desk.new_order(limit(1, Side::Buy, 100, 10));
    desk.new_order(limit(2, Side::Sell, 100, 4));
    assert_eq!(rejection(&desk.replace(9, 100, 5)), Some(RejectReason::UnknownOrder));
    assert_eq!(rejection(&desk.replace(2, 100, 1)), Some(RejectReason::NothingToCancel));
    assert_eq!(rejection(&desk.replace(1, 100, 0)), Some(RejectReason::InvalidQuantity));
    assert_eq!(rejection(&desk.replace(1, 100, 11)), Some(RejectReason::ReplaceQtyIncrease));
    assert_eq!(rejection(&desk.replace(1, 0, 9)), Some(RejectReason::InvalidPrice));
    // Four of ten are filled already.
    assert_eq!(rejection(&desk.replace(1, 100, 4)), Some(RejectReason::InvalidQuantity));
    assert_eq!(rejection(&desk.replace(1, 100, 5)), None);
    assert_eq!(desk.engine.book.orders[&1].open_qty(), 1);
}

#[test]
fn a_refused_command_changes_nothing() {
    let mut desk = Desk::open();
    desk.new_order(limit(1, Side::Buy, 100, 10));
    let before = format!("{:?}", desk.engine.book.bids);
    assert_eq!(desk.new_order(limit(1, Side::Sell, 90, 10)).len(), 2);
    assert_eq!(desk.cancel(5).len(), 2);
    assert_eq!(desk.replace(1, 100, 11).len(), 2);
    assert_eq!(format!("{:?}", desk.engine.book.bids), before);
    assert!(desk.engine.book.asks.is_empty());
    assert_eq!(desk.engine.book.orders.len(), 1);
}

#[test]
fn a_canceled_order_leaves_no_trace_on_its_side() {
    let mut desk = Desk::open();
    desk.new_order(limit(1, Side::Buy, 100, 10));
    desk.new_order(limit(2, Side::Buy, 100, 5));
    desk.new_order(limit(3, Side::Buy, 101, 5));
    desk.cancel(3);
    desk.cancel(2);
    assert_eq!(desk.queue(Side::Buy, 100), vec![1]);
    assert_eq!(desk.engine.book.bids.level_count(), 1);
    assert_eq!(rejection(&desk.cancel(2)), Some(RejectReason::NothingToCancel));
}

#[test]
fn all_or_none_fills_entirely() {
    let mut desk = Desk::open();
    desk.new_order(limit(1, Side::Sell, 100, 6));
    desk.new_order(limit(2, Side::Sell, 101, 6));
    let events = desk.new_order(all_or_none(3, Side::Buy, 101, 10));
    assert_eq!(fills(&events), vec![(1, 3, 100, 6), (2, 3, 101, 4)]);
    assert!(!desk.engine.book.orders[&3].is_open);
}

#[test]
fn all_or_none_that_is_short_is_held_off_the_book() {
    let mut desk = Desk::open();
    desk.new_order(limit(1, Side::Sell, 100, 5));
    let events = desk.new_order(all_or_none(2, Side::Buy, 100, 10));
    assert_eq!(events.len(), 2);
    assert_eq!(events[0], EngineEvent::OrderAccepted { seq_no: 2, order_id: 2 });
    assert_eq!(desk.engine.book.orders[&1].filled_qty, 0);
    assert!(desk.engine.book.orders[&2].is_open);
    assert!(desk.engine.book.bids.is_empty());
    assert_eq!(desk.engine.book.waiting, vec![2]);
    assert!(desk.engine.book.is_uncrossed());
}

#[test]
fn a_held_order_fills_entirely_once_enough_rests_across() {
    let mut desk = Desk::open();
    desk.new_order(limit(1, Side::Sell, 100, 5));
    desk.new_order(all_or_none(2, Side::Buy, 100, 10));
    // Nine are still one short.
    let events = desk.new_order(limit(3, Side::Sell, 99, 4));
    assert_eq!(fills(&events), vec![]);
    assert_eq!(desk.engine.book.waiting, vec![2]);
    let events = desk.new_order(limit(4, Side::Sell, 100, 2));
    assert_eq!(fills(&events), vec![(3, 2, 99, 4), (1, 2, 100, 5), (4, 2, 100, 1)]);
    assert!(!desk.engine.book.orders[&2].is_open);
    assert!(desk.engine.book.waiting.is_empty());
    assert_eq!(desk.engine.book.asks.total_qty(), 1);
}

#[test]
fn a_held_order_rests_once_nothing_is_across() {
    let mut desk = Desk::open();
    desk.new_order(limit(1, Side::Sell, 100, 5));
    desk.new_order(all_or_none(2, Side::Buy, 100, 10));
    desk.cancel(1);
    assert_eq!(desk.queue(Side::Buy, 100), vec![2]);
    assert!(desk.engine.book.waiting.is_empty());

    let mut desk = Desk::open();
    desk.new_order(limit(1, Side::Buy, 100, 5));
    desk.new_order(all_or_none(2, Side::Sell, 100, 10));
    let events = desk.new_order(limit(3, Side::Sell, 100, 5));
    assert_eq!(fills(&events), vec![(1, 3, 100, 5)]);
    assert_eq!(desk.queue(Side::Sell, 100), vec![2]);
    assert!(desk.engine.book.waiting.is_empty());
}

#[test]
fn held_orders_enter_oldest_first() {
    let mut desk = Desk::open();
    desk.new_order(limit(1, Side::Sell, 100, 5));
    desk.new_order(all_or_none(2, Side::Buy, 100, 10));
    desk.new_order(all_or_none(3, Side::Buy, 100, 8));
    assert_eq!(desk.engine.book.waiting, vec![2, 3]);
    let events = desk.new_order(limit(4, Side::Sell, 100, 5));
    assert_eq!(fills(&events), vec![(1, 2, 100, 5), (4, 2, 100, 5)]);
    assert_eq!(desk.queue(Side::Buy, 100), vec![3]);
    assert!(desk.engine.book.waiting.is_empty());
}

#[test]
fn a_held_order_that_is_not_ready_is_passed_over() {
    let mut desk = Desk::open();
    desk.new_order(limit(1, Side::Sell, 100, 5));
    desk.new_order(all_or_none(2, Side::Buy, 100, 20));
    desk.new_order(all_or_none(3, Side::Buy, 100, 8));
    let events = desk.new_order(limit(4, Side::Sell, 100, 4));
    assert_eq!(fills(&events), vec![(1, 3, 100, 5), (4, 3, 100, 3)]);
    assert_eq!(desk.engine.book.waiting, vec![2]);
    assert!(desk.engine.book.bids.is_empty());
}

#[test]
fn a_held_order_can_be_canceled() {
    let mut desk = Desk::open();
    desk.new_order(limit(1, Side::Sell, 100, 5));
    desk.new_order(all_or_none(2, Side::Buy, 100, 10));
    let events = desk.cancel(2);
    assert_eq!(
        events[0],
        EngineEvent::OrderCanceled { seq_no: 3, order_id: 2, remaining_qty: 10 }
    );
    assert!(desk.engine.book.waiting.is_empty());
    assert!(!desk.engine.book.orders[&2].is_open);
    assert_eq!(rejection(&desk.cancel(2)), Some(RejectReason::NothingToCancel));
}

#[test]
fn a_held_order_can_be_replaced() {
    let mut desk = Desk::open();
    desk.new_order(limit(1, Side::Sell, 100, 5));
    desk.new_order(all_or_none(2, Side::Buy, 100, 10));
    assert_eq!(rejection(&desk.replace(2, 100, 11)), Some(RejectReason::ReplaceQtyIncrease));
    assert_eq!(rejection(&desk.replace(2, 0, 9)), Some(RejectReason::InvalidPrice));
    // Still short: it keeps waiting.
    let events = desk.replace(2, 101, 9);
    assert_eq!(fills(&events), vec![]);
    assert_eq!(desk.engine.book.waiting, vec![2]);
    assert_eq!(desk.engine.book.orders[&2].open_qty(), 9);
    // Small enough to be filled.
    let events = desk.replace(2, 101, 5);
    assert_eq!(fills(&events), vec![(1, 2, 100, 5)]);
    assert!(!desk.engine.book.orders[&2].is_open);

    let mut desk = Desk::open();
    desk.new_order(limit(1, Side::Sell, 100, 5));
    desk.new_order(all_or_none(2, Side::Buy, 100, 10));
    // No longer across: it rests.
    desk.replace(2, 99, 10);
    assert_eq!(desk.queue(Side::Buy, 99), vec![2]);
    assert!(desk.engine.book.waiting.is_empty());
}

#[test]
fn a_new_order_that_did_not_trade_is_undone_by_its_cancel() {
    let orders = [
        limit(9, Side::Buy, 99, 7),
        all_or_none(9, Side::Buy, 100, 7),
        stop(9, Side::Buy, 101, 101, 7),
    ];
    for order in orders {
        let mut desk = Desk::open();
        desk.new_order(limit(1, Side::Sell, 100, 5));
        desk.new_order(limit(2, Side::Buy, 99, 5));
        let bids = format!("{:?}", desk.engine.book.bids);
        let asks = format!("{:?}", desk.engine.book.asks);
        desk.new_order(order);
        assert!(desk.engine.book.orders[&9].is_open);
        desk.cancel(9);
        assert_eq!(format!("{:?}", desk.engine.book.bids), bids);
        assert_eq!(format!("{:?}", desk.engine.book.asks), asks);
        assert!(desk.engine.book.waiting.is_empty());
        assert!(!desk.engine.book.orders[&9].is_open);
    }
}

#[test]
fn all_or_none_below_the_ask_rests_uncrossed() {
    let mut desk = Desk::open();
    desk.new_order(limit(1, Side::Sell, 101, 5));
    desk.new_order(all_or_none(2, Side::Buy, 100, 10));
    assert!(desk.engine.book.is_uncrossed());
    // As a maker it is an order like any other.
    let events = desk.new_order(limit(3, Side::Sell, 100, 4));
    assert_eq!(fills(&events), vec![(2, 3, 100, 4)]);
}

#[test]
fn all_or_none_that_may_not_rest_is_rejected() {
    let mut desk = Desk::open();
    desk.new_order(limit(1, Side::Sell, 100, 5));
    let ioc = NewOrder { tif: TimeInForce::IOC, ..all_or_none(2, Side::Buy, 100, 10) };
    assert_eq!(rejection(&desk.new_order(ioc)), Some(RejectReason::AONNotFillable));
    let unpriced = NewOrder { condition: OrderCondition::AON, ..market(3, Side::Buy, 10) };
    assert_eq!(rejection(&desk.new_order(unpriced)), Some(RejectReason::AONNotFillable));
    assert_eq!(desk.engine.book.orders[&1].open_qty(), 5);
    assert!(desk.engine.book.bids.is_empty());
}

#[test]
fn a_fill_or_kill_order_that_failed_is_not_on_record() {
    let mut desk = Desk::open();
    let fok = NewOrder { tif: TimeInForce::FOK, ..limit(1, Side::Buy, 100, 10) };
    assert_eq!(rejection(&desk.new_order(fok)), Some(RejectReason::FOKNotFillable));
    assert!(desk.engine.book.orders.is_empty());
    assert_eq!(rejection(&desk.new_order(limit(1, Side::Buy, 100, 10))), None);
}

#[test]
fn an_unfillable_order_is_accepted_then_rejected_and_changes_nothing() {
    let mut desk = Desk::open();
    desk.new_order(limit(1, Side::Sell, 100, 5));
    let before = format!("{:?}", desk.engine.book.asks);
    let fok = NewOrder { tif: TimeInForce::FOK, ..limit(2, Side::Buy, 100, 6) };
    assert_eq!(
        desk.new_order(fok),
        vec![
            EngineEvent::OrderAccepted { seq_no: 2, order_id: 2 },
            EngineEvent::OrderRejected {
                seq_no: 2,
                order_id: 2,
                reason: RejectReason::FOKNotFillable,
            },
            EngineEvent::BboChanged(desk.engine.book.bbo()),
        ]
    );
    assert_eq!(format!("{:?}", desk.engine.book.asks), before);
    assert_eq!(desk.engine.book.orders.len(), 1);
}

#[test]
fn a_fill_or_kill_order_looks_no_further_than_its_limit() {
    let mut desk = Desk::open();
    desk.new_order(limit(1, Side::Sell, 100, 5));
    desk.new_order(limit(2, Side::Sell, 101, 5));
    let fok = NewOrder { tif: TimeInForce::FOK, ..limit(3, Side::Buy, 100, 6) };
    assert_eq!(rejection(&desk.new_order(fok)), Some(RejectReason::FOKNotFillable));
    let fok = NewOrder { tif: TimeInForce::FOK, ..market(4, Side::Buy, 6) };
    assert_eq!(fills(&desk.new_order(fok)), vec![(1, 4, 100, 5), (2, 4, 101, 1)]);
}

#[test]
fn a_stop_order_waits_off_the_book() {
    let mut desk = Desk::open();
    let events = desk.new_order(stop(1, Side::Buy, 105, 106, 5));
    assert_eq!(events.len(), 2);
    assert_eq!(events[0], EngineEvent::OrderAccepted { seq_no: 1, order_id: 1 });
    assert!(desk.engine.book.bids.is_empty());
    assert!(desk.engine.book.orders[&1].is_open);
    assert_eq!(desk.engine.book.waiting, vec![1]);
}

#[test]
fn a_trade_at_the_stop_price_activates_a_buy_stop() {
    let mut desk = Desk::open();
    desk.new_order(limit(1, Side::Sell, 105, 5));
    desk.new_order(limit(2, Side::Sell, 106, 5));
    desk.new_order(stop(3, Side::Buy, 105, 106, 4));
    let events = desk.new_order(limit(4, Side::Buy, 105, 5));
    assert_eq!(fills(&events), vec![(1, 4, 105, 5), (2, 3, 106, 4)]);
    assert!(!desk.engine.book.orders[&3].is_open);
    assert!(desk.engine.book.waiting.is_empty());
}

#[test]
fn a_trade_short_of_the_stop_price_does_not() {
    let mut desk = Desk::open();
    desk.new_order(limit(1, Side::Sell, 104, 5));
    desk.new_order(stop(2, Side::Buy, 105, 106, 4));
    desk.new_order(limit(3, Side::Buy, 104, 5));
    assert_eq!(desk.engine.book.waiting, vec![2]);
}

#[test]
fn a_trade_through_the_stop_price_activates_a_sell_stop() {
    let mut desk = Desk::open();
    desk.new_order(limit(1, Side::Buy, 95, 5));
    desk.new_order(stop(2, Side::Sell, 96, 94, 4));
    desk.new_order(limit(3, Side::Sell, 95, 5));
    // It becomes an ordinary limit order and rests.
    assert_eq!(desk.queue(Side::Sell, 94), vec![2]);
    assert_eq!(desk.engine.book.orders[&2].condition, OrderCondition::Unconditional);
}

#[test]
fn activated_stops_trigger_further_stops() {
    let mut desk = Desk::open();
    desk.new_order(limit(1, Side::Sell, 100, 5));
    desk.new_order(limit(2, Side::Sell, 102, 5));
    desk.new_order(limit(3, Side::Sell, 104, 5));
    let second = NewOrder { condition: OrderCondition::Stop, stop_price: 102, ..market(4, Side::Buy, 5) };
    let first = NewOrder { condition: OrderCondition::Stop, stop_price: 100, ..market(5, Side::Buy, 5) };
    desk.new_order(second);
    desk.new_order(first);
    let events = desk.new_order(limit(6, Side::Buy, 100, 5));
    assert_eq!(
        fills(&events),
        vec![(1, 6, 100, 5), (2, 5, 102, 5), (3, 4, 104, 5)]
    );
    assert!(desk.engine.book.waiting.is_empty());
}

#[test]
fn stops_triggered_together_enter_oldest_first() {
    let mut desk = Desk::open();
    desk.new_order(limit(1, Side::Sell, 100, 5));
    desk.new_order(stop(2, Side::Buy, 100, 99, 1));
    desk.new_order(stop(3, Side::Buy, 100, 99, 1));
    desk.new_order(limit(4, Side::Buy, 100, 5));
    assert_eq!(desk.queue(Side::Buy, 99), vec![2, 3]);
}

#[test]
fn a_replace_can_trigger_a_stop() {
    let mut desk = Desk::open();
    desk.new_order(limit(1, Side::Sell, 100, 5));
    desk.new_order(limit(2, Side::Buy, 99, 5));
    desk.new_order(stop(3, Side::Sell, 100, 101, 2));
    desk.replace(2, 100, 5);
    assert_eq!(desk.queue(Side::Sell, 101), vec![3]);
}

#[test]
fn an_activated_fill_or_kill_stop_may_fail() {
    let mut desk = Desk::open();
    desk.new_order(limit(1, Side::Sell, 100, 5));
    let fok = NewOrder { tif: TimeInForce::FOK, ..stop(2, Side::Buy, 100, 100, 5) };
    desk.new_order(fok);
    let events = desk.new_order(limit(3, Side::Buy, 100, 5));
    assert_eq!(rejection(&events), Some(RejectReason::FOKNotFillable));
    assert!(!desk.engine.book.orders[&2].is_open);
}

#[test]
fn a_waiting_stop_can_be_canceled_but_not_replaced() {
    let mut desk = Desk::open();
    desk.new_order(stop(1, Side::Buy, 105, 106, 5));
    assert_eq!(rejection(&desk.replace(1, 106, 4)), Some(RejectReason::NothingToCancel));
    let events = desk.cancel(1);
    assert_eq!(
        events[0],
        EngineEvent::OrderCanceled { seq_no: 3, order_id: 1, remaining_qty: 5 }
    );
    assert!(desk.engine.book.waiting.is_empty());
    assert!(!desk.engine.book.orders[&1].is_open);
}

fn probe(payload: CommandPayload) -> Command {
    Command { seq_no: 9, timestamp: 0, payload }
}

#[test]
fn room_is_that_of_the_level_in_which_an_order_rests() {
    let mut desk = Desk::open();
    desk.new_order(limit(1, Side::Buy, 100, u64::MAX - 5));
    let fits = |order: NewOrder| desk.engine.has_room_for(&probe(CommandPayload::New(order)));
    assert!(fits(limit(2, Side::Buy, 100, 5)));
    assert!(!fits(limit(2, Side::Buy, 100, 6)));
    assert!(fits(limit(2, Side::Buy, 99, 10)));
    assert!(fits(limit(2, Side::Sell, 101, 10)));
    // What does not come to rest needs no room: orders that trade, expire or are refused.
    assert!(fits(limit(2, Side::Sell, 100, 10)));
    assert!(fits(NewOrder { tif: TimeInForce::IOC, ..limit(2, Side::Buy, 100, 10) }));
    assert!(fits(market(2, Side::Buy, 10)));
    assert!(fits(limit(1, Side::Buy, 100, 10)));
    assert!(fits(stop(2, Side::Buy, 105, 100, 10)));
    assert!(desk.engine.book.has_room(5));
    assert!(!desk.engine.book.has_room(6));
}

#[test]
fn room_is_measured_with_waiting_orders_that_enter() {
    for (qty, room) in [(10, true), (11, false)] {
        let mut desk = Desk::open();
        desk.new_order(limit(1, Side::Buy, 99, u64::MAX - 10));
        desk.new_order(limit(2, Side::Sell, 105, 5));
        desk.new_order(stop(3, Side::Buy, 105, 99, qty));
        // The trade triggers the stop order, which rests among the bids at 99.
        let cmd = probe(CommandPayload::New(limit(4, Side::Buy, 105, 5)));
        assert_eq!(desk.engine.has_room_for(&cmd), room);
        // Without a trade it stays where it is.
        let cmd = probe(CommandPayload::New(limit(4, Side::Buy, 104, 5)));
        assert!(desk.engine.has_room_for(&cmd));
    }
}

#[test]
fn room_for_a_replace_is_that_of_the_level_it_moves_to() {
    let mut desk = Desk::open();
    desk.new_order(limit(1, Side::Buy, 100, u64::MAX - 5));
    desk.new_order(limit(2, Side::Buy, 99, 20));
    let fits = |order_id: u64, new_price: u64, new_qty: u64| {
        let replace = ReplaceOrder { order_id, symbol: 1, new_price, new_qty };
        desk.engine.has_room_for(&probe(CommandPayload::Replace(replace)))
    };
    assert!(fits(2, 100, 5));
    assert!(!fits(2, 100, 6));
    assert!(fits(2, 98, 20));
    assert!(fits(1, 100, u64::MAX - 6));
    assert!(fits(7, 100, 6));
    let cancel = CancelOrder { order_id: 2, symbol: 1 };
    assert!(desk.engine.has_room_for(&probe(CommandPayload::Cancel(cancel))));
}

#[test]
fn fill_or_kill_counts_more_than_a_quantity_can_hold() {
    let mut desk = Desk::open();
    desk.new_order(limit(1, Side::Sell, 100, u64::MAX));
    // A second level of the same size: together they exceed the largest quantity.
    let cmd = Command {
        seq_no: 2,
        timestamp: 0,
        payload: CommandPayload::New(limit(2, Side::Sell, 101, u64::MAX)),
    };
    desk.engine.process(&cmd);
    desk.seq_no = 2;
    let fok = NewOrder { tif: TimeInForce::FOK, ..limit(3, Side::Buy, 101, u64::MAX) };
    let cmd = Command { seq_no: 3, timestamp: 0, payload: CommandPayload::New(fok) };
    let events = desk.engine.process(&cmd).events;
    assert_eq!(fills(&events), vec![(1, 3, 100, u64::MAX)]);
}
