//! Long pseudo-random runs.
use matching_engine::matcher::MatchingEngine;
use matching_engine::types::{
    CancelOrder, Command, CommandPayload, EngineEvent, NewOrder, OrderCondition, OrderType,
    ReplaceOrder, Side, TimeInForce,
};

struct Draws(u64);

impl Draws {
    fn below(&mut self, n: u64) -> u64 {
        self.0 = self.0.wrapping_mul(6364136223846793005).wrapping_add(1442695040888963407);
        (self.0 >> 33) % n
    }
}

fn limit(order_id: u64, side: Side, price: u64, qty: u64) -> NewOrder {
    NewOrder {
        order_id,
        symbol: 1,
        side,
        order_type: OrderType::Limit,
        tif: TimeInForce::GTC,
        condition: OrderCondition::Unconditional,
        price,
        qty,
        stop_price: 0,
    }
}

fn command(seq_no: u64, payload: CommandPayload) -> Command {
    Command { seq_no, timestamp: seq_no * 1000, payload }
}

fn random_limit(draws: &mut Draws, seq_no: u64) -> Command {
    let side = if draws.below(2) == 0 { Side::Buy } else { Side::Sell };
    let price = 95 + draws.below(11);
    let qty = 1 + draws.below(50);
    command(seq_no, CommandPayload::New(limit(seq_no, side, price, qty)))
}

fn check_invariants(engine: &MatchingEngine) {
    assert!(engine.book.is_uncrossed());
    assert!(engine.book.is_consistent());
    for order in engine.book.orders.values() {
        if order.is_open {
            assert!(order.open_qty() > 0);
        }
        assert!(order.filled_qty <= order.original_qty);
    }
    for (levels, side) in
        [(&engine.book.bids.levels, Side::Buy), (&engine.book.asks.levels, Side::Sell)]
    {
        for level in levels.values() {
            let mut sum = 0;
            for id in &level.orders {
                let order = &engine.book.orders[id];
                assert!(order.is_open);
                assert_eq!(order.side, side);
                sum += order.open_qty();
            }
            assert_eq!(level.total_qty, sum);
        }
    }
}

/// What rests across a held all-or-none order is some of what it asks for, but not all.
fn check_held(engine: &MatchingEngine) {
    for id in &engine.book.waiting {
        let held = &engine.book.orders[id];
        assert!(held.is_open);
        if held.condition == OrderCondition::AON {
            let other = match held.side {
                Side::Buy => &engine.book.asks,
                Side::Sell => &engine.book.bids,
            };
            let across: u64 = other
                .levels
                .values()
                .flat_map(|level| level.orders.iter())
                .map(|id| &engine.book.orders[id])
                .filter(|maker| match held.side {
                    Side::Buy => maker.price <= held.price,
                    Side::Sell => maker.price >= held.price,
                })
                .map(|maker| maker.open_qty())
                .sum();
            assert!(0 < across && across < held.open_qty());
        }
    }
}

#[test]
fn random_limit_orders_maintain_invariants() {
    for seed in 0..20 {
        let mut draws = Draws(seed);
        let mut engine = MatchingEngine::new(1);
        for seq_no in 1..200 {
            engine.process(&random_limit(&mut draws, seq_no));
            check_invariants(&engine);
        }
    }
}

#[test]
fn random_orders_and_cancels() {
    for seed in 0..20 {
        let mut draws = Draws(seed);
        let mut engine = MatchingEngine::new(1);
        let order_count = 10 + draws.below(90);
        let mut seq_no = 0;
        for i in 1..=order_count {
            seq_no += 1;
            let side = if i % 2 == 0 { Side::Buy } else { Side::Sell };
            let order = limit(seq_no, side, 95 + (i % 11), 10);
            engine.process(&command(seq_no, CommandPayload::New(order)));
        }
        for _ in 0..50 {
            seq_no += 1;
            let order_id = draws.below(100) % order_count + 1;
            let cancel = CancelOrder { order_id, symbol: 1 };
            engine.process(&command(seq_no, CommandPayload::Cancel(cancel)));
            check_invariants(&engine);
        }
    }
}

#[test]
fn deterministic_replay() {
    for seed in 0..20 {
        let mut draws = Draws(seed);
        let cmds: Vec<Command> = (1..50).map(|i| random_limit(&mut draws, i)).collect();
        let mut engine1 = MatchingEngine::new(1);
        let events1: Vec<EngineEvent> =
            cmds.iter().flat_map(|cmd| engine1.process(cmd).events).collect();
        let mut engine2 = MatchingEngine::new(1);
        let events2: Vec<EngineEvent> =
            cmds.iter().flat_map(|cmd| engine2.process(cmd).events).collect();
        assert_eq!(events1, events2);
        assert_eq!(engine1.book.last_seq_no, engine2.book.last_seq_no);
    }
}

#[test]
fn mixed_flow_keeps_the_books() {
    for seed in 0..20 {
        let mut draws = Draws(1000 + seed);
        let mut engine = MatchingEngine::new(1);
        for seq_no in 1..300u64 {
            let known = 1 + draws.below(seq_no);
            let cmd = match draws.below(8) {
                0 => {
                    let cancel = CancelOrder { order_id: known, symbol: 1 };
                    command(seq_no, CommandPayload::Cancel(cancel))
                }
                1 => {
                    let replace = ReplaceOrder {
                        order_id: known,
                        symbol: 1,
                        new_price: 95 + draws.below(11),
                        new_qty: 1 + draws.below(40),
                    };
                    command(seq_no, CommandPayload::Replace(replace))
                }
                kind => {
                    let mut cmd = random_limit(&mut draws, seq_no);
                    if let CommandPayload::New(order) = &mut cmd.payload {
                        match kind {
                            2 => order.order_type = OrderType::Market,
                            3 => order.tif = TimeInForce::IOC,
                            4 => order.tif = TimeInForce::FOK,
                            5 => {
                                order.condition = OrderCondition::Stop;
                                order.stop_price = 95 + draws.below(11);
                            }
                            6 => order.condition = OrderCondition::AON,
                            _ => {}
                        }
                    }
                    cmd
                }
            };
            let before = engine.book.orders.clone();
            let events = engine.process(&cmd).events;
            check_invariants(&engine);
            // Every order was filled by what the trades say, and closed orders stay as they were.
            for (id, order) in &engine.book.orders {
                let traded: u64 = events
                    .iter()
                    .map(|event| match event {
                        EngineEvent::Trade(fill)
                            if fill.maker_order_id == *id || fill.taker_order_id == *id =>
                        {
                            fill.qty
                        }
                        _ => 0,
                    })
                    .sum();
                let filled = before.get(id).map_or(0, |old| old.filled_qty);
                assert_eq!(order.filled_qty, filled + traded);
                if let Some(old) = before.get(id) {
                    if !old.is_open {
                        assert_eq!(old, order);
                    }
                    // Orders keep their terms.
                    assert_eq!((old.order_id, old.symbol), (order.order_id, order.symbol));
                    assert_eq!((old.side, old.order_type), (order.side, order.order_type));
                    assert_eq!(old.tif, order.tif);
                    assert!(old.original_qty >= order.original_qty);
                } else {
                    assert!(matches!(cmd.payload, CommandPayload::New(new) if new.order_id == *id));
                }
            }
            assert!(before.keys().all(|id| engine.book.orders.contains_key(id)));
            check_held(&engine);
            for event in &events {
                if let EngineEvent::OrderCanceled { order_id, remaining_qty, .. } = event {
                    let order = &engine.book.orders[order_id];
                    assert!(!order.is_open);
                    assert_eq!(order.filled_qty + remaining_qty, order.original_qty);
                }
            }
        }
    }
}
