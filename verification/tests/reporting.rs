//! Lines for people, simulated flow, statistics.
use matching_engine::feed::MarketDataTracker;
use matching_engine::flow::{describe_submission, draw_order, simulated_command, simulated_order};
use matching_engine::matcher::MatchingEngine;
use matching_engine::report::{book_summary, decimal, describe_events};
use matching_engine::types::{
    Bbo, CancelOrder, CommandPayload, DepthLevel, EngineEvent, Fill, NewOrder, OrderCondition,
    OrderType, RejectReason, Side, TimeInForce, MARKET_PRICE,
};

fn lines(events: Vec<EngineEvent>) -> Vec<String> {
    describe_events(&events, &mut MarketDataTracker::new(1))
}

#[test]
fn numbers_are_written_in_decimal() {
    for n in [0, 7, 9, 10, 99, 100, 1234567890, u64::MAX] {
        assert_eq!(decimal(n), n.to_string());
    }
}

#[test]
fn every_event_has_its_line() {
    let reason = RejectReason::NoLiquidity;
    assert_eq!(
        lines(vec![
            EngineEvent::OrderAccepted { seq_no: 1, order_id: 2 },
            EngineEvent::OrderRejected { seq_no: 1, order_id: 3, reason },
            EngineEvent::Trade(Fill {
                maker_order_id: 4,
                taker_order_id: 5,
                price: 100,
                qty: 6,
                maker_filled_completely: true,
                taker_filled_completely: false,
            }),
            EngineEvent::OrderCanceled { seq_no: 1, order_id: 7, remaining_qty: 8 },
            EngineEvent::CancelRejected { seq_no: 1, order_id: 9, reason },
            EngineEvent::OrderReplaced { seq_no: 1, order_id: 10, new_price: 11, new_qty: 12 },
            EngineEvent::ReplaceRejected { seq_no: 1, order_id: 13, reason },
            EngineEvent::BboChanged(Bbo {
                bid_price: Some(99),
                bid_qty: 5,
                ask_price: None,
                ask_qty: 0,
            }),
            EngineEvent::DepthChanged {
                side: Side::Sell,
                levels: vec![DepthLevel { price: 101, qty: 20, order_count: 2 }],
            },
        ]),
        vec![
            "  [ACCEPTED] order_id=2",
            "  [REJECTED] order_id=3 reason=NoLiquidity",
            "  [TRADE] maker=4 taker=5 price=100 qty=6 maker_done=true taker_done=false",
            "  [CANCELED] order_id=7 remaining=8",
            "  [CANCEL_REJECTED] order_id=9 reason=NoLiquidity",
            "  [REPLACED] order_id=10 new_price=11 new_qty=12",
            "  [REPLACE_REJECTED] order_id=13 reason=NoLiquidity",
            "  [BBO] bid=5@99 ask=0@--",
            "  [DEPTH:Sell]",
            "    price=101 qty=20 orders=2",
        ]
    );
}

#[test]
fn an_unchanged_bbo_is_not_shown_again() {
    let bbo = EngineEvent::BboChanged(Bbo {
        bid_price: None,
        bid_qty: 0,
        ask_price: None,
        ask_qty: 0,
    });
    assert_eq!(lines(vec![bbo.clone(), bbo]), vec!["  [BBO] bid=0@-- ask=0@--"]);
}

fn small_market() -> MatchingEngine {
    let mut engine = MatchingEngine::new(1);
    for (seq_no, (side, price, qty)) in
        [(Side::Buy, 99, 50), (Side::Buy, 98, 100), (Side::Sell, 101, 50), (Side::Buy, 101, 20)]
            .into_iter()
            .enumerate()
    {
        let seq_no = seq_no as u64 + 1;
        let order = simulated_order(seq_no, 1, side, price, qty, 3);
        engine.process(&simulated_command(seq_no, CommandPayload::New(order)));
    }
    engine
}

#[test]
fn the_summary_shows_both_sides() {
    assert_eq!(
        book_summary(&small_market().book),
        vec![
            "\n--- Book Summary ---",
            "BBO: bid=50@99 | ask=30@101",
            "Bid depth (2 levels):",
            "  99 x 50 (1 orders)",
            "  98 x 100 (1 orders)",
            "Ask depth (1 levels):",
            "  101 x 30 (1 orders)",
            "Uncrossed: true",
        ]
    );
}

#[test]
fn describing_events_leaves_the_depths_alone() {
    let mut md = MarketDataTracker::new(1);
    let bids = vec![DepthLevel { price: 99, qty: 5, order_count: 1 }];
    md.update_depth(bids.clone(), vec![]);
    let levels = vec![DepthLevel { price: 98, qty: 7, order_count: 2 }];
    describe_events(&vec![EngineEvent::DepthChanged { side: Side::Buy, levels }], &mut md);
    assert_eq!(md.symbol, 1);
    assert!(md.update_depth(bids, vec![]).is_empty());
}

#[test]
fn statistics_count_orders() {
    let mut engine = small_market();
    let stats = engine.book.statistics();
    assert_eq!(stats.total_orders, 4);
    assert_eq!(stats.open_orders, 3);
    assert_eq!(stats.filled_orders, 1);
    let mut open = engine.book.open_order_ids();
    open.sort();
    assert_eq!(open, vec![1, 2, 3]);
    let cancel = CancelOrder { order_id: 3, symbol: 1 };
    engine.process(&simulated_command(5, CommandPayload::Cancel(cancel)));
    // Canceled after a partial fill: closed and filled in part.
    assert_eq!(engine.book.statistics().filled_orders, 2);
}

#[test]
fn draws_decide_the_kind_of_order() {
    let kinds: Vec<_> = (0..5)
        .map(|draw| {
            let order = simulated_order(9, 2, Side::Sell, 100, 7, draw);
            (order.order_type, order.tif, order.price)
        })
        .collect();
    assert_eq!(
        kinds,
        vec![
            (OrderType::Market, TimeInForce::GTC, MARKET_PRICE),
            (OrderType::Limit, TimeInForce::IOC, 100),
            (OrderType::Limit, TimeInForce::FOK, 100),
            (OrderType::Limit, TimeInForce::GTC, 100),
            (OrderType::Limit, TimeInForce::GTC, 100),
        ]
    );
    let order = simulated_order(9, 2, Side::Sell, 100, 7, 1);
    assert_eq!(
        order,
        NewOrder {
            order_id: 9,
            symbol: 2,
            side: Side::Sell,
            order_type: OrderType::Limit,
            tif: TimeInForce::IOC,
            condition: OrderCondition::Unconditional,
            price: 100,
            qty: 7,
            stop_price: 0,
        }
    );
    assert_eq!(
        describe_submission(9, &order),
        "\n>> Submit: seq=9 Sell LMT IOC None price=100 qty=7"
    );
    assert_eq!(simulated_command(9, CommandPayload::New(order)).timestamp, 9_000_000);
}

#[test]
fn drawn_orders_cover_their_ranges_and_no_more() {
    let mut rng = rand::thread_rng();
    let mut prices = std::collections::BTreeSet::new();
    let mut qtys = std::collections::BTreeSet::new();
    let mut kinds = std::collections::HashSet::new();
    for seq_no in 1..=5000 {
        let order = draw_order(&mut rng, seq_no, 1, Side::Buy);
        assert_eq!(order.order_id, seq_no);
        assert_eq!(order.side, Side::Buy);
        if order.order_type == OrderType::Limit {
            prices.insert(order.price);
        } else {
            assert_eq!(order.price, MARKET_PRICE);
        }
        qtys.insert(order.qty);
        kinds.insert((order.order_type, order.tif));
    }
    assert_eq!(prices, (96..=104).collect());
    assert_eq!(qtys, (5..=30).collect());
    assert_eq!(kinds.len(), 4);
}
