//! Change detection of market data.
use matching_engine::feed::MarketDataTracker;
use matching_engine::types::{Bbo, DepthLevel, EngineEvent, Side};

#[test]
fn bbo_change_detected() {
    let mut tracker = MarketDataTracker::new(1);
    let bbo1 = Bbo {
        bid_price: Some(100),
        bid_qty: 10,
        ask_price: Some(101),
        ask_qty: 20,
    };
    assert!(tracker.update_bbo(bbo1).is_some());
    // Same BBO: no event.
    assert!(tracker.update_bbo(bbo1).is_none());
    // Changed BBO: event.
    let bbo2 = Bbo {
        bid_price: Some(100),
        bid_qty: 15,
        ask_price: Some(101),
        ask_qty: 20,
    };
    assert!(tracker.update_bbo(bbo2).is_some());
}

#[test]
fn depth_change_detected() {
    let mut tracker = MarketDataTracker::new(1);
    let bid_depth = vec![DepthLevel { price: 100, qty: 10, order_count: 1 }];
    let ask_depth = vec![DepthLevel { price: 101, qty: 20, order_count: 2 }];
    let events = tracker.update_depth(bid_depth.clone(), ask_depth.clone());
    assert_eq!(events.len(), 2);

    // Same depth: no events.
    let events = tracker.update_depth(bid_depth, ask_depth);
    assert_eq!(events.len(), 0);
}

#[test]
fn only_the_side_that_changed_is_reported() {
    let mut tracker = MarketDataTracker::new(1);
    let bids = vec![DepthLevel { price: 100, qty: 10, order_count: 1 }];
    let asks = vec![DepthLevel { price: 101, qty: 20, order_count: 2 }];
    tracker.update_depth(bids.clone(), asks);
    let new_asks = vec![DepthLevel { price: 102, qty: 20, order_count: 2 }];
    let events = tracker.update_depth(bids, new_asks.clone());
    assert_eq!(
        events,
        vec![EngineEvent::DepthChanged { side: Side::Sell, levels: new_asks }]
    );
}

#[test]
fn the_last_bbo_is_remembered() {
    let mut tracker = MarketDataTracker::new(9);
    assert_eq!(tracker.symbol, 9);
    assert_eq!(tracker.last_bbo(), None);
    let bbo = Bbo { bid_price: None, bid_qty: 0, ask_price: Some(5), ask_qty: 6 };
    assert_eq!(tracker.update_bbo(bbo), Some(EngineEvent::BboChanged(bbo)));
    assert_eq!(tracker.last_bbo(), Some(&bbo));
}
