//! The order book's sides.
use matching_engine::book::{BookSide, OrderBook, PriceLevel, SideTag};

#[test]
fn bid_side_ordering() {
    let mut bids = BookSide::new_bids();
    bids.insert(100, 1, 10);
    bids.insert(102, 2, 20);
    bids.insert(99, 3, 5);

    // Best bid should be 102 (highest price)
    let (price, level) = bids.best().unwrap();
    assert_eq!(price, 102);
    assert_eq!(level.total_qty, 20);
}

#[test]
fn ask_side_ordering() {
    let mut asks = BookSide::new_asks();
    asks.insert(100, 1, 10);
    asks.insert(98, 2, 20);
    asks.insert(105, 3, 5);

    // Best ask should be 98 (lowest price)
    let (price, level) = asks.best().unwrap();
    assert_eq!(price, 98);
    assert_eq!(level.total_qty, 20);
}

#[test]
fn fifo_within_price_level() {
    let mut asks = BookSide::new_asks();
    asks.insert(100, 1, 10);
    asks.insert(100, 2, 20);
    asks.insert(100, 3, 5);

    let (_, level) = asks.best().unwrap();
    assert_eq!(level.orders.len(), 3);
    assert_eq!(level.orders[0], 1); // first in
    assert_eq!(level.orders[1], 2);
    assert_eq!(level.orders[2], 3);
}

#[test]
fn remove_order() {
    let mut bids = BookSide::new_bids();
    bids.insert(100, 1, 10);
    bids.insert(100, 2, 20);

    assert!(bids.remove(100, 1, 10));
    let (_, level) = bids.best().unwrap();
    assert_eq!(level.orders.len(), 1);
    assert_eq!(level.orders[0], 2);
    assert_eq!(level.total_qty, 20);
}

#[test]
fn remove_last_at_level_cleans_up() {
    let mut bids = BookSide::new_bids();
    bids.insert(100, 1, 10);
    assert!(bids.remove(100, 1, 10));
    assert!(bids.is_empty());
}

#[test]
fn depth_snapshot() {
    let mut asks = BookSide::new_asks();
    asks.insert(100, 1, 10);
    asks.insert(100, 2, 5);
    asks.insert(101, 3, 20);
    asks.insert(102, 4, 7);

    let depth = asks.depth(2);
    assert_eq!(depth.len(), 2);
    assert_eq!(depth[0].price, 100);
    assert_eq!(depth[0].qty, 15);
    assert_eq!(depth[0].order_count, 2);
    assert_eq!(depth[1].price, 101);
    assert_eq!(depth[1].qty, 20);
}

#[test]
fn book_uncrossed_invariant() {
    let mut book = OrderBook::new(1);
    book.bids.insert(100, 1, 10);
    book.asks.insert(101, 2, 10);
    assert!(book.is_uncrossed());

    // Crossed book
    book.asks.insert(99, 3, 10);
    assert!(!book.is_uncrossed());
}

#[test]
fn keys_sort_from_best_to_worst() {
    let bids = BookSide::new_bids();
    let asks = BookSide::new_asks();
    assert_eq!(bids.key(100), u64::MAX - 100);
    assert_eq!(asks.key(100), 100);
    assert!(bids.key(102) < bids.key(100));
    assert!(asks.key(98) < asks.key(100));
    assert_eq!(bids.price_from_key(bids.key(77)), 77);
    assert_eq!(asks.price_from_key(asks.key(77)), 77);
}

#[test]
fn remove_of_an_absent_order_changes_nothing() {
    let mut bids = BookSide::new_bids();
    bids.insert(100, 1, 10);
    assert!(!bids.remove(100, 2, 10));
    assert!(!bids.remove(101, 1, 10));
    assert_eq!(bids.total_qty(), 10);
    assert_eq!(bids.level_count(), 1);
}

#[test]
fn pop_front_takes_the_oldest_order_of_the_best_level() {
    let mut asks = BookSide::new_asks();
    asks.insert(101, 3, 5);
    asks.insert(100, 1, 10);
    asks.insert(100, 2, 20);
    assert_eq!(asks.pop_front(), Some((100, 1)));
    assert_eq!(asks.best().unwrap().1.total_qty, 30);
    assert_eq!(asks.pop_front(), Some((100, 2)));
    assert_eq!(asks.pop_front(), Some((101, 3)));
    assert_eq!(asks.pop_front(), None);
    assert!(asks.is_empty());
}

#[test]
fn reduce_qty_stops_at_zero() {
    let mut asks = BookSide::new_asks();
    asks.insert(100, 1, 10);
    asks.reduce_qty(100, 4);
    assert_eq!(asks.best().unwrap().1.total_qty, 6);
    asks.reduce_qty(100, 40);
    assert_eq!(asks.best().unwrap().1.total_qty, 0);
    asks.reduce_qty(99, 1);
    assert_eq!(asks.level_count(), 1);
}

#[test]
fn depth_of_bids_runs_downwards() {
    let mut bids = BookSide::new_bids();
    bids.insert(99, 1, 10);
    bids.insert(101, 2, 5);
    bids.insert(100, 3, 7);
    let prices: Vec<u64> = bids.depth(10).iter().map(|row| row.price).collect();
    assert_eq!(prices, vec![101, 100, 99]);
    assert_eq!(bids.depth(0).len(), 0);
    assert_eq!(bids.total_qty(), 22);
}

#[test]
fn defaults_are_empty() {
    assert_eq!(PriceLevel::default().total_qty, 0);
    assert!(PriceLevel::default().orders.is_empty());
    assert_eq!(SideTag::default(), SideTag::Bid);
    assert!(BookSide::default().is_empty());
}

#[test]
fn a_fresh_book_is_consistent_and_a_tampered_one_is_not() {
    let mut book = OrderBook::new(1);
    assert!(book.is_consistent());
    assert!(book.has_room(u64::MAX));
    // An order in a queue that is not on record.
    book.bids.insert(100, 1, 10);
    assert!(!book.is_consistent());
}
