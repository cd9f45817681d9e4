//! Checks that an order book read from outside keeps the book's invariant.
use crate::book;
use crate::book::{BookSide, LevelView, OrderBook, PriceLevel, SideTag};
use crate::model;
use crate::quantities;
use crate::ranking;
use crate::types::{OrderCondition, OrderId, OrderState, OrderType, Qty, Side, TimeInForce};
use std::collections::HashMap;
use vstd::prelude::*;

verus! {

/// Whether an order is open and rests at a key of a side.
fn rests_at(orders: &HashMap<OrderId, OrderState>, id: OrderId, side: Side, key: u64) -> (rests: bool)
    ensures
        rests == model::rests_at(orders@, id, side, key),
{
    match orders.get(&id) {
        Some(order) => {
            let rank = match side {
                Side::Buy => u64::MAX - order.price,
                Side::Sell => order.price,
            };
            order.is_open && order.side == side && rank == key && order.order_type
                == OrderType::Limit && order.tif == TimeInForce::GTC && order.condition
                != OrderCondition::Stop
        },
        None => false,
    }
}

/// The level's queue and quantity are consistent with the orders.
pub open spec fn level_consistent(
    level: LevelView,
    orders: Map<OrderId, OrderState>,
    side: Side,
    key: u64,
) -> bool {
    &&& model::queue_valid(level.orders, orders, side, key)
    &&& level.total_qty == model::queued_qty(level.orders, orders)
}

/// Whether an ID stands among the first `n` of a level's queue.
pub(crate) fn stands_before(level: &PriceLevel, id: OrderId, n: usize) -> (stands: bool)
    requires
        n <= level.orders@.len(),
    ensures
        stands == level.orders@.take(n as int).contains(id),
{
    let mut i: usize = 0;
    while i < n
        invariant
            i <= n <= level.orders@.len(),
            forall|j: int| 0 <= j < i ==> level.orders@[j] != id,
        decreases n - i,
    {
        if level.orders[i] == id {
            assert(level.orders@.take(n as int)[i as int] == id);
            return true;
        }
        i = i + 1;
    }
    false
}

/// Whether a level is consistent with the orders.
fn check_level(
    level: &PriceLevel,
    orders: &HashMap<OrderId, OrderState>,
    side: Side,
    key: u64,
) -> (consistent: bool)
    ensures
        consistent == level_consistent(level@, orders@, side, key),
{
    let ghost queue = level.orders@;
    if level.orders.len() == 0 {
        return false;
    }
    let mut left: Qty = level.total_qty;
    let mut i: usize = 0;
    assert(queue.take(0) =~= Seq::empty());
    while i < level.orders.len()
        invariant
            queue == level.orders@,
            i <= queue.len(),
            queue.len() > 0,
            left + model::queued_qty(queue.take(i as int), orders@) == level.total_qty,
            forall|j: int| 0 <= j < i ==> model::rests_at(orders@, #[trigger] queue[j], side, key),
            forall|a: int, b: int| 0 <= a < b < i ==> queue[a] != queue[b],
        decreases queue.len() - i,
    {
        let id = level.orders[i];
        if !rests_at(orders, id, side, key) {
            assert(!model::rests_at(orders@, queue[i as int], side, key));
            return false;
        }
        if stands_before(level, id, i) {
            proof {
                let j = choose|j: int|
                    0 <= j < queue.take(i as int).len() && queue.take(i as int)[j] == id;
                assert(queue[j] == queue[i as int]);
            }
            return false;
        }
        let open = orders.get(&id).unwrap().open_qty();
        proof {
            assert(queue.take(i + 1) =~= queue.take(i as int).push(id));
            quantities::lemma_qty_push(queue.take(i as int), orders@, id);
            quantities::lemma_prefix_qty(queue, orders@, i + 1);
            assert forall|a: int| 0 <= a < i implies queue[a] != queue[i as int] by {
                assert(queue.take(i as int)[a] == queue[a]);
            }
        }
        if open > left {
            return false;
        }
        left = left - open;
        i = i + 1;
    }
    assert(queue.take(i as int) =~= queue);
    left == 0
}

/// Whether every level of a side is consistent with the orders.
fn check_side(
    book_side: &BookSide,
    orders: &HashMap<OrderId, OrderState>,
    side: Side,
) -> (consistent: bool)
    ensures
        consistent == (model::side_valid(book::queues(book_side@), orders@, side)
            && book::totals_agree(book_side@, orders@)),
{
    let entries = book_side.walk();
    let ghost levels = book_side@;
    let ghost keys = ranking::ascending(levels);
    let mut i: usize = 0;
    while i < entries.len()
        invariant
            i <= entries@.len() == keys.len(),
            levels == book_side@,
            forall|j: int|
                #![trigger entries@[j]]
                0 <= j < entries@.len() ==> {
                    &&& entries@[j].0 == keys[j]
                    &&& book_side.levels@.contains_key(entries@[j].0)
                    &&& entries@[j].1@ == levels[entries@[j].0]
                },
            forall|j: int|
                0 <= j < i ==> level_consistent(
                    levels[#[trigger] keys[j]],
                    orders@,
                    side,
                    keys[j],
                ),
        decreases entries@.len() - i,
    {
        let key = entries[i].0;
        if !check_level(entries[i].1, orders, side, key) {
            assert(entries@[i as int].1@ == levels[key]);
            assert(levels.contains_key(key));
            assert(book::queues(levels).contains_key(key));
            return false;
        }
        i = i + 1;
    }
    proof {
        ranking::lemma_ascending(levels);
        assert(book::queues(levels).dom() =~= levels.dom());
        assert forall|key: u64| levels.contains_key(key) implies #[trigger] level_consistent(
            levels[key],
            orders@,
            side,
            key,
        ) by {
            assert(keys.contains(key));
            let j = choose|j: int| 0 <= j < keys.len() && keys[j] == key;
            assert(level_consistent(levels[keys[j]], orders@, side, keys[j]));
        }
        assert forall|key: u64| #[trigger]
            book::queues(levels).contains_key(key) implies model::queue_valid(
            book::queues(levels)[key],
            orders@,
            side,
            key,
        ) by {
            assert(level_consistent(levels[key], orders@, side, key));
        }
        assert forall|key: u64| #[trigger] levels.contains_key(key) implies levels[key].total_qty
            == model::queued_qty(levels[key].orders, orders@) by {
            assert(level_consistent(levels[key], orders@, side, key));
        }
    }
    true
}

impl OrderBook {
    /// Whether an order stands in the queue of its side and price.
    fn is_queued(&self, order: &OrderState, id: OrderId) -> (queued: bool)
        requires
            self.bids.side == SideTag::Bid,
            self.asks.side == SideTag::Ask,
        ensures
            queued == model::queue_at(
                self@.side(order.side),
                book::rank(order.side, order.price),
            ).contains(id),
    {
        let book_side = match order.side {
            Side::Buy => &self.bids,
            Side::Sell => &self.asks,
        };
        let key = book_side.key(order.price);
        assert(book::queues(book_side@) == self@.side(order.side));
        match book_side.levels.get(&key) {
            Some(level) => {
                assert(book_side@.contains_key(key));
                assert(self@.side(order.side)[key] == level.orders@);
                assert(level.orders@.take(level.orders@.len() as int) =~= level.orders@);
                stands_before(level, id, level.orders.len())
            },
            None => {
                assert(!book_side@.contains_key(key));
                false
            },
        }
    }

    /// Whether an ID is among the first `n` waiting orders.
    pub(crate) fn is_waiting(&self, id: OrderId, n: usize) -> (waits: bool)
        requires
            n <= self.waiting@.len(),
        ensures
            waits == self.waiting@.take(n as int).contains(id),
    {
        let mut i: usize = 0;
        while i < n
            invariant
                i <= n <= self.waiting@.len(),
                forall|j: int| 0 <= j < i ==> self.waiting@[j] != id,
            decreases n - i,
        {
            if self.waiting[i] == id {
                assert(self.waiting@.take(n as int)[i as int] == id);
                return true;
            }
            i = i + 1;
        }
        false
    }

    /// Whether an order is consistent with the queues and the waiting orders.
    fn check_order(&self, order: &OrderState, id: OrderId) -> (consistent: bool)
        requires
            self.bids.side == SideTag::Bid,
            self.asks.side == SideTag::Ask,
            self.orders@.contains_key(id),
            *order == self.orders@[id],
        ensures
            consistent == model::order_valid(self@, id),
    {
        assert(self.waiting@.take(self.waiting@.len() as int) =~= self.waiting@);
        if order.order_id != id || order.filled_qty > order.original_qty {
            return false;
        }
        if !order.is_open {
            return true;
        }
        if order.open_qty() == 0 {
            return false;
        }
        self.is_queued(order, id) || self.is_waiting(id, self.waiting.len())
    }

    /// Whether every order is consistent with the queues and the waiting orders.
    fn check_orders(&self) -> (consistent: bool)
        requires
            self.bids.side == SideTag::Bid,
            self.asks.side == SideTag::Ask,
        ensures
            consistent == (forall|id: OrderId| #[trigger]
                self@.orders.contains_key(id) ==> model::order_valid(self@, id)),
    {
        broadcast use vstd::std_specs::hash::group_hash_axioms;

        let source = self.orders.iter();
        let ghost seq = vstd::std_specs::iter::IteratorSpec::remaining(&source);
        for entry in iter: source
            invariant
                iter.seq() == seq,
                self.bids.side == SideTag::Bid,
                self.asks.side == SideTag::Ask,
                forall|j: int|
                    0 <= j < seq.len() ==> self.orders@.contains_key(*(#[trigger] seq[j]).0)
                        && self.orders@[*seq[j].0] == *seq[j].1,
                forall|j: int|
                    0 <= j < iter.index() ==> model::order_valid(self@, *(#[trigger] seq[j]).0),
        {
            let id = *entry.0;
            if !self.check_order(entry.1, id) {
                assert(self@.orders.contains_key(id));
                return false;
            }
        }
        assert forall|id: OrderId| #[trigger]
            self@.orders.contains_key(id) implies model::order_valid(self@, id) by {
            assert(seq.contains((&id, &self.orders@[id])));
            let j = choose|j: int| 0 <= j < seq.len() && seq[j] == (&id, &self.orders@[id]);
            assert(model::order_valid(self@, *seq[j].0));
        }
        true
    }

    /// Whether an order waits as a waiting order does.
    fn check_waits(&self, id: OrderId) -> (consistent: bool)
        requires
            self.bids.side == SideTag::Bid,
            self.asks.side == SideTag::Ask,
        ensures
            consistent == model::waits(self@, id),
    {
        match self.orders.get(&id) {
            Some(order) => {
                let may_wait = match order.condition {
                    OrderCondition::Stop => true,
                    OrderCondition::AON => order.order_type == OrderType::Limit && order.tif
                        == TimeInForce::GTC,
                    OrderCondition::Unconditional => false,
                };
                may_wait && order.is_open && order.filled_qty == 0 && !self.is_queued(order, id)
            },
            None => false,
        }
    }

    /// Whether the waiting orders are distinct and each of them waits.
    fn check_waiting(&self) -> (consistent: bool)
        requires
            self.bids.side == SideTag::Bid,
            self.asks.side == SideTag::Ask,
        ensures
            consistent == model::waiting_valid(self@),
    {
        let ghost waiting = self.waiting@;
        let mut i: usize = 0;
        while i < self.waiting.len()
            invariant
                self.bids.side == SideTag::Bid,
                self.asks.side == SideTag::Ask,
                waiting == self.waiting@,
                i <= waiting.len(),
                forall|a: int, b: int| 0 <= a < b < i ==> waiting[a] != waiting[b],
                forall|j: int| 0 <= j < i ==> model::waits(self@, #[trigger] waiting[j]),
            decreases waiting.len() - i,
        {
            let id = self.waiting[i];
            assert(self@.waiting[i as int] == id);
            if !self.check_waits(id) {
                return false;
            }
            if self.is_waiting(id, i) {
                proof {
                    let j = choose|j: int|
                        0 <= j < waiting.take(i as int).len() && waiting.take(i as int)[j] == id;
                    assert(waiting[j] == waiting[i as int]);
                }
                return false;
            }
            assert forall|a: int| 0 <= a < i implies waiting[a] != waiting[i as int] by {
                assert(waiting.take(i as int)[a] == waiting[a]);
            }
            i = i + 1;
        }
        true
    }

    /// Whether the book keeps its invariant.
    pub fn is_consistent(&self) -> (consistent: bool)
        ensures
            consistent == self.wf(),
    {
        if self.bids.side != SideTag::Bid || self.asks.side != SideTag::Ask {
            return false;
        }
        check_side(&self.bids, &self.orders, Side::Buy) && check_side(
            &self.asks,
            &self.orders,
            Side::Sell,
        ) && self.check_orders() && self.check_waiting()
    }
}

} // verus!
