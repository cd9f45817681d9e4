//! Whether a command can be processed, found by trying it on a copy of the book.
//!
//! A command that makes a level's quantity exceed the largest `Qty` cannot be processed. The trial
//! looks at the level in which an order is about to rest each time before it does.
use crate::book;
use crate::book::{BookSide, OrderBook, PriceLevel};
use crate::capacity;
use crate::matcher::MatchingEngine;
use crate::model;
use crate::model::{BookModel, Step};
use crate::ranking;
use crate::types::{
    Command, CommandPayload, EngineEvent, NewOrder, OrderCondition, OrderState, OrderType, Price,
    Qty, ReplaceOrder, SeqNo, Side, TimeInForce, MARKET_PRICE,
};
use crate::validity;
use std::collections::BTreeMap;
use vstd::prelude::*;

verus! {

/// A copy of a price level.
fn copy_level(level: &PriceLevel) -> (copy: PriceLevel)
    ensures
        copy@ == level@,
{
    let copy = PriceLevel { orders: level.orders.clone(), total_qty: level.total_qty };
    assert(copy.orders@ =~= level.orders@);
    copy
}

/// A copy of a book side.
fn copy_side(side: &BookSide) -> (copy: BookSide)
    ensures
        copy@ == side@,
        copy.side == side.side,
{
    let entries = side.walk();
    let ghost keys = ranking::ascending(side@);
    let mut copy = BookSide { levels: BTreeMap::new(), side: side.side };
    let mut i: usize = 0;
    while i < entries.len()
        invariant
            i <= entries@.len() == keys.len(),
            copy.side == side.side,
            forall|j: int|
                #![trigger entries@[j]]
                0 <= j < entries@.len() ==> {
                    &&& entries@[j].0 == keys[j]
                    &&& entries@[j].1@ == side@[entries@[j].0]
                },
            forall|key: u64| #[trigger]
                copy@.contains_key(key) ==> keys.contains(key) && copy@[key] == side@[key],
            forall|j: int| 0 <= j < i ==> copy@.contains_key(#[trigger] keys[j]),
        decreases entries@.len() - i,
    {
        let key = entries[i].0;
        let level = copy_level(entries[i].1);
        let ghost before = copy@;
        copy.levels.insert(key, level);
        proof {
            assert(copy@ =~= before.insert(key, level@));
            assert(keys[i as int] == key);
            assert(keys.contains(key));
        }
        i = i + 1;
    }
    proof {
        ranking::lemma_ascending(side@);
        assert forall|key: u64| side@.contains_key(key) implies #[trigger] copy@.contains_key(
            key,
        ) by {
            assert(keys.contains(key));
            let j = choose|j: int| 0 <= j < keys.len() && keys[j] == key;
            assert(copy@.contains_key(keys[j]));
        }
        assert(copy@ =~= side@);
    }
    copy
}

/// A copy of a book.
pub(crate) fn copy_book(source: &OrderBook) -> (copy: OrderBook)
    requires
        source.wf(),
    ensures
        copy.wf(),
        copy@ == source@,
{
    let copy = OrderBook {
        symbol: source.symbol,
        bids: copy_side(&source.bids),
        asks: copy_side(&source.asks),
        orders: source.orders.clone(),
        waiting: source.waiting.clone(),
        last_seq_no: source.last_seq_no,
    };
    assert(copy.waiting@ =~= source.waiting@);
    assert(copy@ =~= source@);
    copy
}

impl OrderBook {
    /// Quantity at a price of a side.
    fn qty_at(&self, side: Side, price: Price) -> (qty: Qty)
        requires
            self.wf(),
        ensures
            qty == capacity::level_qty(self@, side, book::rank(side, price)),
    {
        let book_side = match side {
            Side::Buy => &self.bids,
            Side::Sell => &self.asks,
        };
        let key = book_side.key(price);
        assert(book::queues(book_side@) == self@.side(side));
        match book_side.levels.get(&key) {
            Some(level) => {
                assert(book_side@.contains_key(key));
                assert(self@.side(side)[key] == level.orders@);
                level.total_qty
            },
            None => {
                assert(!book_side@.contains_key(key));
                0
            },
        }
    }
}

impl MatchingEngine {
    /// Whether an order can enter without its level's quantity exceeding the largest `Qty`.
    fn entry_fits(&self, seq_no: SeqNo, order: &OrderState) -> (fit: bool)
        requires
            self.book.wf(),
            validity::off_book(self.book@, order.order_id),
            order.filled_qty == 0,
            order.original_qty > 0,
            order.condition != OrderCondition::Stop,
        ensures
            fit == model::fits(model::entered(self.book@, seq_no, *order).book),
    {
        proof {
            capacity::lemma_wf_fits(self.book);
            capacity::lemma_entered_fits(self.book@, seq_no, *order);
        }
        if order.order_type == OrderType::Market || order.tif != TimeInForce::GTC {
            return true;
        }
        let available = self.available_qty_at_or_better(order.side, order.price, order.order_type);
        let open = order.open_qty();
        if open <= available || (order.condition == OrderCondition::AON && available > 0) {
            return true;
        }
        self.book.qty_at(order.side, order.price) <= u64::MAX - (open - available)
    }

    /// Whether a new order can be processed, but for waiting orders that then enter.
    fn new_order_fits(&self, seq_no: SeqNo, order: &NewOrder) -> (fit: bool)
        requires
            self.book.wf(),
        ensures
            fit == model::fits(model::new_order(self.book@, seq_no, *order).book),
    {
        proof {
            capacity::lemma_wf_fits(self.book);
        }
        if order.qty == 0 || (order.order_type == OrderType::Limit && order.price == MARKET_PRICE)
            || self.book.orders.contains_key(&order.order_id) {
            return true;
        }
        let state = OrderState::from_new_order(order);
        proof {
            validity::lemma_new_order(self.book@, seq_no, *order);
        }
        if order.condition == OrderCondition::Stop {
            proof {
                capacity::lemma_held_fits(self.book@, state);
            }
            return true;
        }
        self.entry_fits(seq_no, &state)
    }

    /// Whether a replace request can be processed, but for waiting orders that then enter.
    fn replace_fits(&self, replace: &ReplaceOrder) -> (fit: bool)
        requires
            self.book.wf(),
        ensures
            fit == (model::replace_flaw(self.book@, *replace) is None ==> model::fits(
                model::amended(self.book@, *replace),
            )),
    {
        let order = match self.book.orders.get(&replace.order_id) {
            Some(order) => *order,
            None => {
                return true;
            },
        };
        if !order.is_open || order.condition == OrderCondition::Stop || replace.new_qty == 0
            || replace.new_qty > order.original_qty || replace.new_price == MARKET_PRICE
            || replace.new_qty <= order.filled_qty {
            return true;
        }
        proof {
            capacity::lemma_wf_fits(self.book);
            capacity::lemma_amended_fits(self.book@, *replace);
            assert(self.book.waiting@.take(self.book.waiting@.len() as int)
                =~= self.book.waiting@);
        }
        if replace.new_price == order.price || self.book.is_waiting(
            replace.order_id,
            self.book.waiting.len(),
        ) {
            return true;
        }
        self.book.qty_at(order.side, replace.new_price) <= u64::MAX - (replace.new_qty
            - order.filled_qty)
    }

    /// Lets waiting orders enter as long as they fit, and says whether all did.
    fn try_waiting(&mut self, seq_no: SeqNo, events: &mut Vec<EngineEvent>) -> (fit: bool)
        requires
            old(self).book.wf(),
        ensures
            final(self).book.wf(),
            fit == model::cascade_fits(
                (Step { book: old(self).book@, events: old(events)@ }),
                seq_no,
            ),
            fit ==> (Step { book: final(self).book@, events: final(events)@ }) == model::cascaded(
                (Step { book: old(self).book@, events: old(events)@ }),
                seq_no,
            ),
    {
        let ghost first = Step { book: self.book@, events: events@ };
        loop
            invariant
                first == (Step { book: old(self).book@, events: old(events)@ }),
                self.book.wf(),
                model::cascade_fits(first, seq_no) == model::cascade_fits(
                    (Step { book: self.book@, events: events@ }),
                    seq_no,
                ),
                model::cascaded(first, seq_no) == model::cascaded(
                    (Step { book: self.book@, events: events@ }),
                    seq_no,
                ),
            ensures
                model::next_ready(self.book@, events@, 0) == self.book@.waiting.len(),
            decreases self.book@.waiting.len(),
        {
            let i = match self.next_ready(events) {
                Some(i) => i,
                None => {
                    break;
                },
            };
            let ghost start = self.book@;
            let ghost emitted = events@;
            let ghost next = model::activated(start, seq_no, i as int);
            proof {
                validity::lemma_cascade_step(Step { book: start, events: emitted }, seq_no);
            }
            let state = self.release(i);
            if !self.entry_fits(seq_no, &state) {
                assert(!model::cascade_fits((Step { book: start, events: emitted }), seq_no));
                return false;
            }
            self.enter_order(seq_no, state, events);
            proof {
                assert(BookModel { waiting: start.waiting.remove(i as int), ..next.book }
                    == next.book);
                assert(events@ == emitted + next.events);
            }
        }
        true
    }

    /// Processes a command as long as it fits, and says whether it did.
    pub(crate) fn try_process(&mut self, cmd: &Command) -> (fit: bool)
        requires
            old(self).book.wf(),
        ensures
            final(self).book.wf(),
            fit == model::command_fits(old(self).book@, *cmd),
            fit ==> final(self).book@ == model::processed(old(self).book@, *cmd).book,
    {
        let ghost start = self.book@;
        proof {
            validity::lemma_renumbered(start, cmd.seq_no);
        }
        self.book.last_seq_no = cmd.seq_no;
        let ghost renumbered = self.book@;
        assert(renumbered == BookModel { last_seq_no: cmd.seq_no, ..start });
        proof {
            capacity::lemma_wf_fits(self.book);
        }
        let mut events: Vec<EngineEvent> = Vec::new();
        match &cmd.payload {
            CommandPayload::New(order) => {
                if !self.new_order_fits(cmd.seq_no, order) {
                    return false;
                }
                self.process_new_order(cmd.seq_no, order, &mut events);
            },
            CommandPayload::Cancel(cancel) => {
                proof {
                    capacity::lemma_canceled_fits(renumbered, cmd.seq_no, *cancel);
                }
                self.process_cancel(cmd.seq_no, cancel, &mut events);
            },
            CommandPayload::Replace(replace) => {
                proof {
                    assert(model::replace_flaw(renumbered, *replace) == model::replace_flaw(
                        start,
                        *replace,
                    ));
                    let a = model::amended(start, *replace);
                    let b = model::amended(renumbered, *replace);
                    assert(a.bids == b.bids && a.asks == b.asks && a.orders == b.orders);
                }
                if !self.replace_fits(replace) {
                    return false;
                }
                proof {
                    capacity::lemma_replaced_fits(renumbered, cmd.seq_no, *replace);
                }
                self.process_replace(cmd.seq_no, replace, &mut events);
            },
        }
        assert(events@ =~= model::applied(start, *cmd).events);
        self.try_waiting(cmd.seq_no, &mut events)
    }

    /// Whether a command can be processed without a level's quantity exceeding the largest `Qty`.
    pub fn has_room_for(&self, cmd: &Command) -> (room: bool)
        requires
            self.book.wf(),
        ensures
            room == model::command_fits(self.book@, *cmd),
    {
        let qty = capacity::quantity_of(cmd);
        if self.book.has_room(qty) {
            proof {
                capacity::law_capacity(self.book@, *cmd, u64::MAX - qty);
            }
            return true;
        }
        let mut engine = MatchingEngine { book: copy_book(&self.book) };
        engine.try_process(cmd)
    }
}

} // verus!
