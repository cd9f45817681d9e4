//! Matching engine: processes commands against the order book.
//!
//! Orders match in price-time priority at the resting order's price. Market, immediate-or-cancel
//! and fill-or-kill orders never rest. An all-or-none order is filled entirely when it enters, or
//! it rests or is rejected; one that would cross the opposite side waits off the book until it can
//! be filled entirely or no longer crosses. Stop orders wait until a trade at or through their
//! stop price and then enter as their underlying type.
use crate::book;
use crate::book::{LevelView, OrderBook};
use crate::liquidity;
use crate::model;
use crate::model::{BookModel, Step};
use crate::quantities;
use crate::ranking;
use crate::types::{
    CancelOrder, Command, CommandPayload, EngineEvent, Fill, NewOrder, OrderCondition, OrderId,
    OrderState, OrderType, Price, Qty, RejectReason, ReplaceOrder, SeqNo, Side, Symbol, TimeInForce,
    MARKET_PRICE,
};
use crate::validity;
use vstd::prelude::*;

verus! {

/// Result of processing one command.
pub struct MatchResult {
    pub events: Vec<EngineEvent>,
}

/// The matching engine of one symbol.
pub struct MatchingEngine {
    pub book: OrderBook,
}

impl MatchingEngine {
    /// Creates an engine with an empty book.
    pub fn new(symbol: Symbol) -> (engine: MatchingEngine)
        ensures
            engine.book.wf(),
            engine.book@ == BookModel::fresh(symbol),
    {
        MatchingEngine { book: OrderBook::new(symbol) }
    }

    /// Trades the aggressor against the front order of the opposite side, if it may.
    fn trade_front(&mut self, aggressor: &mut OrderState) -> (fill: Option<Fill>)
        requires
            old(self).book.wf(),
            old(aggressor).filled_qty <= old(aggressor).original_qty,
        ensures
            final(self).book.wf(),
            ({
                let taker = *old(aggressor);
                let levels = old(self).book@.side(taker.side.other());
                let orders = old(self).book@.orders;
                if model::can_trade(levels, orders, taker) {
                    &&& fill == Some(model::next_fill(levels, orders, taker))
                    &&& *final(aggressor) == model::next_taker(levels, orders, taker)
                    &&& final(self).book@ == model::after_fill(old(self).book@, taker)
                } else {
                    &&& fill is None
                    &&& *final(aggressor) == taker
                    &&& *final(self) == *old(self)
                }
            }),
    {
        let side = aggressor.side;
        let ghost start = self.book;
        let ghost taker = *aggressor;
        let ghost before = self.book.side_of(side.other())@;
        let ghost levels = self.book@.side(side.other());
        proof {
            book::lemma_best(before);
        }
        if aggressor.open_qty() == 0 {
            return None;
        }
        let resting_price = match self.book.opposite_side(side).best() {
            Some((price, _)) => price,
            None => return None,
        };
        let ghost key = ranking::least(levels);
        assert(book::rank(side.other(), resting_price) == key);
        if aggressor.order_type == OrderType::Limit {
            match side {
                Side::Buy => {
                    if aggressor.price < resting_price {
                        return None;
                    }
                },
                Side::Sell => {
                    if aggressor.price > resting_price {
                        return None;
                    }
                },
            }
        }
        proof {
            validity::lemma_front(levels, start@.orders, side.other());
            assert(model::order_valid(start@, model::front(levels)));
            assert(model::can_trade(levels, start@.orders, taker));
        }
        let maker_id = match self.book.opposite_side_mut(side).pop_front() {
            Some((_, order_id)) => order_id,
            None => return None,
        };
        let mut maker = *self.book.orders.get(&maker_id).unwrap();
        let maker_open = maker.open_qty();
        let aggressor_open = aggressor.open_qty();
        let fill_qty = if aggressor_open <= maker_open {
            aggressor_open
        } else {
            maker_open
        };
        maker.filled_qty = maker.filled_qty + fill_qty;
        let maker_complete = maker.open_qty() == 0;
        if maker_complete {
            maker.is_open = false;
        }
        self.book.orders.insert(maker_id, maker);
        let opposite = self.book.opposite_side_mut(side);
        opposite.reduce_qty(resting_price, fill_qty);
        if !maker_complete {
            opposite.restore_front(resting_price, maker_id, maker.open_qty());
        }
        aggressor.filled_qty = aggressor.filled_qty + fill_qty;
        let fill = Fill {
            maker_order_id: maker_id,
            taker_order_id: aggressor.order_id,
            price: resting_price,
            qty: fill_qty,
            maker_filled_completely: maker_complete,
            taker_filled_completely: aggressor.open_qty() == 0,
        };
        proof {
            let after = self.book.side_of(side.other())@;
            let level = before[key];
            if maker_complete {
                assert(after =~= book::with_level(
                    before,
                    key,
                    LevelView {
                        orders: level.orders.drop_first(),
                        total_qty: book::monus(level.total_qty, fill_qty),
                    },
                ));
            } else {
                assert(after =~= before.insert(
                    key,
                    LevelView {
                        orders: seq![level.orders[0]] + level.orders.drop_first(),
                        total_qty: if level.orders.len() > 1 {
                            book::monus(level.total_qty, fill_qty)
                        } else {
                            (maker_open - fill_qty) as u64
                        },
                    },
                ));
            }
            lemma_after_fill(start, taker, after);
            assert(self.book.side_of(side) == start.side_of(side));
            assert(self.book@ =~= model::after_fill(start@, taker));
        }
        Some(fill)
    }
}

impl MatchingEngine {
    /// Matches the aggressor against the opposite side of the book.
    fn match_order(&mut self, aggressor: &mut OrderState, events: &mut Vec<EngineEvent>)
        requires
            old(self).book.wf(),
            old(aggressor).filled_qty <= old(aggressor).original_qty,
        ensures
            final(self).book.wf(),
            final(self).book@ == model::swept(old(self).book@, *old(aggressor)),
            ({
                let taker = *old(aggressor);
                let out = model::sweep(
                    old(self).book@.side(taker.side.other()),
                    old(self).book@.orders,
                    taker,
                );
                &&& *final(aggressor) == out.taker
                &&& final(events)@ == old(events)@ + model::trades(out.fills)
            }),
    {
        let ghost start = self.book@;
        let ghost taker = *aggressor;
        let ghost side = taker.side.other();
        let ghost out = model::sweep(start.side(side), start.orders, taker);
        let ghost emitted = events@;
        loop
            invariant
                self.book.wf(),
                aggressor.filled_qty <= aggressor.original_qty,
                aggressor.side.other() == side,
                model::swept(self.book@, *aggressor) == model::swept(start, taker),
                ({
                    let rest = model::sweep(self.book@.side(side), self.book@.orders, *aggressor);
                    &&& rest.taker == out.taker
                    &&& events@ + model::trades(rest.fills) == emitted + model::trades(out.fills)
                }),
            ensures
                !model::can_trade(self.book@.side(side), self.book@.orders, *aggressor),
            decreases aggressor.open(),
        {
            let ghost levels = self.book@.side(side);
            let ghost orders = self.book@.orders;
            let ghost current = *aggressor;
            let ghost before = events@;
            let ghost rest = model::sweep(levels, orders, current);
            proof {
                if model::can_trade(levels, orders, current) {
                    validity::lemma_front(levels, orders, side);
                    assert(model::order_valid(self.book@, model::front(levels)));
                }
            }
            match self.trade_front(aggressor) {
                Some(fill) => {
                    events.push(EngineEvent::Trade(fill));
                    proof {
                        let later = model::sweep(
                            self.book@.side(side),
                            self.book@.orders,
                            *aggressor,
                        );
                        assert(rest.fills == seq![fill] + later.fills);
                        assert(events@ + model::trades(later.fills) =~= before + model::trades(
                            rest.fills,
                        ));
                    }
                },
                None => {
                    break;
                },
            }
        }
        assert(model::swept(self.book@, *aggressor) =~= self.book@);
        assert(events@ + model::trades(Seq::empty()) =~= events@);
    }

    /// Quantity on the opposite side at the given price or better, capped at the largest
    /// quantity.
    pub(crate) fn available_qty_at_or_better(
        &self,
        aggressor_side: Side,
        price: Price,
        order_type: OrderType,
    ) -> (total: Qty)
        requires
            self.book.wf(),
        ensures
            ({
                let sum = model::available(
                    self.book@.side(aggressor_side.other()),
                    self.book@.orders,
                    model::reach_of(order_type, aggressor_side, price),
                );
                total == if sum <= u64::MAX {
                    sum
                } else {
                    u64::MAX as nat
                }
            }),
    {
        let opposite = self.book.opposite_side(aggressor_side);
        let entries = opposite.walk();
        let ghost levels = self.book@.side(aggressor_side.other());
        let ghost keys = ranking::ascending(levels);
        let ghost reach = model::reach_of(order_type, aggressor_side, price);
        let ghost orders = self.book@.orders;
        let ghost sum = model::available(levels, orders, reach);
        proof {
            book::lemma_best(opposite@);
            ranking::lemma_ascending_same_keys(opposite@, levels);
            assert(keys.skip(0) =~= keys);
        }
        let mut total: Qty = 0;
        let ghost mut so_far: nat = 0;
        let mut i: usize = 0;
        while i < entries.len()
            invariant
                i <= entries@.len() == keys.len(),
                *opposite == self.book.side_of(aggressor_side.other()),
                levels == self.book@.side(aggressor_side.other()),
                orders == self.book@.orders,
                self.book.wf(),
                levels == book::queues(opposite@),
                reach == model::reach_of(order_type, aggressor_side, price),
                sum == model::available(levels, orders, reach),
                sum == so_far + model::qty_within(keys.skip(i as int), levels, orders, reach),
                total == if so_far <= u64::MAX {
                    so_far
                } else {
                    u64::MAX as nat
                },
                forall|j: int|
                    #![trigger entries@[j]]
                    0 <= j < entries@.len() ==> {
                        &&& entries@[j].0 == keys[j]
                        &&& opposite.levels@.contains_key(entries@[j].0)
                        &&& entries@[j].1@ == opposite@[entries@[j].0]
                    },
            decreases entries@.len() - i,
        {
            let level_price = opposite.price_from_key(entries[i].0);
            let ghost tail = keys.skip(i as int);
            proof {
                assert(entries@[i as int].0 == keys[i as int]);
                assert(tail[0] == keys[i as int]);
                assert(tail.drop_first() =~= keys.skip(i + 1));
                assert(opposite@.contains_key(keys[i as int]));
            }
            if order_type == OrderType::Limit {
                match aggressor_side {
                    Side::Buy => {
                        if level_price > price {
                            return total;
                        }
                    },
                    Side::Sell => {
                        if level_price < price {
                            return total;
                        }
                    },
                }
            }
            proof {
                so_far = so_far + model::queued_qty(levels[keys[i as int]], orders);
            }
            total = total.saturating_add(entries[i].1.total_qty);
            i = i + 1;
        }
        total
    }
}

impl MatchingEngine {
    /// Records an order that is not on the book as closed.
    fn record_closed(&mut self, state: OrderState)
        requires
            old(self).book.wf(),
            validity::off_book(old(self).book@, state.order_id),
            state.filled_qty <= state.original_qty,
        ensures
            final(self).book.wf(),
            final(self).book@ == model::recorded(old(self).book@, state, false),
    {
        let mut state = state;
        state.is_open = false;
        let ghost start = self.book;
        self.book.orders.insert(state.order_id, state);
        proof {
            validity::lemma_off_book(start@, state.order_id);
            validity::lemma_recorded_closed(start@, state);
            lemma_absent(start, state.order_id);
            lemma_totals_frame(start.bids@, start.orders@, state.order_id, state);
            lemma_totals_frame(start.asks@, start.orders@, state.order_id, state);
            assert(self.book@ =~= model::recorded(start@, state, false));
        }
    }

    /// Rests an order at the back of its price level.
    fn rest_order(&mut self, state: OrderState)
        requires
            old(self).book.wf(),
            validity::off_book(old(self).book@, state.order_id),
            state.filled_qty < state.original_qty,
            state.order_type == OrderType::Limit,
            state.tif == TimeInForce::GTC,
            state.condition != OrderCondition::Stop,
            model::fits(model::rested(old(self).book@, state)),
        ensures
            final(self).book.wf(),
            final(self).book@ == model::rested(old(self).book@, state),
    {
        let mut state = state;
        state.is_open = true;
        let ghost start = self.book;
        let ghost next = model::rested(start@, state);
        let ghost id = state.order_id;
        let ghost key = book::rank(state.side, state.price);
        let ghost before = start.side_of(state.side)@;
        proof {
            validity::lemma_off_book(start@, id);
            validity::lemma_rested(start@, state);
            lemma_absent(start, id);
            lemma_totals_frame(start.bids@, start.orders@, id, state);
            lemma_totals_frame(start.asks@, start.orders@, id, state);
            let queue = model::queue_at(start@.side(state.side), key);
            quantities::lemma_qty_push(queue, next.orders, id);
            assert(next.side(state.side).contains_key(key));
            assert(queue =~= book::level_at(before, key).orders);
            assert(book::level_at(before, key).total_qty == model::queued_qty(queue, next.orders));
        }
        self.book.side_mut(state.side).insert(state.price, state.order_id, state.open_qty());
        self.book.orders.insert(state.order_id, state);
        proof {
            let after = self.book.side_of(state.side)@;
            assert(book::queues(after) =~= next.side(state.side));
            assert(book::totals_agree(after, next.orders));
            assert(self.book@ =~= next);
        }
    }

    /// Lets an order wait off both sides.
    fn hold_order(&mut self, state: OrderState)
        requires
            old(self).book.wf(),
            validity::off_book(old(self).book@, state.order_id),
            state.condition != OrderCondition::Unconditional,
            state.condition == OrderCondition::AON ==> state.order_type == OrderType::Limit
                && state.tif == TimeInForce::GTC,
            state.filled_qty == 0,
            state.original_qty > 0,
        ensures
            final(self).book.wf(),
            final(self).book@ == model::held(old(self).book@, state),
    {
        let mut state = state;
        state.is_open = true;
        let ghost start = self.book;
        self.book.orders.insert(state.order_id, state);
        self.book.waiting.push(state.order_id);
        proof {
            validity::lemma_held(start@, state);
            lemma_absent(start, state.order_id);
            lemma_totals_frame(start.bids@, start.orders@, state.order_id, state);
            lemma_totals_frame(start.asks@, start.orders@, state.order_id, state);
            assert(self.book@ =~= model::held(start@, state));
        }
    }

    /// Enters an accepted order: checks that it can be filled where it must be, matches it, and
    /// rests or closes the remainder.
    pub(crate) fn enter_order(
        &mut self,
        seq_no: SeqNo,
        state: OrderState,
        events: &mut Vec<EngineEvent>,
    )
        requires
            old(self).book.wf(),
            validity::off_book(old(self).book@, state.order_id),
            state.filled_qty == 0,
            state.original_qty > 0,
            state.condition != OrderCondition::Stop,
            model::fits(model::entered(old(self).book@, seq_no, state).book),
        ensures
            final(self).book.wf(),
            final(self).book@ == model::entered(old(self).book@, seq_no, state).book,
            final(events)@ == old(events)@ + model::entered(old(self).book@, seq_no, state).events,
    {
        let order_id = state.order_id;
        let ghost start = self.book@;
        let ghost initial = state;
        let ghost emitted = events@;
        if state.tif == TimeInForce::FOK {
            let available = self.available_qty_at_or_better(
                state.side,
                state.price,
                state.order_type,
            );
            if available < state.open_qty() {
                events.push(
                    EngineEvent::OrderRejected {
                        seq_no,
                        order_id,
                        reason: RejectReason::FOKNotFillable,
                    },
                );
                return;
            }
        }
        if state.condition == OrderCondition::AON {
            let available = self.available_qty_at_or_better(
                state.side,
                state.price,
                state.order_type,
            );
            if available < state.open_qty() {
                if state.tif == TimeInForce::IOC || state.order_type == OrderType::Market {
                    events.push(
                        EngineEvent::OrderRejected {
                            seq_no,
                            order_id,
                            reason: RejectReason::AONNotFillable,
                        },
                    );
                    return;
                }
                if available > 0 {
                    self.hold_order(state);
                } else {
                    self.rest_order(state);
                }
                assert(events@ + Seq::<EngineEvent>::empty() =~= events@);
                return;
            }
        }
        let ghost out = model::sweep(start.side(state.side.other()), start.orders, state);
        proof {
            validity::lemma_sweep(start, state);
            liquidity::lemma_sweep_fills(start, state);
        }
        let mut state = state;
        self.match_order(&mut state, events);
        assert(validity::off_book(self.book@, order_id));
        let remaining = state.open_qty();
        if remaining == 0 {
            self.record_closed(state);
            assert(model::trades(out.fills) + Seq::<EngineEvent>::empty() =~= model::trades(
                out.fills,
            ));
        } else if state.order_type == OrderType::Market {
            if state.filled_qty == 0 {
                events.push(
                    EngineEvent::OrderRejected {
                        seq_no,
                        order_id,
                        reason: RejectReason::NoLiquidity,
                    },
                );
            } else {
                events.push(
                    EngineEvent::OrderCanceled { seq_no, order_id, remaining_qty: remaining },
                );
            }
            self.record_closed(state);
        } else if state.tif == TimeInForce::IOC {
            events.push(EngineEvent::OrderCanceled { seq_no, order_id, remaining_qty: remaining });
            self.record_closed(state);
        } else {
            self.rest_order(state);
            assert(model::trades(out.fills) + Seq::<EngineEvent>::empty() =~= model::trades(
                out.fills,
            ));
        }
        assert(events@ =~= emitted + model::entered(start, seq_no, initial).events);
    }

    /// Processes a new order: validates it, then holds it if it is a stop order, or enters it.
    pub(crate) fn process_new_order(
        &mut self,
        seq_no: SeqNo,
        order: &NewOrder,
        events: &mut Vec<EngineEvent>,
    )
        requires
            old(self).book.wf(),
            model::fits(model::new_order(old(self).book@, seq_no, *order).book),
        ensures
            final(self).book.wf(),
            final(self).book@ == model::new_order(old(self).book@, seq_no, *order).book,
            final(events)@ == old(events)@ + model::new_order(
                old(self).book@,
                seq_no,
                *order,
            ).events,
    {
        let order_id = order.order_id;
        if order.qty == 0 {
            events.push(
                EngineEvent::OrderRejected {
                    seq_no,
                    order_id,
                    reason: RejectReason::InvalidQuantity,
                },
            );
            return;
        }
        if order.order_type == OrderType::Limit && order.price == MARKET_PRICE {
            events.push(
                EngineEvent::OrderRejected { seq_no, order_id, reason: RejectReason::InvalidPrice },
            );
            return;
        }
        if self.book.orders.contains_key(&order.order_id) {
            events.push(
                EngineEvent::OrderRejected {
                    seq_no,
                    order_id,
                    reason: RejectReason::DuplicateOrderId,
                },
            );
            return;
        }
        let ghost start = self.book;
        let ghost emitted = events@;
        events.push(EngineEvent::OrderAccepted { seq_no, order_id });
        let state = OrderState::from_new_order(order);
        proof {
            validity::lemma_new_order(start@, seq_no, *order);
        }
        if order.condition == OrderCondition::Stop {
            self.hold_order(state);
            assert(events@ =~= emitted + model::new_order(start@, seq_no, *order).events);
            return;
        }
        self.enter_order(seq_no, state, events);
        assert(events@ =~= emitted + model::new_order(start@, seq_no, *order).events);
    }
}

impl MatchingEngine {
    /// Takes an open order off the book or the list of waiting orders and records it as closed in
    /// the given state.
    fn close_order(&mut self, state: OrderState)
        requires
            old(self).book.wf(),
            old(self).book@.orders.contains_key(state.order_id),
            old(self).book@.orders[state.order_id].is_open,
            state.filled_qty <= state.original_qty,
            state.side == old(self).book@.orders[state.order_id].side,
            state.price == old(self).book@.orders[state.order_id].price,
            state.condition == old(self).book@.orders[state.order_id].condition,
        ensures
            final(self).book.wf(),
            final(self).book@ == model::recorded(
                model::withdrawn(old(self).book@, state),
                state,
                false,
            ),
    {
        let position = self.waiting_position(&state);
        let mut state = state;
        state.is_open = false;
        let order_id = state.order_id;
        let ghost start = self.book;
        let ghost next = model::recorded(model::withdrawn(start@, state), state, false);
        proof {
            validity::lemma_withdrawn_closed(start@, state);
        }
        match position {
            Some(i) => {
                self.book.waiting.remove(i);
                self.book.orders.insert(order_id, state);
                proof {
                    assert(self.book@ =~= next);
                    lemma_waiting_not_queued(start, order_id);
                    lemma_totals_frame(start.bids@, start.orders@, order_id, state);
                    lemma_totals_frame(start.asks@, start.orders@, order_id, state);
                }
            },
            None => {
                let resting = self.book.orders.get(&order_id).unwrap().open_qty();
                self.book.side_mut(state.side).remove(state.price, order_id, resting);
                self.book.orders.insert(order_id, state);
                proof {
                    lemma_after_remove(start, state, self.book.side_of(state.side)@, state);
                    assert(self.book@ =~= next);
                }
            },
        }
    }

    /// Position of an order on record among the waiting orders.
    fn waiting_position(&self, order: &OrderState) -> (position: Option<usize>)
        requires
            self.book.wf(),
            self.book@.orders.contains_key(order.order_id),
            self.book@.orders[order.order_id].condition == order.condition,
        ensures
            match position {
                Some(i) => {
                    &&& i < self.book@.waiting.len()
                    &&& self.book@.waiting[i as int] == order.order_id
                    &&& self.book@.waiting.contains(order.order_id)
                    &&& self.book@.waiting.remove_value(order.order_id)
                        == self.book@.waiting.remove(i as int)
                },
                None => !self.book@.waiting.contains(order.order_id),
            },
    {
        let ghost waiting = self.book@.waiting;
        if order.condition == OrderCondition::Unconditional {
            proof {
                validity::lemma_waiting(self.book@);
            }
            return None;
        }
        let mut i: usize = 0;
        while i < self.book.waiting.len()
            invariant
                waiting == self.book@.waiting,
                i <= waiting.len(),
                forall|j: int| 0 <= j < i ==> waiting[j] != order.order_id,
            decreases waiting.len() - i,
        {
            if self.book.waiting[i] == order.order_id {
                proof {
                    assert(waiting[i as int] == order.order_id);
                    waiting.index_of_first_ensures(order.order_id);
                }
                return Some(i);
            }
            i = i + 1;
        }
        None
    }

    /// Records a resting order with less open quantity, leaving it in its place.
    fn update_resting(&mut self, state: OrderState)
        requires
            old(self).book.wf(),
            old(self).book@.orders.contains_key(state.order_id),
            ({
                let order = old(self).book@.orders[state.order_id];
                &&& order.is_open
                &&& !old(self).book@.waiting.contains(state.order_id)
                &&& state.is_open
                &&& state.filled_qty < state.original_qty
                &&& state.open() <= order.open()
                &&& state.side == order.side
                &&& state.price == order.price
                &&& state.order_type == order.order_type
                &&& state.tif == order.tif
                &&& state.condition == order.condition
            }),
        ensures
            final(self).book.wf(),
            final(self).book@ == model::recorded(old(self).book@, state, true),
    {
        let order_id = state.order_id;
        let ghost start = self.book;
        let ghost levels = start@.side(state.side);
        let ghost key = book::rank(state.side, state.price);
        let ghost order = start@.orders[order_id];
        proof {
            validity::lemma_queued(start@, order_id);
            validity::lemma_recorded_open(start@, state);
        }
        let resting = self.book.orders.get(&order_id).unwrap().open_qty();
        self.book.side_mut(state.side).reduce_qty(state.price, resting - state.open_qty());
        self.book.orders.insert(order_id, state);
        proof {
            let after = self.book.side_of(state.side)@;
            let before = start.side_of(state.side)@;
            let next = model::recorded(start@, state, true);
            assert(before.contains_key(key));
            let i = choose|i: int| 0 <= i < levels[key].len() && levels[key][i] == order_id;
            quantities::lemma_qty_update(levels[key], start@.orders, i, state);
            quantities::lemma_qty_member(levels[key], start@.orders, i);
            assert(book::queues(after) =~= levels);
            assert forall|k: u64| #[trigger] after.contains_key(k) implies after[k].total_qty
                == model::queued_qty(after[k].orders, next.orders) by {
                if k != key {
                    assert(levels.contains_key(k));
                    liquidity::lemma_other_levels(
                        levels,
                        start@.orders,
                        state.side,
                        key,
                        order_id,
                        state,
                        k,
                    );
                }
            }
            lemma_opposite_frame(start, order_id, state);
            assert(self.book@ =~= next);
        }
    }
}

impl MatchingEngine {
    /// Processes a cancel request.
    pub(crate) fn process_cancel(
        &mut self,
        seq_no: SeqNo,
        cancel: &CancelOrder,
        events: &mut Vec<EngineEvent>,
    )
        requires
            old(self).book.wf(),
        ensures
            final(self).book.wf(),
            final(self).book@ == model::cancel_order(old(self).book@, seq_no, *cancel).book,
            final(events)@ == old(events)@ + model::cancel_order(
                old(self).book@,
                seq_no,
                *cancel,
            ).events,
    {
        let order_id = cancel.order_id;
        let state = match self.book.orders.get(&order_id) {
            Some(state) => *state,
            None => {
                events.push(
                    EngineEvent::CancelRejected {
                        seq_no,
                        order_id,
                        reason: RejectReason::UnknownOrder,
                    },
                );
                return;
            },
        };
        if !state.is_open {
            events.push(
                EngineEvent::CancelRejected {
                    seq_no,
                    order_id,
                    reason: RejectReason::NothingToCancel,
                },
            );
            return;
        }
        assert(model::order_valid(self.book@, order_id));
        self.close_order(state);
        events.push(
            EngineEvent::OrderCanceled { seq_no, order_id, remaining_qty: state.open_qty() },
        );
    }

    /// Amends price and quantity of a resting order.
    fn amend_order(&mut self, replace: &ReplaceOrder) -> (state: OrderState)
        requires
            old(self).book.wf(),
            model::replace_flaw(old(self).book@, *replace) is None,
            !old(self).book@.waiting.contains(replace.order_id),
            model::fits(model::amended(old(self).book@, *replace)),
        ensures
            final(self).book.wf(),
            final(self).book@ == model::amended(old(self).book@, *replace),
            state == final(self).book@.orders[replace.order_id],
    {
        let order_id = replace.order_id;
        let old_state = *self.book.orders.get(&order_id).unwrap();
        let mut state = old_state;
        state.original_qty = replace.new_qty;
        state.price = replace.new_price;
        let ghost start = self.book;
        let ghost next = model::amended(start@, *replace);
        proof {
            validity::lemma_queued(start@, order_id);
            validity::lemma_amended(start@, *replace);
        }
        if replace.new_price == old_state.price {
            self.update_resting(state);
        } else {
            let ghost key = book::rank(state.side, state.price);
            self.book.side_mut(state.side).remove(
                old_state.price,
                order_id,
                old_state.open_qty(),
            );
            let ghost between = self.book.side_of(state.side)@;
            proof {
                lemma_after_remove(start, old_state, between, state);
                let queue = model::queue_at(book::queues(between), key);
                quantities::lemma_qty_push(queue, next.orders, order_id);
                assert(next.side(state.side).contains_key(key));
                assert(queue =~= book::level_at(between, key).orders);
                assert(book::level_at(between, key).total_qty == model::queued_qty(
                    queue,
                    next.orders,
                ));
            }
            self.book.side_mut(state.side).insert(
                replace.new_price,
                order_id,
                state.open_qty(),
            );
            self.book.orders.insert(order_id, state);
            proof {
                let after = self.book.side_of(state.side)@;
                assert(book::queues(after) =~= next.side(state.side));
                assert(book::totals_agree(after, next.orders));
                assert(self.book@ =~= next);
            }
        }
        state
    }

    /// Amends price and quantity of an all-or-none order that waits.
    fn amend_waiting(&mut self, replace: &ReplaceOrder)
        requires
            old(self).book.wf(),
            model::replace_flaw(old(self).book@, *replace) is None,
            old(self).book@.waiting.contains(replace.order_id),
        ensures
            final(self).book.wf(),
            final(self).book@ == model::amended(old(self).book@, *replace),
    {
        let order_id = replace.order_id;
        let ghost start = self.book;
        let mut state = *self.book.orders.get(&order_id).unwrap();
        state.original_qty = replace.new_qty;
        state.price = replace.new_price;
        assert(model::order_valid(start@, order_id));
        self.book.orders.insert(order_id, state);
        proof {
            validity::lemma_amended(start@, *replace);
            lemma_waiting_not_queued(start, order_id);
            lemma_totals_frame(start.bids@, start.orders@, order_id, state);
            lemma_totals_frame(start.asks@, start.orders@, order_id, state);
            assert(self.book@ =~= model::amended(start@, *replace));
        }
    }

    /// Processes a replace request.
    ///
    /// - The order must rest on the book, or wait as an all-or-none order.
    /// - The quantity can only be reduced, and must stay above what is already filled.
    /// - A price change loses time priority; a quantity reduction alone keeps it.
    /// - If the new price crosses the opposite side, the order is matched.
    pub(crate) fn process_replace(
        &mut self,
        seq_no: SeqNo,
        replace: &ReplaceOrder,
        events: &mut Vec<EngineEvent>,
    )
        requires
            old(self).book.wf(),
            model::replace_flaw(old(self).book@, *replace) is None ==> model::fits(
                model::amended(old(self).book@, *replace),
            ),
        ensures
            final(self).book.wf(),
            final(self).book@ == model::replace_order(old(self).book@, seq_no, *replace).book,
            final(events)@ == old(events)@ + model::replace_order(
                old(self).book@,
                seq_no,
                *replace,
            ).events,
    {
        let order_id = replace.order_id;
        let state = match self.book.orders.get(&order_id) {
            Some(state) => *state,
            None => {
                events.push(
                    EngineEvent::ReplaceRejected {
                        seq_no,
                        order_id,
                        reason: RejectReason::UnknownOrder,
                    },
                );
                return;
            },
        };
        if !state.is_open || state.condition == OrderCondition::Stop {
            events.push(
                EngineEvent::ReplaceRejected {
                    seq_no,
                    order_id,
                    reason: RejectReason::NothingToCancel,
                },
            );
            return;
        }
        if replace.new_qty == 0 {
            events.push(
                EngineEvent::ReplaceRejected {
                    seq_no,
                    order_id,
                    reason: RejectReason::InvalidQuantity,
                },
            );
            return;
        }
        if replace.new_qty > state.original_qty {
            events.push(
                EngineEvent::ReplaceRejected {
                    seq_no,
                    order_id,
                    reason: RejectReason::ReplaceQtyIncrease,
                },
            );
            return;
        }
        if replace.new_price == MARKET_PRICE {
            events.push(
                EngineEvent::ReplaceRejected {
                    seq_no,
                    order_id,
                    reason: RejectReason::InvalidPrice,
                },
            );
            return;
        }
        if replace.new_qty <= state.filled_qty {
            events.push(
                EngineEvent::ReplaceRejected {
                    seq_no,
                    order_id,
                    reason: RejectReason::InvalidQuantity,
                },
            );
            return;
        }
        let ghost start = self.book@;
        let ghost emitted = events@;
        assert(model::order_valid(start, order_id));
        if self.waiting_position(&state).is_some() {
            self.amend_waiting(replace);
            events.push(
                EngineEvent::OrderReplaced {
                    seq_no,
                    order_id,
                    new_price: replace.new_price,
                    new_qty: replace.new_qty,
                },
            );
            assert(events@ =~= emitted + model::replace_order(start, seq_no, *replace).events);
            return;
        }
        proof {
            validity::lemma_queued(start, order_id);
        }
        let mut aggressor = self.amend_order(replace);
        let ghost next = self.book@;
        let ghost order = aggressor;
        events.push(
            EngineEvent::OrderReplaced {
                seq_no,
                order_id,
                new_price: replace.new_price,
                new_qty: replace.new_qty,
            },
        );
        proof {
            validity::lemma_sweep(next, order);
        }
        self.match_order(&mut aggressor, events);
        assert(next.orders.contains_key(order_id));
        assert(self.book@.orders[order_id] == order);
        if aggressor.open_qty() == 0 {
            self.close_order(aggressor);
        } else {
            self.update_resting(aggressor);
        }
        assert(events@ =~= emitted + model::replace_order(start, seq_no, *replace).events);
    }

    /// Whether a waiting order may enter.
    fn is_ready(&self, order: &OrderState, events: &Vec<EngineEvent>) -> (is_ready: bool)
        requires
            self.book.wf(),
        ensures
            is_ready == model::ready(self.book@, *order, events@),
    {
        match order.condition {
            OrderCondition::Stop => is_triggered(order, events),
            OrderCondition::AON => {
                let available = self.available_qty_at_or_better(
                    order.side,
                    order.price,
                    order.order_type,
                );
                available == 0 || available >= order.open_qty()
            },
            OrderCondition::Unconditional => false,
        }
    }

    /// Position of the first waiting order that may enter.
    pub(crate) fn next_ready(&self, events: &Vec<EngineEvent>) -> (position: Option<usize>)
        requires
            self.book.wf(),
        ensures
            match position {
                Some(i) => i == model::next_ready(self.book@, events@, 0) && i
                    < self.book@.waiting.len(),
                None => model::next_ready(self.book@, events@, 0) == self.book@.waiting.len(),
            },
    {
        let mut i: usize = 0;
        while i < self.book.waiting.len()
            invariant
                self.book.wf(),
                i <= self.book@.waiting.len(),
                model::next_ready(self.book@, events@, 0) == model::next_ready(
                    self.book@,
                    events@,
                    i as int,
                ),
            decreases self.book@.waiting.len() - i,
        {
            assert(model::waits(self.book@, self.book@.waiting[i as int]));
            let order = self.book.orders.get(&self.book.waiting[i]).unwrap();
            if self.is_ready(order, events) {
                return Some(i);
            }
            i = i + 1;
        }
        None
    }

    /// Takes the waiting order at a position off the list, to enter as its underlying type.
    pub(crate) fn release(&mut self, i: usize) -> (state: OrderState)
        requires
            old(self).book.wf(),
            i < old(self).book@.waiting.len(),
        ensures
            final(self).book.wf(),
            final(self).book@ == model::released(old(self).book@, i as int),
            state == model::underlying(old(self).book@.orders[old(self).book@.waiting[i as int]]),
    {
        let ghost start = self.book;
        let order_id = self.book.waiting[i];
        proof {
            validity::lemma_released(start@, i as int);
            assert(model::waits(start@, order_id));
            assert(model::order_valid(start@, order_id));
        }
        let mut state = *self.book.orders.get(&order_id).unwrap();
        if state.condition == OrderCondition::Stop {
            state.condition = OrderCondition::Unconditional;
        }
        state.is_open = false;
        self.book.waiting.remove(i);
        self.book.orders.insert(order_id, state);
        proof {
            assert(start@.waiting.contains(order_id));
            lemma_waiting_not_queued(start, order_id);
            lemma_totals_frame(start.bids@, start.orders@, order_id, state);
            lemma_totals_frame(start.asks@, start.orders@, order_id, state);
            assert(self.book@ =~= model::released(start@, i as int));
        }
        state
    }

    /// Lets waiting orders enter, oldest first, until none of them may.
    fn admit_waiting(&mut self, seq_no: SeqNo, events: &mut Vec<EngineEvent>)
        requires
            old(self).book.wf(),
            model::cascade_fits((Step { book: old(self).book@, events: old(events)@ }), seq_no),
        ensures
            final(self).book.wf(),
            (Step { book: final(self).book@, events: final(events)@ }) == model::cascaded(
                (Step { book: old(self).book@, events: old(events)@ }),
                seq_no,
            ),
    {
        let ghost result = model::cascaded(
            Step { book: self.book@, events: events@ },
            seq_no,
        );
        loop
            invariant
                self.book.wf(),
                model::cascade_fits((Step { book: self.book@, events: events@ }), seq_no),
                result == model::cascaded((Step { book: self.book@, events: events@ }), seq_no),
            ensures
                result == (Step { book: self.book@, events: events@ }),
            decreases self.book@.waiting.len(),
        {
            let i = match self.next_ready(events) {
                Some(i) => i,
                None => {
                    break;
                },
            };
            let ghost start = self.book;
            let ghost emitted = events@;
            let ghost next = model::activated(start@, seq_no, i as int);
            proof {
                validity::lemma_cascade_step(Step { book: start@, events: emitted }, seq_no);
            }
            let state = self.release(i);
            self.enter_order(seq_no, state, events);
            proof {
                assert(BookModel { waiting: start@.waiting.remove(i as int), ..next.book }
                    == next.book);
                assert(events@ == emitted + next.events);
            }
        }
    }

    /// Processes a command and returns the events it causes, closing with the best bid and
    /// offer.
    pub fn process(&mut self, cmd: &Command) -> (result: MatchResult)
        requires
            old(self).book.wf(),
            model::command_fits(old(self).book@, *cmd),
        ensures
            final(self).book.wf(),
            final(self).book@ == model::processed(old(self).book@, *cmd).book,
            result.events@ == model::processed(old(self).book@, *cmd).events,
    {
        let ghost start = self.book@;
        proof {
            validity::lemma_renumbered(start, cmd.seq_no);
        }
        self.book.last_seq_no = cmd.seq_no;
        assert(self.book@ == BookModel { last_seq_no: cmd.seq_no, ..start });
        let mut events: Vec<EngineEvent> = Vec::new();
        match &cmd.payload {
            CommandPayload::New(order) => {
                self.process_new_order(cmd.seq_no, order, &mut events);
            },
            CommandPayload::Cancel(cancel) => {
                self.process_cancel(cmd.seq_no, cancel, &mut events);
            },
            CommandPayload::Replace(replace) => {
                proof {
                    assert(model::replace_flaw(self.book@, *replace) == model::replace_flaw(
                        start,
                        *replace,
                    ));
                }
                self.process_replace(cmd.seq_no, replace, &mut events);
            },
        }
        assert(events@ =~= model::applied(start, *cmd).events);
        self.admit_waiting(cmd.seq_no, &mut events);
        let bbo = self.book.bbo();
        events.push(EngineEvent::BboChanged(bbo));
        MatchResult { events }
    }
}

/// Whether a trade among the events is at or through the order's stop price.
fn is_triggered(order: &OrderState, events: &Vec<EngineEvent>) -> (triggered: bool)
    ensures
        triggered == model::triggered(*order, events@),
{
    let mut i: usize = 0;
    while i < events.len()
        invariant
            i <= events@.len(),
            forall|j: int| 0 <= j < i ==> !model::trips(*order, #[trigger] events@[j]),
        decreases events@.len() - i,
    {
        if let EngineEvent::Trade(fill) = &events[i] {
            let at_or_through = match order.side {
                Side::Buy => fill.price >= order.stop_price,
                Side::Sell => fill.price <= order.stop_price,
            };
            if at_or_through {
                assert(model::trips(*order, events@[i as int]));
                return true;
            }
        }
        i = i + 1;
    }
    false
}

/// A waiting order is in no queue.
proof fn lemma_waiting_not_queued(start: OrderBook, id: OrderId)
    requires
        start.wf(),
        start@.waiting.contains(id),
    ensures
        forall|key: u64| #[trigger]
            start.bids@.contains_key(key) ==> !start.bids@[key].orders.contains(id),
        forall|key: u64| #[trigger]
            start.asks@.contains_key(key) ==> !start.asks@[key].orders.contains(id),
{
    validity::lemma_waiting(start@);
    assert forall|key: u64| #[trigger]
        start.bids@.contains_key(key) implies !start.bids@[key].orders.contains(id) by {
        assert(start@.side(Side::Buy).contains_key(key));
    }
    assert forall|key: u64| #[trigger]
        start.asks@.contains_key(key) implies !start.asks@[key].orders.contains(id) by {
        assert(start@.side(Side::Sell).contains_key(key));
    }
}

/// A change of a known order leaves the cached quantities of the side it does not belong to.
proof fn lemma_opposite_frame(start: OrderBook, id: OrderId, order: OrderState)
    requires
        start.wf(),
        start@.orders.contains_key(id),
    ensures
        book::totals_agree(
            start.side_of(start@.orders[id].side.other())@,
            start@.orders.insert(id, order),
        ),
{
    let side = start@.orders[id].side.other();
    let levels = start.side_of(side)@;
    assert forall|k: u64| #[trigger] levels.contains_key(k) implies !levels[k].orders.contains(
        id,
    ) by {
        assert(start@.side(side).contains_key(k));
        assert(model::queue_valid(start@.side(side)[k], start@.orders, side, k));
    }
    lemma_totals_frame(levels, start@.orders, id, order);
}

/// A side and its cached quantities after a resting order was taken out and `changed` recorded
/// in its place.
proof fn lemma_after_remove(
    start: OrderBook,
    order: OrderState,
    after: Map<u64, LevelView>,
    changed: OrderState,
)
    requires
        start.wf(),
        start@.orders.contains_key(order.order_id),
        start@.orders[order.order_id].is_open,
        !start@.waiting.contains(order.order_id),
        order.side == start@.orders[order.order_id].side,
        order.price == start@.orders[order.order_id].price,
        ({
            let before = start.side_of(order.side)@;
            let key = book::rank(order.side, order.price);
            let level = before[key];
            book::level_at(before, key).orders.contains(order.order_id) ==> after
                == book::with_level(
                before,
                key,
                LevelView {
                    orders: level.orders.remove_value(order.order_id),
                    total_qty: book::monus(
                        level.total_qty,
                        start@.orders[order.order_id].open() as u64,
                    ),
                },
            )
        }),
    ensures
        book::level_at(
            start.side_of(order.side)@,
            book::rank(order.side, order.price),
        ).orders.contains(order.order_id),
        book::queues(after) == model::dequeue(
            start@.side(order.side),
            book::rank(order.side, order.price),
            order.order_id,
        ),
        book::totals_agree(after, start@.orders.insert(order.order_id, changed)),
        book::totals_agree(
            start.side_of(order.side.other())@,
            start@.orders.insert(order.order_id, changed),
        ),
        forall|k: u64| #[trigger]
            after.contains_key(k) ==> !after[k].orders.contains(order.order_id),
{
    let id = order.order_id;
    let levels = start@.side(order.side);
    let before = start.side_of(order.side)@;
    let key = book::rank(order.side, order.price);
    let orders = start@.orders;
    validity::lemma_queued(start@, id);
    assert(before.contains_key(key));
    quantities::lemma_remove_value(levels[key], id);
    let i = choose|i: int|
        0 <= i < levels[key].len() && levels[key][i] == id && levels[key].remove_value(id)
            == levels[key].remove(i);
    quantities::lemma_qty_remove(levels[key], orders, i);
    quantities::lemma_qty_absent(levels[key].remove_value(id), orders, id, changed);
    assert(book::queues(after) =~= model::dequeue(levels, key, id));
    assert forall|k: u64| #[trigger] after.contains_key(k) implies after[k].total_qty
        == model::queued_qty(after[k].orders, orders.insert(id, changed))
        && !after[k].orders.contains(id) by {
        if k != key {
            assert(levels.contains_key(k));
            liquidity::lemma_other_levels(levels, orders, order.side, key, id, changed, k);
        }
    }
    lemma_opposite_frame(start, id, changed);
}

/// An order off the book is in no queue.
proof fn lemma_absent(start: OrderBook, id: OrderId)
    requires
        start.wf(),
        validity::off_book(start@, id),
    ensures
        forall|key: u64| #[trigger]
            start.bids@.contains_key(key) ==> !start.bids@[key].orders.contains(id),
        forall|key: u64| #[trigger]
            start.asks@.contains_key(key) ==> !start.asks@[key].orders.contains(id),
{
    validity::lemma_off_book(start@, id);
    assert forall|key: u64| #[trigger]
        start.bids@.contains_key(key) implies !start.bids@[key].orders.contains(id) by {
        assert(start@.bids.contains_key(key));
    }
    assert forall|key: u64| #[trigger]
        start.asks@.contains_key(key) implies !start.asks@[key].orders.contains(id) by {
        assert(start@.asks.contains_key(key));
    }
}

/// The opposite side's cached quantities after a fill.
proof fn lemma_after_fill(start: OrderBook, taker: OrderState, after: Map<u64, LevelView>)
    requires
        start.wf(),
        model::can_trade(start@.side(taker.side.other()), start@.orders, taker),
        ({
            let side = taker.side.other();
            let before = start.side_of(side)@;
            let key = ranking::least(start@.side(side));
            let level = before[key];
            let maker = start@.orders[level.orders[0]];
            let qty = model::trade_qty(taker, maker);
            if maker.open() == qty {
                after == book::with_level(
                    before,
                    key,
                    LevelView {
                        orders: level.orders.drop_first(),
                        total_qty: book::monus(level.total_qty, qty as u64),
                    },
                )
            } else {
                after == before.insert(
                    key,
                    LevelView {
                        orders: seq![level.orders[0]] + level.orders.drop_first(),
                        total_qty: if level.orders.len() > 1 {
                            book::monus(level.total_qty, qty as u64)
                        } else {
                            (maker.open() - qty) as u64
                        },
                    },
                )
            }
        }),
    ensures
        book::queues(after) == model::after_fill(start@, taker).side(taker.side.other()),
        book::totals_agree(after, model::after_fill(start@, taker).orders),
        book::totals_agree(start.side_of(taker.side)@, model::after_fill(start@, taker).orders),
        model::valid(model::after_fill(start@, taker)),
{
    let side = taker.side.other();
    let before = start.side_of(side)@;
    let levels = start@.side(side);
    let next = model::after_fill(start@, taker);
    let key = ranking::least(levels);
    let id = model::front(levels);
    let maker = start@.orders[id];
    let changed = model::filled(maker, model::trade_qty(taker, maker));
    validity::lemma_fill_valid(start@, taker);
    validity::lemma_front(levels, start@.orders, side);
    liquidity::lemma_front_level_qty(start@, taker);
    assert(levels.contains_key(key));
    assert(before.contains_key(key));
    assert(seq![levels[key][0]] + levels[key].drop_first() =~= levels[key]);
    assert(book::queues(after) =~= next.side(side));
    assert forall|k: u64| #[trigger] after.contains_key(k) implies after[k].total_qty
        == model::queued_qty(after[k].orders, next.orders) by {
        if k == key {
            if maker.open() != model::trade_qty(taker, maker) && levels[key].len() == 1 {
                assert(levels[key].drop_first() =~= Seq::empty());
                assert(model::queued_qty(levels[key].drop_first(), start@.orders) == 0);
                assert(model::queued_qty(levels[key], start@.orders) == maker.open());
            }
        } else {
            assert(levels.contains_key(k));
            liquidity::lemma_other_levels(levels, start@.orders, side, key, id, changed, k);
        }
    }
    let own = start.side_of(taker.side)@;
    assert forall|k: u64| #[trigger] own.contains_key(k) implies !own[k].orders.contains(id) by {
        assert(start@.side(taker.side).contains_key(k));
        let queue = start@.side(taker.side)[k];
        assert(model::queue_valid(queue, start@.orders, taker.side, k));
    }
    lemma_totals_frame(own, start@.orders, id, changed);
}

/// Cached quantities still agree after a change of an order that is in no queue of the side.
proof fn lemma_totals_frame(
    levels: Map<u64, LevelView>,
    orders: Map<OrderId, OrderState>,
    id: OrderId,
    order: OrderState,
)
    requires
        book::totals_agree(levels, orders),
        forall|key: u64| #[trigger] levels.contains_key(key) ==> !levels[key].orders.contains(id),
    ensures
        book::totals_agree(levels, orders.insert(id, order)),
{
    assert forall|k: u64| #[trigger] levels.contains_key(k) implies levels[k].total_qty
        == model::queued_qty(levels[k].orders, orders.insert(id, order)) by {
        quantities::lemma_qty_absent(levels[k].orders, orders, id, order);
    }
}

} // verus!
