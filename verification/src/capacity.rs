//! How much a book can take before a level's quantity exceeds a `Qty`.
//!
//! A level grows only by the orders that come to rest in it, and within one command these are
//! the command's own order and waiting orders. So a bound on every level together with the
//! waiting orders is raised by a command by no more than the quantity it brings.
use crate::book;
use crate::book::{BookSide, OrderBook};
use crate::liquidity;
use crate::model;
use crate::model::{BookModel, Queues, Step};
use crate::quantities;
use crate::ranking;
use crate::standing;
use crate::types::{
    CancelOrder, Command, CommandPayload, OrderCondition, OrderId, OrderState, OrderType, Qty,
    ReplaceOrder, SeqNo, Side, TimeInForce,
};
use crate::validity;
use crate::volume;
use vstd::prelude::*;

verus! {

/// Quantity that a command brings to the book.
pub open spec fn demand(cmd: Command) -> nat {
    match cmd.payload {
        CommandPayload::New(order) => order.qty as nat,
        CommandPayload::Cancel(_) => 0,
        CommandPayload::Replace(replace) => replace.new_qty as nat,
    }
}

/// Quantity that a sequence of commands brings to the book.
pub open spec fn total_demand(cmds: Seq<Command>) -> nat
    decreases cmds.len(),
{
    if cmds.len() == 0 {
        0
    } else {
        total_demand(cmds.drop_last()) + demand(cmds.last())
    }
}

/// Every level of a side has at most `limit`.
pub open spec fn levels_within(
    levels: Queues,
    orders: Map<OrderId, OrderState>,
    limit: int,
) -> bool {
    forall|key: u64| #[trigger]
        levels.contains_key(key) ==> model::queued_qty(levels[key], orders) <= limit
}

/// Every level of the book has at most `limit`.
pub open spec fn sides_within(book: BookModel, limit: int) -> bool {
    &&& levels_within(book.bids, book.orders, limit)
    &&& levels_within(book.asks, book.orders, limit)
}

/// Quantity of the waiting orders.
pub open spec fn waiting_qty(book: BookModel) -> nat {
    model::queued_qty(book.waiting, book.orders)
}

/// Every level, together with all waiting orders, has at most `limit`.
pub open spec fn load_within(book: BookModel, limit: int) -> bool {
    &&& waiting_qty(book) <= limit
    &&& sides_within(book, limit - waiting_qty(book))
}

/// A side whose orders did not change has the same quantities.
proof fn lemma_side_unchanged(
    levels: Queues,
    orders: Map<OrderId, OrderState>,
    other: Map<OrderId, OrderState>,
    side: Side,
    limit: int,
)
    requires
        model::side_valid(levels, orders, side),
        levels_within(levels, orders, limit),
        forall|id: OrderId, key: u64|
            #![trigger model::rests_at(orders, id, side, key)]
            model::rests_at(orders, id, side, key) && levels.contains_key(key)
                && levels[key].contains(id) ==> other[id].open() == orders[id].open(),
    ensures
        levels_within(levels, other, limit),
{
    assert forall|key: u64| #[trigger] levels.contains_key(key) implies model::queued_qty(
        levels[key],
        other,
    ) <= limit by {
        let queue = levels[key];
        assert(model::queue_valid(queue, orders, side, key));
        assert forall|i: int| 0 <= i < queue.len() implies orders[#[trigger] queue[i]].open()
            == other[queue[i]].open() by {
            assert(model::rests_at(orders, queue[i], side, key));
        }
        quantities::lemma_qty_same(queue, orders, other);
    }
}

/// A sweep raises no level of the swept side.
proof fn lemma_sweep_within(book: BookModel, taker: OrderState, limit: int)
    requires
        model::valid(book),
        taker.filled_qty <= taker.original_qty,
        levels_within(book.side(taker.side.other()), book.orders, limit),
    ensures
        ({
            let out = model::sweep(book.side(taker.side.other()), book.orders, taker);
            levels_within(out.levels, out.orders, limit)
        }),
    decreases taker.open(),
{
    let side = taker.side.other();
    let levels = book.side(side);
    if model::can_trade(levels, book.orders, taker) {
        let key = ranking::least(levels);
        let id = model::front(levels);
        let maker = book.orders[id];
        let next = model::after_fill(book, taker);
        let next_taker = model::next_taker(levels, book.orders, taker);
        validity::lemma_front(levels, book.orders, side);
        validity::lemma_fill_valid(book, taker);
        liquidity::lemma_front_level_qty(book, taker);
        assert(next.side(side) == model::next_levels(levels, book.orders, taker));
        assert forall|other: u64| #[trigger]
            next.side(side).contains_key(other) implies model::queued_qty(
            next.side(side)[other],
            next.orders,
        ) <= limit by {
            assert(levels.contains_key(other));
            if other == key {
                assert(model::queue_at(next.side(side), key) == next.side(side)[key]);
            } else {
                liquidity::lemma_other_levels(
                    levels,
                    book.orders,
                    side,
                    key,
                    id,
                    model::filled(maker, model::trade_qty(taker, maker)),
                    other,
                );
            }
        }
        lemma_sweep_within(next, next_taker, limit);
    }
}

/// A sweep raises no level of either side.
proof fn lemma_swept_within(book: BookModel, taker: OrderState, limit: int)
    requires
        model::valid(book),
        taker.filled_qty <= taker.original_qty,
        sides_within(book, limit),
    ensures
        sides_within(model::swept(book, taker), limit),
{
    let side = taker.side;
    let out = model::sweep(book.side(side.other()), book.orders, taker);
    validity::lemma_sweep(book, taker);
    lemma_sweep_within(book, taker, limit);
    lemma_side_unchanged(book.side(side), book.orders, out.orders, side, limit);
}

/// An order that comes to rest raises its level by its open quantity.
proof fn lemma_rested_within(book: BookModel, order: OrderState, limit: int)
    requires
        model::valid(book),
        validity::off_book(book, order.order_id),
        sides_within(book, limit),
        limit >= 0,
    ensures
        sides_within(model::rested(book, order), limit + order.open()),
{
    let next = model::rested(book, order);
    let id = order.order_id;
    let key = book::rank(order.side, order.price);
    let levels = book.side(order.side);
    lemma_side_unchanged(book.bids, book.orders, next.orders, Side::Buy, limit);
    lemma_side_unchanged(book.asks, book.orders, next.orders, Side::Sell, limit);
    let queue = model::queue_at(levels, key);
    quantities::lemma_qty_push(queue, next.orders, id);
}

/// A closed order on record raises no level.
proof fn lemma_recorded_within(book: BookModel, order: OrderState, limit: int)
    requires
        model::valid(book),
        validity::off_book(book, order.order_id),
        sides_within(book, limit),
    ensures
        sides_within(model::recorded(book, order, false), limit),
{
    let next = model::recorded(book, order, false);
    lemma_side_unchanged(book.bids, book.orders, next.orders, Side::Buy, limit);
    lemma_side_unchanged(book.asks, book.orders, next.orders, Side::Sell, limit);
}

/// Entering an order raises no level by more than the order's quantity and leaves the waiting
/// orders, or leaves the levels and adds the order's quantity to the waiting orders.
proof fn lemma_entered_within(book: BookModel, seq_no: SeqNo, order: OrderState, limit: int)
    requires
        model::valid(book),
        validity::off_book(book, order.order_id),
        order.filled_qty == 0,
        order.original_qty > 0,
        order.condition != OrderCondition::Stop,
        sides_within(book, limit),
        limit >= 0,
    ensures
        ({
            let after = model::entered(book, seq_no, order).book;
            ||| {
                &&& sides_within(after, limit + order.open())
                &&& waiting_qty(after) == waiting_qty(book)
            }
            ||| {
                &&& order.condition == OrderCondition::AON
                &&& model::short_across(book, order)
                &&& sides_within(after, limit)
                &&& waiting_qty(after) == waiting_qty(book) + order.open()
            }
        }),
{
    let step = model::entered(book, seq_no, order);
    validity::lemma_entered(book, seq_no, order);
    validity::lemma_sweep(book, order);
    validity::lemma_off_book(book, order.order_id);
    validity::lemma_waiting(book);
    assert(sides_within(book, limit + order.open()));
    assert forall|i: int| 0 <= i < book.waiting.len() implies book.orders[#[trigger] book.waiting[i]].open()
        == step.book.orders[book.waiting[i]].open() by {
        assert(book.waiting.contains(book.waiting[i]));
        assert(book.orders.contains_key(book.waiting[i]));
    }
    quantities::lemma_qty_same(book.waiting, book.orders, step.book.orders);
    if order.tif == TimeInForce::FOK && model::short_of(book, order) {
    } else if order.condition == OrderCondition::AON && model::short_of(book, order) {
        if model::short_across(book, order) {
            lemma_held_within(book, order, limit);
        } else {
            lemma_rested_within(book, order, limit);
        }
    } else {
        let out = model::sweep(book.side(order.side.other()), book.orders, order);
        let after = model::swept(book, order);
        lemma_swept_within(book, order, limit);
        assert(validity::off_book(after, order.order_id));
        lemma_rested_within(after, out.taker, limit);
        lemma_recorded_within(after, out.taker, limit);
    }
}

/// An order that starts to wait leaves the levels and adds its quantity to the waiting orders.
proof fn lemma_held_within(book: BookModel, order: OrderState, limit: int)
    requires
        model::valid(book),
        validity::off_book(book, order.order_id),
        sides_within(book, limit),
    ensures
        sides_within(model::held(book, order), limit),
        waiting_qty(model::held(book, order)) == waiting_qty(book) + order.open(),
{
    let next = model::held(book, order);
    lemma_side_unchanged(book.bids, book.orders, next.orders, Side::Buy, limit);
    lemma_side_unchanged(book.asks, book.orders, next.orders, Side::Sell, limit);
    validity::lemma_off_book(book, order.order_id);
    assert forall|i: int| 0 <= i < book.waiting.len() implies book.orders[#[trigger] book.waiting[i]].open()
        == next.orders[book.waiting[i]].open() by {
        assert(book.waiting.contains(book.waiting[i]));
    }
    quantities::lemma_qty_same(book.waiting, book.orders, next.orders);
    quantities::lemma_qty_push(book.waiting, next.orders, order.order_id);
}

/// Letting waiting orders enter fits, and keeps the bound on every level together with them.
proof fn lemma_cascaded_within(step: Step, seq_no: SeqNo, limit: int)
    requires
        model::valid(step.book),
        load_within(step.book, limit),
        limit <= u64::MAX,
    ensures
        model::cascade_fits(step, seq_no),
        load_within(model::cascaded(step, seq_no).book, limit),
    decreases step.book.waiting.len(),
{
    let i = model::next_ready(step.book, step.events, 0);
    if 0 <= i < step.book.waiting.len() {
        let start = step.book;
        let id = start.waiting[i];
        let released = model::released(start, i);
        let order = model::underlying(start.orders[id]);
        let next = model::activated(start, seq_no, i);
        assert(model::waits(start, id));
        assert(model::order_valid(start, id));
        validity::lemma_cascade_step(step, seq_no);
        quantities::lemma_qty_remove(start.waiting, start.orders, i);
        assert(order.open() == start.orders[id].open());
        assert(waiting_qty(released) + order.open() == waiting_qty(start)) by {
            let rest = released.waiting;
            assert forall|j: int| 0 <= j < rest.len() implies start.orders[#[trigger] rest[j]].open()
                == released.orders[rest[j]].open() by {}
            quantities::lemma_qty_same(rest, start.orders, released.orders);
        }
        let bound = limit - waiting_qty(start);
        lemma_side_unchanged(start.bids, start.orders, released.orders, Side::Buy, bound);
        lemma_side_unchanged(start.asks, start.orders, released.orders, Side::Sell, bound);
        lemma_entered_within(released, seq_no, order, bound);
        let book = BookModel { waiting: start.waiting.remove(i), ..next.book };
        assert(book == next.book);
        assert(model::fits(book));
        lemma_cascaded_within(Step { book, events: step.events + next.events }, seq_no, limit);
    }
}

/// A replace request raises no level by more than the new quantity.
proof fn lemma_replace_within(book: BookModel, seq_no: SeqNo, replace: ReplaceOrder, limit: int)
    requires
        model::valid(book),
        load_within(book, limit),
        limit + replace.new_qty <= u64::MAX,
    ensures
        model::replace_flaw(book, replace) is None ==> model::fits(model::amended(book, replace)),
        load_within(
            model::replace_order(book, seq_no, replace).book,
            limit + replace.new_qty,
        ),
{
    let id = replace.order_id;
    let bound = limit - waiting_qty(book);
    let raised = bound + replace.new_qty;
    if model::replace_flaw(book, replace) is None && book.waiting.contains(id) {
        let next = model::amended(book, replace);
        validity::lemma_waiting(book);
        assert(book.waiting.contains(id));
        assert(forall|key: u64|
            book.side(Side::Buy).contains_key(key) ==> !(#[trigger] book.bids[key]).contains(id));
        assert(forall|key: u64|
            book.side(Side::Sell).contains_key(key) ==> !(#[trigger] book.asks[key]).contains(id));
        lemma_side_unchanged(book.bids, book.orders, next.orders, Side::Buy, bound);
        lemma_side_unchanged(book.asks, book.orders, next.orders, Side::Sell, bound);
        let i = choose|i: int| 0 <= i < book.waiting.len() && book.waiting[i] == id;
        quantities::lemma_qty_update(book.waiting, book.orders, i, next.orders[id]);
        assert(model::order_valid(book, id));
    } else if model::replace_flaw(book, replace) is None {
        validity::lemma_queued(book, id);
        validity::lemma_amended(book, replace);
        let next = model::amended(book, replace);
        let order = next.orders[id];
        lemma_amended_within(book, replace, bound);
        let out = model::sweep(next.side(order.side.other()), next.orders, order);
        let after = model::swept(next, order);
        let last = model::rematched(after, out.taker);
        validity::lemma_sweep(next, order);
        lemma_swept_within(next, order, raised);
        assert(next.orders.contains_key(id));
        lemma_rematched_within(after, out.taker, raised);
        validity::lemma_waiting(book);
        assert forall|i: int| 0 <= i < book.waiting.len() implies book.orders[#[trigger] book.waiting[i]].open()
            == last.orders[book.waiting[i]].open() by {
            assert(book.waiting.contains(book.waiting[i]));
            assert(next.waiting.contains(book.waiting[i]));
            assert(book.orders.contains_key(book.waiting[i]));
            assert(next.orders.contains_key(book.waiting[i]));
        }
        quantities::lemma_qty_same(book.waiting, book.orders, last.orders);
    }
}

/// A changed queue: an order's state changes, and its open quantity with it.
proof fn lemma_amended_within(book: BookModel, replace: ReplaceOrder, limit: int)
    requires
        model::valid(book),
        model::replace_flaw(book, replace) is None,
        !book.waiting.contains(replace.order_id),
        sides_within(book, limit),
        limit >= 0,
    ensures
        sides_within(model::amended(book, replace), limit + replace.new_qty),
{
    let id = replace.order_id;
    let order = book.orders[id];
    let next = model::amended(book, replace);
    let changed = next.orders[id];
    let key = book::rank(order.side, order.price);
    let new_key = book::rank(order.side, replace.new_price);
    validity::lemma_queued(book, id);
    let levels = book.side(order.side);
    lemma_side_unchanged(
        book.side(order.side.other()),
        book.orders,
        next.orders,
        order.side.other(),
        limit,
    );
    assert forall|k: u64| #[trigger] next.side(order.side).contains_key(k) implies model::queued_qty(
        next.side(order.side)[k],
        next.orders,
    ) <= limit + replace.new_qty by {
        let queue = model::queue_at(levels, k);
        if levels.contains_key(k) {
            assert(model::queue_valid(queue, book.orders, order.side, k));
        }
        if k == key {
            let i = choose|i: int| 0 <= i < queue.len() && queue[i] == id;
            quantities::lemma_qty_update(queue, book.orders, i, changed);
            if new_key != key {
                quantities::lemma_remove_value(queue, id);
                let j = choose|j: int|
                    0 <= j < queue.len() && queue[j] == id && queue.remove_value(id)
                        == queue.remove(j);
                quantities::lemma_qty_remove(queue, next.orders, j);
                assert(next.side(order.side)[k] == queue.remove_value(id));
            }
        } else {
            if levels.contains_key(k) {
                liquidity::lemma_other_levels(
                    levels,
                    book.orders,
                    order.side,
                    key,
                    id,
                    changed,
                    k,
                );
            }
            if k == new_key {
                quantities::lemma_qty_push(queue, next.orders, id);
                assert(next.side(order.side)[k] == queue.push(id));
            }
        }
    }
    assert(next.side(order.side.other()) == book.side(order.side.other()));
    assert(levels_within(next.side(order.side), next.orders, limit + replace.new_qty));
}

/// A resting order that was matched raises no level.
proof fn lemma_rematched_within(book: BookModel, taker: OrderState, limit: int)
    requires
        model::valid(book),
        sides_within(book, limit),
        book.orders.contains_key(taker.order_id),
        ({
            let order = book.orders[taker.order_id];
            &&& order.is_open
            &&& !book.waiting.contains(taker.order_id)
            &&& validity::same_order(taker, order)
            &&& order.filled_qty <= taker.filled_qty <= taker.original_qty
        }),
    ensures
        sides_within(model::rematched(book, taker), limit),
{
    let id = taker.order_id;
    let order = book.orders[id];
    let next = model::rematched(book, taker);
    let changed = next.orders[id];
    let key = book::rank(order.side, order.price);
    let levels = book.side(order.side);
    validity::lemma_queued(book, id);
    lemma_side_unchanged(
        book.side(order.side.other()),
        book.orders,
        next.orders,
        order.side.other(),
        limit,
    );
    assert forall|k: u64| #[trigger] next.side(order.side).contains_key(k) implies model::queued_qty(
        next.side(order.side)[k],
        next.orders,
    ) <= limit by {
        assert(levels.contains_key(k));
        let queue = levels[k];
        assert(model::queue_valid(queue, book.orders, order.side, k));
        if k == key {
            let i = choose|i: int| 0 <= i < queue.len() && queue[i] == id;
            quantities::lemma_qty_update(queue, book.orders, i, changed);
            if taker.open() == 0 {
                quantities::lemma_remove_value(queue, id);
                let j = choose|j: int|
                    0 <= j < queue.len() && queue[j] == id && queue.remove_value(id)
                        == queue.remove(j);
                quantities::lemma_qty_remove(queue, next.orders, j);
                assert(next.side(order.side)[k] == queue.remove_value(id));
            }
        } else {
            liquidity::lemma_other_levels(levels, book.orders, order.side, key, id, changed, k);
        }
    }
    assert(next.side(order.side.other()) == book.side(order.side.other()));
    assert(levels_within(next.side(order.side), next.orders, limit));
}

/// A cancel request raises no level.
proof fn lemma_cancel_within(
    book: BookModel,
    seq_no: SeqNo,
    cancel: CancelOrder,
    limit: int,
)
    requires
        model::valid(book),
        load_within(book, limit),
    ensures
        load_within(model::cancel_order(book, seq_no, cancel).book, limit),
        sides_within(
            model::cancel_order(book, seq_no, cancel).book,
            limit - waiting_qty(book),
        ),
{
    let id = cancel.order_id;
    let bound = limit - waiting_qty(book);
    if model::cancel_flaw(book, cancel) is None {
        let order = book.orders[id];
        let next = model::cancel_order(book, seq_no, cancel).book;
        assert(model::order_valid(book, id));
        if book.waiting.contains(id) {
            quantities::lemma_remove_value(book.waiting, id);
            let j = choose|j: int|
                0 <= j < book.waiting.len() && book.waiting[j] == id && book.waiting.remove_value(id)
                    == book.waiting.remove(j);
            quantities::lemma_qty_remove(book.waiting, book.orders, j);
            quantities::lemma_qty_same(next.waiting, book.orders, next.orders);
            lemma_side_unchanged(book.bids, book.orders, next.orders, Side::Buy, bound);
            lemma_side_unchanged(book.asks, book.orders, next.orders, Side::Sell, bound);
        } else {
            validity::lemma_queued(book, id);
            quantities::lemma_qty_same(book.waiting, book.orders, next.orders);
            let key = book::rank(order.side, order.price);
            let levels = book.side(order.side);
            lemma_side_unchanged(
                book.side(order.side.other()),
                book.orders,
                next.orders,
                order.side.other(),
                bound,
            );
            lemma_side_unchanged(levels, book.orders, next.orders, order.side, bound);
            assert forall|k: u64| #[trigger]
                next.side(order.side).contains_key(k) implies model::queued_qty(
                next.side(order.side)[k],
                next.orders,
            ) <= bound by {
                assert(levels.contains_key(k));
                if k == key {
                    let queue = levels[k];
                    quantities::lemma_remove_value(queue, id);
                    let j = choose|j: int|
                        0 <= j < queue.len() && queue[j] == id && queue.remove_value(id)
                            == queue.remove(j);
                    quantities::lemma_qty_remove(queue, next.orders, j);
                    assert(next.side(order.side)[k] == queue.remove_value(id));
                }
            }
            assert(next.side(order.side.other()) == book.side(order.side.other()));
            assert(levels_within(next.side(order.side), next.orders, bound));
        }
        assert(sides_within(next, bound));
        assert(waiting_qty(next) <= waiting_qty(book));
    }
}

/// A command that brings no more than what is left below the largest `Qty` fits, and raises the
/// bound on the book by no more than what it brings.
pub proof fn law_capacity(book: BookModel, cmd: Command, limit: int)
    requires
        model::valid(book),
        load_within(book, limit),
        limit + demand(cmd) <= u64::MAX,
    ensures
        model::command_fits(book, cmd),
        load_within(model::processed(book, cmd).book, limit + demand(cmd)),
{
    let start = BookModel { last_seq_no: cmd.seq_no, ..book };
    let step = model::applied(book, cmd);
    let raised = limit + demand(cmd);
    validity::lemma_renumbered(book, cmd.seq_no);
    validity::lemma_applied(book, cmd);
    assert(load_within(start, limit));
    match cmd.payload {
        CommandPayload::New(order) => {
            let bound = limit - waiting_qty(start);
            if model::new_order_flaw(start, order) is None {
                let state = OrderState::of(order);
                if order.condition == OrderCondition::Stop {
                    lemma_held_within(start, state, bound);
                } else {
                    lemma_entered_within(start, cmd.seq_no, state, bound);
                }
            }
        },
        CommandPayload::Cancel(cancel) => {
            lemma_cancel_within(start, cmd.seq_no, cancel, limit);
        },
        CommandPayload::Replace(replace) => {
            lemma_replace_within(start, cmd.seq_no, replace, limit);
            if model::replace_flaw(book, replace) is None {
                let a = model::amended(book, replace);
                let b = model::amended(start, replace);
                assert(a.bids == b.bids && a.asks == b.asks && a.orders == b.orders);
            }
        },
    }
    assert(load_within(step.book, raised));
    lemma_cascaded_within(step, cmd.seq_no, raised);
}

// ---------------------------------------------------------------------------
// Exact limits
// ---------------------------------------------------------------------------

/// Quantity at a key of a side.
pub open spec fn level_qty(book: BookModel, side: Side, key: u64) -> nat {
    model::queued_qty(model::queue_at(book.side(side), key), book.orders)
}

/// Quantity of an order that comes to rest when it enters.
pub open spec fn resting_qty(book: BookModel, order: OrderState) -> nat {
    let possible = model::available_to(book, order);
    if order.order_type == OrderType::Market || order.tif != TimeInForce::GTC {
        0
    } else if order.condition == OrderCondition::AON && model::short_across(book, order) {
        0
    } else if order.open() <= possible {
        0
    } else {
        (order.open() - possible) as nat
    }
}

/// A book that keeps its invariant fits.
pub proof fn lemma_wf_fits(book: OrderBook)
    requires
        book.wf(),
    ensures
        model::fits(book@),
{
    assert forall|key: u64| #[trigger] book@.bids.contains_key(key) implies model::queued_qty(
        book@.bids[key],
        book@.orders,
    ) <= u64::MAX by {
        assert(book.bids@.contains_key(key));
    }
    assert forall|key: u64| #[trigger] book@.asks.contains_key(key) implies model::queued_qty(
        book@.asks[key],
        book@.orders,
    ) <= u64::MAX by {
        assert(book.asks@.contains_key(key));
    }
}

/// The quantity at every key of a book that fits is a `Qty`.
proof fn lemma_level_fits(book: BookModel, side: Side, key: u64)
    requires
        model::fits(book),
    ensures
        level_qty(book, side, key) <= u64::MAX,
{
    if book.side(side).contains_key(key) {
        match side {
            Side::Buy => assert(book.bids.contains_key(key)),
            Side::Sell => assert(book.asks.contains_key(key)),
        }
    }
}

/// An order can come to rest exactly if its level has room for its open quantity.
proof fn lemma_rested_fits(book: BookModel, order: OrderState)
    requires
        model::valid(book),
        validity::off_book(book, order.order_id),
        model::fits(book),
    ensures
        model::fits(model::rested(book, order)) <==> level_qty(
            book,
            order.side,
            book::rank(order.side, order.price),
        ) + order.open() <= u64::MAX,
{
    let next = model::rested(book, order);
    let id = order.order_id;
    let key = book::rank(order.side, order.price);
    let levels = book.side(order.side);
    let queue = model::queue_at(levels, key);
    let limit = u64::MAX as int;
    lemma_side_unchanged(book.bids, book.orders, next.orders, Side::Buy, limit);
    lemma_side_unchanged(book.asks, book.orders, next.orders, Side::Sell, limit);
    validity::lemma_off_book(book, id);
    quantities::lemma_qty_push(queue, next.orders, id);
    assert(!queue.contains(id)) by {
        if levels.contains_key(key) && levels[key].contains(id) {
            let i = choose|i: int| 0 <= i < queue.len() && queue[i] == id;
            assert(model::queue_valid(queue, book.orders, order.side, key));
            assert(model::rests_at(book.orders, queue[i], order.side, key));
        }
    }
    quantities::lemma_qty_absent(queue, book.orders, id, next.orders[id]);
    assert(next.orders == book.orders.insert(id, next.orders[id]));
    assert(next.side(order.side).contains_key(key));
    assert(next.side(order.side)[key] == queue.push(id));
}

/// An order can enter exactly if its level has room for what comes to rest.
pub proof fn lemma_entered_fits(book: BookModel, seq_no: SeqNo, order: OrderState)
    requires
        model::valid(book),
        validity::off_book(book, order.order_id),
        order.filled_qty == 0,
        order.original_qty > 0,
        order.condition != OrderCondition::Stop,
        model::fits(book),
    ensures
        model::fits(model::entered(book, seq_no, order).book) <==> level_qty(
            book,
            order.side,
            book::rank(order.side, order.price),
        ) + resting_qty(book, order) <= u64::MAX,
{
    let key = book::rank(order.side, order.price);
    let limit = u64::MAX as int;
    lemma_level_fits(book, order.side, key);
    if order.tif == TimeInForce::FOK && model::short_of(book, order) {
    } else if order.condition == OrderCondition::AON && model::short_of(book, order) {
        if order.tif == TimeInForce::IOC || order.order_type == OrderType::Market {
        } else if model::short_across(book, order) {
            lemma_held_within(book, order, limit);
        } else {
            lemma_rested_fits(book, order);
        }
    } else {
        let out = model::sweep(book.side(order.side.other()), book.orders, order);
        let after = model::swept(book, order);
        validity::lemma_sweep(book, order);
        liquidity::lemma_sweep_fills(book, order);
        lemma_swept_within(book, order, limit);
        assert(validity::off_book(after, order.order_id));
        lemma_rested_fits(after, out.taker);
        lemma_recorded_within(after, out.taker, limit);
        let queue = model::queue_at(book.side(order.side), key);
        assert(model::queue_at(after.side(order.side), key) == queue);
        assert forall|i: int| 0 <= i < queue.len() implies book.orders[#[trigger] queue[i]].open()
            == after.orders[queue[i]].open() by {
            assert(model::queue_valid(queue, book.orders, order.side, key));
            assert(model::rests_at(book.orders, queue[i], order.side, key));
        }
        quantities::lemma_qty_same(queue, book.orders, after.orders);
    }
}

/// A replace request can be carried out exactly if the level to which it moves the order has room
/// for the order's open quantity; a request that does not move it always can.
pub proof fn lemma_amended_fits(book: BookModel, replace: ReplaceOrder)
    requires
        model::valid(book),
        model::replace_flaw(book, replace) is None,
        model::fits(book),
    ensures
        ({
            let order = book.orders[replace.order_id];
            model::fits(model::amended(book, replace)) <==> {
                ||| book.waiting.contains(replace.order_id)
                ||| replace.new_price == order.price
                ||| level_qty(book, order.side, book::rank(order.side, replace.new_price))
                    + replace.new_qty - order.filled_qty <= u64::MAX
            }
        }),
{
    let id = replace.order_id;
    let order = book.orders[id];
    let next = model::amended(book, replace);
    let changed = next.orders[id];
    let limit = u64::MAX as int;
    assert(model::order_valid(book, id));
    if book.waiting.contains(id) {
        validity::lemma_waiting(book);
        assert(forall|key: u64|
            book.side(Side::Buy).contains_key(key) ==> !(#[trigger] book.bids[key]).contains(id));
        assert(forall|key: u64|
            book.side(Side::Sell).contains_key(key) ==> !(#[trigger] book.asks[key]).contains(id));
        lemma_side_unchanged(book.bids, book.orders, next.orders, Side::Buy, limit);
        lemma_side_unchanged(book.asks, book.orders, next.orders, Side::Sell, limit);
    } else {
        let key = book::rank(order.side, order.price);
        let new_key = book::rank(order.side, replace.new_price);
        let levels = book.side(order.side);
        validity::lemma_queued(book, id);
        lemma_side_unchanged(
            book.side(order.side.other()),
            book.orders,
            next.orders,
            order.side.other(),
            limit,
        );
        assert(next.orders =~= book.orders.insert(id, changed));
        assert forall|k: u64| #[trigger] next.side(order.side).contains_key(k) implies if k
            == new_key && key != new_key {
            model::queued_qty(next.side(order.side)[k], next.orders) == level_qty(
                book,
                order.side,
                k,
            ) + changed.open()
        } else {
            model::queued_qty(next.side(order.side)[k], next.orders) <= limit
        } by {
            let queue = model::queue_at(levels, k);
            if levels.contains_key(k) {
                assert(model::queue_valid(queue, book.orders, order.side, k));
            }
            if k == key {
                let i = choose|i: int| 0 <= i < queue.len() && queue[i] == id;
                quantities::lemma_qty_update(queue, book.orders, i, changed);
                if new_key != key {
                    quantities::lemma_remove_value(queue, id);
                    let j = choose|j: int|
                        0 <= j < queue.len() && queue[j] == id && queue.remove_value(id)
                            == queue.remove(j);
                    quantities::lemma_qty_remove(queue, book.orders, j);
                    quantities::lemma_qty_absent(
                        queue.remove_value(id),
                        book.orders,
                        id,
                        changed,
                    );
                    assert(next.side(order.side)[k] == queue.remove_value(id));
                }
                lemma_level_fits(book, order.side, k);
            } else {
                if levels.contains_key(k) {
                    liquidity::lemma_other_levels(
                        levels,
                        book.orders,
                        order.side,
                        key,
                        id,
                        changed,
                        k,
                    );
                    lemma_level_fits(book, order.side, k);
                }
                if k == new_key {
                    quantities::lemma_qty_push(queue, next.orders, id);
                    assert(next.side(order.side)[k] == queue.push(id));
                }
            }
        }
        assert(next.side(order.side.other()) == book.side(order.side.other()));
        assert(next.side(order.side).contains_key(new_key));
    }
}

/// A replace request that could be carried out leaves a book that fits.
pub proof fn lemma_replaced_fits(book: BookModel, seq_no: SeqNo, replace: ReplaceOrder)
    requires
        model::valid(book),
        model::fits(book),
        model::replace_flaw(book, replace) is None ==> model::fits(model::amended(book, replace)),
    ensures
        model::fits(model::replace_order(book, seq_no, replace).book),
{
    let id = replace.order_id;
    let limit = u64::MAX as int;
    if model::replace_flaw(book, replace) is None && !book.waiting.contains(id) {
        validity::lemma_queued(book, id);
        validity::lemma_amended(book, replace);
        let next = model::amended(book, replace);
        let order = next.orders[id];
        let out = model::sweep(next.side(order.side.other()), next.orders, order);
        let after = model::swept(next, order);
        validity::lemma_sweep(next, order);
        lemma_swept_within(next, order, limit);
        assert(next.orders.contains_key(id));
        lemma_rematched_within(after, out.taker, limit);
    }
}

/// A cancel request leaves a book that fits.
pub proof fn lemma_canceled_fits(book: BookModel, seq_no: SeqNo, cancel: CancelOrder)
    requires
        model::valid(book),
        model::fits(book),
    ensures
        model::fits(model::cancel_order(book, seq_no, cancel).book),
{
    lemma_cancel_within(book, seq_no, cancel, u64::MAX + waiting_qty(book));
}

/// A stop order that starts to wait leaves a book that fits.
pub proof fn lemma_held_fits(book: BookModel, order: OrderState)
    requires
        model::valid(book),
        validity::off_book(book, order.order_id),
        model::fits(book),
    ensures
        model::fits(model::held(book, order)),
{
    lemma_held_within(book, order, u64::MAX as int);
}

/// Quantity that a command brings to the book.
pub fn quantity_of(cmd: &Command) -> (qty: Qty)
    ensures
        qty == demand(*cmd),
{
    match &cmd.payload {
        CommandPayload::New(order) => order.qty,
        CommandPayload::Cancel(_) => 0,
        CommandPayload::Replace(replace) => replace.new_qty,
    }
}

impl BookSide {
    /// Whether every level has at most `limit`.
    fn is_within(&self, orders: Ghost<Map<OrderId, OrderState>>, limit: Qty) -> (within: bool)
        requires
            book::totals_agree(self@, orders@),
        ensures
            within == levels_within(book::queues(self@), orders@, limit as int),
    {
        let entries = self.walk();
        let ghost levels = book::queues(self@);
        let ghost keys = ranking::ascending(self@);
        let mut i: usize = 0;
        while i < entries.len()
            invariant
                i <= entries@.len() == keys.len(),
                book::totals_agree(self@, orders@),
                levels == book::queues(self@),
                forall|j: int|
                    #![trigger entries@[j]]
                    0 <= j < entries@.len() ==> {
                        &&& entries@[j].0 == keys[j]
                        &&& self.levels@.contains_key(entries@[j].0)
                        &&& entries@[j].1@ == self@[entries@[j].0]
                    },
                forall|j: int|
                    0 <= j < i ==> model::queued_qty(levels[#[trigger] keys[j]], orders@) <= limit,
            decreases entries@.len() - i,
        {
            let ghost key = entries@[i as int].0;
            assert(self@.contains_key(key));
            assert(levels[key] == self@[key].orders);
            if entries[i].1.total_qty > limit {
                assert(levels.contains_key(key));
                return false;
            }
            i = i + 1;
        }
        proof {
            ranking::lemma_ascending(self@);
            assert forall|key: u64| #[trigger] levels.contains_key(key) implies model::queued_qty(
                levels[key],
                orders@,
            ) <= limit by {
                assert(self@.contains_key(key));
                assert(keys.contains(key));
                let j = choose|j: int| 0 <= j < keys.len() && keys[j] == key;
                assert(model::queued_qty(levels[keys[j]], orders@) <= limit);
            }
        }
        true
    }
}

impl OrderBook {
    /// Whether commands that bring `qty` in all can be processed without a level's quantity
    /// exceeding the largest `Qty`, whatever the commands are.
    pub fn has_room(&self, qty: Qty) -> (room: bool)
        requires
            self.wf(),
        ensures
            room == load_within(self@, u64::MAX - qty),
    {
        let limit: Qty = u64::MAX - qty;
        let ghost stops = self.waiting@;
        let ghost orders = self.orders@;
        let mut left: Qty = limit;
        let mut i: usize = 0;
        assert(stops.take(0) =~= Seq::empty());
        while i < self.waiting.len()
            invariant
                self.wf(),
                stops == self.waiting@,
                orders == self.orders@,
                i <= stops.len(),
                limit == u64::MAX - qty,
                left + model::queued_qty(stops.take(i as int), orders) == limit,
            decreases stops.len() - i,
        {
            assert(self@.orders.contains_key(self@.waiting[i as int]));
            let open = self.orders.get(&self.waiting[i]).unwrap().open_qty();
            proof {
                assert(stops.take(i + 1) =~= stops.take(i as int).push(stops[i as int]));
                quantities::lemma_qty_push(stops.take(i as int), orders, stops[i as int]);
                quantities::lemma_prefix_qty(stops, orders, i + 1);
            }
            if open > left {
                return false;
            }
            left = left - open;
            i = i + 1;
        }
        assert(stops.take(i as int) =~= stops);
        self.bids.is_within(Ghost(self.orders@), left) && self.asks.is_within(
            Ghost(self.orders@),
            left,
        )
    }
}

/// The levels of a book are within a limit if what rests at each price is.
proof fn lemma_sides_within(book: BookModel, limit: int)
    requires
        model::valid(book),
    ensures
        sides_within(book, limit) <==> forall|id: OrderId| #[trigger]
            standing::rests(book, id) ==> standing::sum_left(
                book.orders,
                standing::resting(book, book.orders[id].side, book.orders[id].price),
            ) <= limit,
{
    assert forall|id: OrderId| #[trigger] standing::rests(book, id) implies {
        let order = book.orders[id];
        let levels = book.side(order.side);
        let key = book::rank(order.side, order.price);
        &&& levels.contains_key(key)
        &&& standing::sum_left(
            book.orders,
            standing::resting(book, order.side, order.price),
        ) == model::queued_qty(levels[key], book.orders)
    } by {
        let order = book.orders[id];
        assert(model::order_valid(book, id));
        standing::lemma_resting(book, order.side, order.price);
    }
    assert forall|side: Side, key: u64| #[trigger] book.side(side).contains_key(key) implies {
        let id = book.side(side)[key][0];
        &&& standing::rests(book, id)
        &&& book.orders[id].side == side
        &&& book::rank(side, book.orders[id].price) == key
    } by {
        let id = book.side(side)[key][0];
        assert(model::side_valid(book.side(side), book.orders, side));
        assert(book.side(side)[key].contains(id));
        assert(model::rests_at(book.orders, id, side, key));
    }
    if forall|id: OrderId| #[trigger]
        standing::rests(book, id) ==> standing::sum_left(
            book.orders,
            standing::resting(book, book.orders[id].side, book.orders[id].price),
        ) <= limit {
        assert forall|key: u64| #[trigger] book.bids.contains_key(key) implies model::queued_qty(
            book.bids[key],
            book.orders,
        ) <= limit by {
            assert(book.side(Side::Buy).contains_key(key));
            assert(standing::rests(book, book.bids[key][0]));
        }
        assert forall|key: u64| #[trigger] book.asks.contains_key(key) implies model::queued_qty(
            book.asks[key],
            book.orders,
        ) <= limit by {
            assert(book.side(Side::Sell).contains_key(key));
            assert(standing::rests(book, book.asks[key][0]));
        }
    }
}

/// The load of a book is within a limit exactly if the quantity that waits is, and with it the
/// quantity that rests at any price of either side.
pub proof fn law_load(book: BookModel, limit: int)
    requires
        model::valid(book),
    ensures
        load_within(book, limit) <==> {
            let waiting = standing::sum_left(book.orders, book.waiting.to_set());
            &&& waiting <= limit
            &&& forall|id: OrderId| #[trigger]
                standing::rests(book, id) ==> {
                    let order = book.orders[id];
                    standing::sum_left(
                        book.orders,
                        standing::resting(book, order.side, order.price),
                    ) + waiting <= limit
                }
        },
{
    validity::lemma_waiting(book);
    assert forall|i: int| 0 <= i < book.waiting.len() implies book.orders[
        #[trigger] book.waiting[i]
    ].filled_qty <= book.orders[book.waiting[i]].original_qty by {
        assert(model::waits(book, book.waiting[i]));
    }
    standing::lemma_sum_queue(book.orders, book.waiting);
    lemma_sides_within(book, limit - waiting_qty(book));
}

/// While no order waits, there is room for a new order or a cancel request exactly if no price has
/// more resting than a `Qty` can count once it is processed.
pub proof fn law_room(book: BookModel, cmd: Command)
    requires
        model::valid(book),
        book.waiting.len() == 0,
        !(cmd.payload is Replace),
    ensures
        ({
            let done = model::processed(book, cmd).book;
            model::command_fits(book, cmd) <==> forall|id: OrderId| #[trigger]
                standing::rests(done, id) ==> standing::sum_left(
                    done.orders,
                    standing::resting(done, done.orders[id].side, done.orders[id].price),
                ) <= u64::MAX
        }),
{
    let start = BookModel { last_seq_no: cmd.seq_no, ..book };
    let step = model::applied(book, cmd);
    validity::lemma_renumbered(book, cmd.seq_no);
    validity::lemma_applied(book, cmd);
    validity::lemma_next_ready(step.book, step.events, 0);
    let i = model::next_ready(step.book, step.events, 0);
    if i < step.book.waiting.len() {
        match cmd.payload {
            CommandPayload::New(order) => {
                let state = OrderState::of(order);
                if model::new_order_flaw(start, order) is None {
                    validity::lemma_off_book(start, order.order_id);
                    validity::lemma_sweep(start, state);
                    assert(step.book == model::held(start, state));
                    assert(step.book.waiting[i] == order.order_id);
                    if order.condition == OrderCondition::AON {
                        volume::lemma_held_quiet(start, state);
                    } else {
                        assert(step.events.len() == 1);
                    }
                    assert(false);
                }
            },
            _ => {},
        }
    }
    lemma_sides_within(step.book, u64::MAX as int);
}

/// What a command brings: a new order its quantity, a replace request the quantity asked for, and
/// a cancel request nothing. Commands bring together what each of them brings.
pub proof fn law_demand(cmds: Seq<Command>, cmd: Command)
    ensures
        total_demand(cmds.push(cmd)) - total_demand(cmds) == (match cmd.payload {
            CommandPayload::New(order) => order.qty as int,
            CommandPayload::Cancel(_) => 0,
            CommandPayload::Replace(replace) => replace.new_qty as int,
        }),
        total_demand(Seq::empty()) == 0,
{
    assert(cmds.push(cmd).drop_last() =~= cmds);
}

} // verus!
