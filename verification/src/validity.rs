//! Every command keeps the book's invariant.
use crate::book;
use crate::liquidity;
use crate::model;
use crate::model::{BookModel, Queues, Step};
use crate::quantities;
use crate::ranking;
use crate::types::{
    CancelOrder, Command, CommandPayload, EngineEvent, NewOrder, OrderCondition, OrderId,
    OrderState, OrderType, ReplaceOrder, SeqNo, Side, Symbol, TimeInForce,
};
use vstd::prelude::*;

verus! {

/// A queue without its front names the other orders once each.
proof fn lemma_drop_front(queue: Seq<OrderId>)
    requires
        queue.len() > 0,
        queue.no_duplicates(),
    ensures
        queue.drop_first().no_duplicates(),
        !queue.drop_first().contains(queue[0]),
        forall|x: OrderId| #[trigger]
            queue.drop_first().contains(x) <==> queue.contains(x) && x != queue[0],
{
    let rest = queue.drop_first();
    assert forall|x: OrderId| #[trigger] rest.contains(x) <==> queue.contains(x) && x
        != queue[0] by {
        if rest.contains(x) {
            let i = choose|i: int| 0 <= i < rest.len() && rest[i] == x;
            assert(queue[i + 1] == x);
        }
        if queue.contains(x) && x != queue[0] {
            let i = choose|i: int| 0 <= i < queue.len() && queue[i] == x;
            assert(rest[i - 1] == x);
        }
    }
}

/// The front order of a valid side rests there.
pub proof fn lemma_front(levels: Queues, orders: Map<OrderId, OrderState>, side: Side)
    requires
        model::side_valid(levels, orders, side),
        ranking::is_least(levels, ranking::least(levels)),
    ensures
        levels[ranking::least(levels)].len() > 0,
        model::rests_at(orders, model::front(levels), side, ranking::least(levels)),
{
    let key = ranking::least(levels);
    assert(model::queue_valid(levels[key], orders, side, key));
    assert(model::rests_at(orders, levels[key][0], side, key));
}

/// One fill keeps the swept side valid.
proof fn lemma_fill_side(
    levels: Queues,
    orders: Map<OrderId, OrderState>,
    taker: OrderState,
    side: Side,
)
    requires
        model::side_valid(levels, orders, side),
        model::can_trade(levels, orders, taker),
        orders[model::front(levels)].filled_qty <= orders[model::front(levels)].original_qty,
    ensures
        model::side_valid(
            model::next_levels(levels, orders, taker),
            model::next_orders(levels, orders, taker),
            side,
        ),
{
    lemma_front(levels, orders, side);
    let key = ranking::least(levels);
    let id = model::front(levels);
    let next = model::next_levels(levels, orders, taker);
    let changed = model::next_orders(levels, orders, taker);
    lemma_drop_front(levels[key]);
    assert(next.dom().subset_of(levels.dom()));
    vstd::set_lib::lemma_len_subset(next.dom(), levels.dom());
    assert forall|k: u64| #[trigger] next.contains_key(k) implies model::queue_valid(
        next[k],
        changed,
        side,
        k,
    ) by {
        assert(levels.contains_key(k));
        assert(model::queue_valid(levels[k], orders, side, k));
        assert forall|i: int| 0 <= i < next[k].len() implies model::rests_at(
            changed,
            #[trigger] next[k][i],
            side,
            k,
        ) by {
            let x = next[k][i];
            if k == key {
                if model::next_fill(levels, orders, taker).maker_filled_completely {
                    assert(x == levels[key][i + 1]);
                    assert(model::rests_at(orders, levels[key][i + 1], side, key));
                } else {
                    assert(model::rests_at(orders, levels[key][i], side, key));
                }
            } else {
                assert(model::rests_at(orders, levels[k][i], side, k));
            }
        }
    }
}

/// A side stays valid if the orders in its queues stay as they are.
proof fn lemma_side_frame(
    levels: Queues,
    orders: Map<OrderId, OrderState>,
    changed: Map<OrderId, OrderState>,
    side: Side,
)
    requires
        model::side_valid(levels, orders, side),
        forall|id: OrderId, key: u64|
            #![trigger model::rests_at(orders, id, side, key)]
            model::rests_at(orders, id, side, key) && levels.contains_key(key)
                && levels[key].contains(id) ==> model::rests_at(changed, id, side, key),
    ensures
        model::side_valid(levels, changed, side),
{
    assert forall|k: u64| #[trigger] levels.contains_key(k) implies model::queue_valid(
        levels[k],
        changed,
        side,
        k,
    ) by {
        assert(model::queue_valid(levels[k], orders, side, k));
        assert forall|i: int| 0 <= i < levels[k].len() implies model::rests_at(
            changed,
            #[trigger] levels[k][i],
            side,
            k,
        ) by {
            assert(model::rests_at(orders, levels[k][i], side, k));
        }
    }
}

/// One fill keeps the book valid.
pub proof fn lemma_fill_valid(book: BookModel, taker: OrderState)
    requires
        model::valid(book),
        model::can_trade(book.side(taker.side.other()), book.orders, taker),
    ensures
        model::valid(model::after_fill(book, taker)),
{
    let side = taker.side.other();
    let levels = book.side(side);
    let next = model::after_fill(book, taker);
    let key = ranking::least(levels);
    let id = model::front(levels);
    lemma_front(levels, book.orders, side);
    assert(model::order_valid(book, id));
    lemma_fill_side(levels, book.orders, taker, side);
    lemma_side_frame(book.side(taker.side), book.orders, next.orders, taker.side);
    lemma_drop_front(levels[key]);
    assert forall|x: OrderId| #[trigger] next.orders.contains_key(x) implies model::order_valid(
        next,
        x,
    ) by {
        assert(model::order_valid(book, x));
        let order = book.orders[x];
        if x == id {
            assert(levels[key][0] == id);
        } else if order.is_open && !book.waiting.contains(x) && order.side == side && book::rank(
            order.side,
            order.price,
        ) == key {
            assert(levels[key].contains(x));
            assert(levels[key].drop_first().contains(x));
        }
    }
    lemma_waiting(book);
    assert forall|x: OrderId| #[trigger] book.waiting.contains(x) implies x != id by {
        if x == id {
            assert(levels[key].contains(id));
        }
    }
    lemma_waiting_frame(book, next);
}

/// Nothing of the order is on the book: it is unknown or closed.
pub open spec fn off_book(book: BookModel, id: OrderId) -> bool {
    book.orders.contains_key(id) ==> !book.orders[id].is_open
}

/// Only fills change an order: these fields stay.
pub open spec fn same_order(a: OrderState, b: OrderState) -> bool {
    &&& a.order_id == b.order_id
    &&& a.symbol == b.symbol
    &&& a.side == b.side
    &&& a.order_type == b.order_type
    &&& a.tif == b.tif
    &&& a.condition == b.condition
    &&& a.price == b.price
    &&& a.original_qty == b.original_qty
    &&& a.stop_price == b.stop_price
}

/// A sweep keeps the book valid, fills the taker at most up to its quantity, changes only orders
/// that rest on the swept side, and stops when no trade is possible.
pub proof fn lemma_sweep(book: BookModel, taker: OrderState)
    requires
        model::valid(book),
        taker.filled_qty <= taker.original_qty,
    ensures
        model::valid(model::swept(book, taker)),
        ({
            let out = model::sweep(book.side(taker.side.other()), book.orders, taker);
            &&& same_order(out.taker, taker)
            &&& out.taker.is_open == taker.is_open
            &&& taker.filled_qty <= out.taker.filled_qty <= taker.original_qty
            &&& out.orders.dom() == book.orders.dom()
            &&& forall|id: OrderId| #[trigger]
                book.orders.contains_key(id) ==> {
                    &&& same_order(out.orders[id], book.orders[id])
                    &&& !book.orders[id].is_open || book.orders[id].side == taker.side
                        || book.waiting.contains(id) ==> out.orders[id] == book.orders[id]
                }
            &&& !model::can_trade(out.levels, out.orders, out.taker)
        }),
    decreases taker.open(),
{
    let side = taker.side.other();
    let levels = book.side(side);
    if model::can_trade(levels, book.orders, taker) {
        lemma_front(levels, book.orders, side);
        let next = model::after_fill(book, taker);
        let next_taker = model::next_taker(levels, book.orders, taker);
        lemma_fill_valid(book, taker);
        lemma_sweep(next, next_taker);
        assert(next.side(side) == model::next_levels(levels, book.orders, taker));
        assert(model::swept(book, taker) == model::swept(next, next_taker));
        assert(next.orders.dom() =~= book.orders.dom());
        let out = model::sweep(levels, book.orders, taker);
        assert forall|id: OrderId| #[trigger] book.orders.contains_key(id) implies {
            &&& same_order(out.orders[id], book.orders[id])
            &&& !book.orders[id].is_open || book.orders[id].side == taker.side
                || book.waiting.contains(id) ==> out.orders[id] == book.orders[id]
        } by {
            assert(next.orders.contains_key(id));
            if book.waiting.contains(id) && id == model::front(levels) {
                lemma_waiting(book);
                assert(levels[ranking::least(levels)].contains(id));
            }
        }
    } else {
        assert(model::swept(book, taker) =~= book);
    }
}

/// Waiting orders wait, and are in no queue.
pub proof fn lemma_waiting(book: BookModel)
    requires
        model::valid(book),
    ensures
        forall|id: OrderId| #[trigger] book.waiting.contains(id) ==> model::waits(book, id),
        forall|id: OrderId, side: Side, key: u64|
            #![trigger book.waiting.contains(id), book.side(side).contains_key(key)]
            book.waiting.contains(id) && book.side(side).contains_key(key)
                ==> !book.side(side)[key].contains(id),
{
    assert forall|id: OrderId| #[trigger] book.waiting.contains(id) implies model::waits(
        book,
        id,
    ) by {
        let i = choose|i: int| 0 <= i < book.waiting.len() && book.waiting[i] == id;
        assert(model::waits(book, book.waiting[i]));
    }
    assert forall|id: OrderId, side: Side, key: u64|
        #![trigger book.waiting.contains(id), book.side(side).contains_key(key)]
        book.waiting.contains(id) && book.side(side).contains_key(
            key,
        ) implies !book.side(side)[key].contains(id) by {
        let queue = book.side(side)[key];
        assert(model::queue_valid(queue, book.orders, side, key));
        if queue.contains(id) {
            let i = choose|i: int| 0 <= i < queue.len() && queue[i] == id;
            assert(model::rests_at(book.orders, queue[i], side, key));
            assert(model::waits(book, id));
        }
    }
}

/// An order off the book is in no queue and not waiting.
pub proof fn lemma_off_book(book: BookModel, id: OrderId)
    requires
        model::valid(book),
        off_book(book, id),
    ensures
        forall|key: u64| #[trigger] book.bids.contains_key(key) ==> !book.bids[key].contains(id),
        forall|key: u64| #[trigger] book.asks.contains_key(key) ==> !book.asks[key].contains(id),
        !book.waiting.contains(id),
{
    assert forall|key: u64| #[trigger] book.bids.contains_key(key) implies !book.bids[key].contains(
        id,
    ) by {
        assert(model::queue_valid(book.bids[key], book.orders, Side::Buy, key));
    }
    assert forall|key: u64| #[trigger] book.asks.contains_key(key) implies !book.asks[key].contains(
        id,
    ) by {
        assert(model::queue_valid(book.asks[key], book.orders, Side::Sell, key));
    }
}

/// Recording a closed order keeps the book valid.
pub proof fn lemma_recorded_closed(book: BookModel, order: OrderState)
    requires
        model::valid(book),
        off_book(book, order.order_id),
        order.filled_qty <= order.original_qty,
    ensures
        model::valid(model::recorded(book, order, false)),
{
    let next = model::recorded(book, order, false);
    lemma_off_book(book, order.order_id);
    lemma_side_frame(book.bids, book.orders, next.orders, Side::Buy);
    lemma_side_frame(book.asks, book.orders, next.orders, Side::Sell);
    assert forall|x: OrderId| #[trigger] next.orders.contains_key(x) implies model::order_valid(
        next,
        x,
    ) by {
        if x != order.order_id {
            assert(model::order_valid(book, x));
        }
    }
    lemma_waiting_frame(book, next);
}

/// Waiting orders stay valid if they and the list of them stay as they are, and none is queued.
proof fn lemma_waiting_frame(book: BookModel, next: BookModel)
    requires
        model::waiting_valid(book),
        next.waiting == book.waiting,
        forall|id: OrderId| #[trigger]
            book.waiting.contains(id) ==> {
                let order = book.orders[id];
                let key = book::rank(order.side, order.price);
                &&& next.orders.contains_key(id)
                &&& next.orders[id] == order
                &&& model::queue_at(next.side(order.side), key).contains(id) ==> model::queue_at(
                    book.side(order.side),
                    key,
                ).contains(id)
            },
    ensures
        model::waiting_valid(next),
{
    assert forall|i: int| 0 <= i < next.waiting.len() implies model::waits(
        next,
        #[trigger] next.waiting[i],
    ) by {
        assert(book.waiting.contains(book.waiting[i]));
        assert(model::waits(book, book.waiting[i]));
    }
}

/// A good-til-cancel limit order with open quantity may rest.
pub proof fn lemma_rested(book: BookModel, order: OrderState)
    requires
        model::valid(book),
        off_book(book, order.order_id),
        order.filled_qty < order.original_qty,
        order.order_type == OrderType::Limit,
        order.tif == TimeInForce::GTC,
        order.condition != OrderCondition::Stop,
    ensures
        model::valid(model::rested(book, order)),
{
    let next = model::rested(book, order);
    let id = order.order_id;
    let key = book::rank(order.side, order.price);
    let levels = book.side(order.side);
    let queue = model::queue_at(levels, key);
    lemma_off_book(book, id);
    lemma_side_frame(book.bids, book.orders, next.orders, Side::Buy);
    lemma_side_frame(book.asks, book.orders, next.orders, Side::Sell);
    assert(queue.push(id)[queue.len() as int] == id);
    assert(model::side_valid(next.side(order.side), next.orders, order.side)) by {
        let after = next.side(order.side);
        assert forall|k: u64| #[trigger] after.contains_key(k) implies model::queue_valid(
            after[k],
            next.orders,
            order.side,
            k,
        ) by {
            if k == key {
                if levels.contains_key(key) {
                    assert(model::queue_valid(levels[key], next.orders, order.side, key));
                }
                assert forall|i: int| 0 <= i < after[k].len() implies model::rests_at(
                    next.orders,
                    #[trigger] after[k][i],
                    order.side,
                    k,
                ) by {
                    if i < queue.len() {
                        assert(model::rests_at(next.orders, queue[i], order.side, k));
                    }
                }
                assert(after[k].no_duplicates()) by {
                    assert forall|i: int, j: int|
                        0 <= i < after[k].len() && 0 <= j < after[k].len() && i != j implies after[k][i]
                        != after[k][j] by {
                        if i < queue.len() {
                            assert(queue.contains(queue[i]));
                        }
                        if j < queue.len() {
                            assert(queue.contains(queue[j]));
                        }
                    }
                }
            } else {
                assert(levels.contains_key(k));
            }
        }
    }
    assert forall|x: OrderId| #[trigger] next.orders.contains_key(x) implies model::order_valid(
        next,
        x,
    ) by {
        if x != id {
            assert(model::order_valid(book, x));
            let other = book.orders[x];
            if other.is_open && !book.waiting.contains(x) && other.side == order.side && book::rank(
                other.side,
                other.price,
            ) == key {
                let i = choose|i: int| 0 <= i < queue.len() && queue[i] == x;
                assert(queue.push(id)[i] == x);
            }
        }
    }
    assert forall|x: OrderId| queue.push(id).contains(x) && x != id implies #[trigger] queue.contains(
        x,
    ) by {
        let i = choose|i: int| 0 <= i < queue.push(id).len() && queue.push(id)[i] == x;
        assert(queue[i] == x);
    }
    lemma_waiting(book);
    lemma_waiting_frame(book, next);
}

/// An open order resting on the book stands in the queue of its price.
pub proof fn lemma_queued(book: BookModel, id: OrderId)
    requires
        model::valid(book),
        book.orders.contains_key(id),
        book.orders[id].is_open,
        !book.waiting.contains(id),
    ensures
        ({
            let order = book.orders[id];
            let key = book::rank(order.side, order.price);
            &&& book.side(order.side).contains_key(key)
            &&& book.side(order.side)[key].contains(id)
            &&& model::queue_valid(book.side(order.side)[key], book.orders, order.side, key)
            &&& model::rests_at(book.orders, id, order.side, key)
            &&& order.open() > 0
            &&& order.filled_qty <= order.original_qty
            &&& order.order_id == id
        }),
{
    assert(model::order_valid(book, id));
    let order = book.orders[id];
    let key = book::rank(order.side, order.price);
    let queue = model::queue_at(book.side(order.side), key);
    let i = choose|i: int| 0 <= i < queue.len() && queue[i] == id;
    assert(model::queue_valid(book.side(order.side)[key], book.orders, order.side, key));
    assert(model::rests_at(book.orders, queue[i], order.side, key));
}

/// An order taken off the book leaves it valid.
pub proof fn lemma_withdrawn_closed(book: BookModel, order: OrderState)
    requires
        model::valid(book),
        book.orders.contains_key(order.order_id),
        book.orders[order.order_id].is_open,
        order.filled_qty <= order.original_qty,
        order.side == book.orders[order.order_id].side,
        order.price == book.orders[order.order_id].price,
    ensures
        model::valid(model::recorded(model::withdrawn(book, order), order, false)),
{
    let id = order.order_id;
    let next = model::recorded(model::withdrawn(book, order), order, false);
    assert(model::order_valid(book, id));
    lemma_waiting(book);
    if book.waiting.contains(id) {
        quantities::lemma_remove_value(book.waiting, id);
        lemma_side_frame(book.bids, book.orders, next.orders, Side::Buy);
        lemma_side_frame(book.asks, book.orders, next.orders, Side::Sell);
        assert forall|i: int| 0 <= i < next.waiting.len() implies model::waits(
            next,
            #[trigger] next.waiting[i],
        ) by {
            assert(next.waiting.contains(next.waiting[i]));
            assert(book.waiting.contains(next.waiting[i]));
        }
        assert forall|x: OrderId| #[trigger] next.orders.contains_key(x) implies model::order_valid(
            next,
            x,
        ) by {
            if x != id {
                assert(model::order_valid(book, x));
            }
        }
    } else {
        lemma_queued(book, id);
        lemma_dequeued(book, order, next.orders);
        lemma_side_frame(
            book.side(order.side.other()),
            book.orders,
            next.orders,
            order.side.other(),
        );
        assert forall|x: OrderId| #[trigger] next.orders.contains_key(x) implies model::order_valid(
            next,
            x,
        ) by {
            if x != id {
                assert(model::order_valid(book, x));
            }
        }
        lemma_waiting_frame(book, next);
    }
}

/// A side without one of its resting orders is valid for orders that differ at that order only.
proof fn lemma_dequeued(
    book: BookModel,
    order: OrderState,
    changed: Map<OrderId, OrderState>,
)
    requires
        model::valid(book),
        book.orders.contains_key(order.order_id),
        book.orders[order.order_id].is_open,
        !book.waiting.contains(order.order_id),
        order.side == book.orders[order.order_id].side,
        order.price == book.orders[order.order_id].price,
        forall|x: OrderId|
            #![trigger changed.contains_key(x)]
            #![trigger changed[x]]
            x != order.order_id && book.orders.contains_key(x) ==> changed.contains_key(x)
                && changed[x] == book.orders[x],
    ensures
        ({
            let key = book::rank(order.side, order.price);
            let after = model::dequeue(book.side(order.side), key, order.order_id);
            &&& model::side_valid(after, changed, order.side)
            &&& forall|k: u64| #[trigger]
                after.contains_key(k) ==> !after[k].contains(order.order_id)
            &&& forall|k: u64, x: OrderId|
                #![trigger model::queue_at(after, k).contains(x)]
                model::queue_at(after, k).contains(x) <==> model::queue_at(
                    book.side(order.side),
                    k,
                ).contains(x) && x != order.order_id
        }),
{
    let id = order.order_id;
    let side = order.side;
    let levels = book.side(side);
    let key = book::rank(side, order.price);
    let after = model::dequeue(levels, key, id);
    lemma_queued(book, id);
    quantities::lemma_remove_value(levels[key], id);
    assert forall|k: u64| #[trigger] levels.contains_key(k) && k != key implies !levels[k].contains(
        id,
    ) by {
        assert(model::queue_valid(levels[k], book.orders, side, k));
        if levels[k].contains(id) {
            let i = choose|i: int| 0 <= i < levels[k].len() && levels[k][i] == id;
            assert(model::rests_at(book.orders, levels[k][i], side, k));
        }
    }
    assert(after.dom().subset_of(levels.dom()));
    vstd::set_lib::lemma_len_subset(after.dom(), levels.dom());
    assert forall|k: u64| #[trigger] after.contains_key(k) implies model::queue_valid(
        after[k],
        changed,
        side,
        k,
    ) by {
        assert(levels.contains_key(k));
        assert(model::queue_valid(levels[k], book.orders, side, k));
        assert forall|i: int| 0 <= i < after[k].len() implies model::rests_at(
            changed,
            #[trigger] after[k][i],
            side,
            k,
        ) by {
            let x = after[k][i];
            assert(after[k].contains(x));
            assert(levels[k].contains(x));
            let j = choose|j: int| 0 <= j < levels[k].len() && levels[k][j] == x;
            assert(model::rests_at(book.orders, levels[k][j], side, k));
            assert(changed.contains_key(x));
        }
    }
    assert forall|k: u64, x: OrderId|
        #![trigger model::queue_at(after, k).contains(x)]
        model::queue_at(after, k).contains(x) <==> model::queue_at(levels, k).contains(x) && x
            != id by {
        if k == key && after.contains_key(k) == false {
            if levels[k].remove_value(id).contains(x) {
                assert(levels[k].remove_value(id).len() == 0);
            }
        }
    }
}

/// A resting order filled further, but not completely, leaves the book valid.
pub proof fn lemma_recorded_open(book: BookModel, order: OrderState)
    requires
        model::valid(book),
        book.orders.contains_key(order.order_id),
        book.orders[order.order_id].is_open,
        !book.waiting.contains(order.order_id),
        order.filled_qty < order.original_qty,
        order.side == book.orders[order.order_id].side,
        order.price == book.orders[order.order_id].price,
        order.order_type == book.orders[order.order_id].order_type,
        order.tif == book.orders[order.order_id].tif,
        order.condition == book.orders[order.order_id].condition,
    ensures
        model::valid(model::recorded(book, order, true)),
{
    let id = order.order_id;
    let next = model::recorded(book, order, true);
    lemma_queued(book, id);
    lemma_side_frame(book.bids, book.orders, next.orders, Side::Buy);
    lemma_side_frame(book.asks, book.orders, next.orders, Side::Sell);
    assert forall|x: OrderId| #[trigger] next.orders.contains_key(x) implies model::order_valid(
        next,
        x,
    ) by {
        assert(model::order_valid(book, x));
    }
    lemma_waiting_frame(book, next);
}

/// An amended order leaves the book valid.
pub proof fn lemma_amended(book: BookModel, replace: ReplaceOrder)
    requires
        model::valid(book),
        model::replace_flaw(book, replace) is None,
    ensures
        model::valid(model::amended(book, replace)),
{
    let id = replace.order_id;
    let order = book.orders[id];
    let next = OrderState { original_qty: replace.new_qty, price: replace.new_price, ..order };
    assert(model::order_valid(book, id));
    if book.waiting.contains(id) {
        lemma_amended_waiting(book, next);
    } else if replace.new_price == order.price {
        lemma_queued(book, id);
        lemma_recorded_open(book, next);
    } else {
        lemma_queued(book, id);
        let without = model::recorded(model::withdrawn(book, order), order, false);
        lemma_withdrawn_closed(book, order);
        lemma_rested(without, next);
        assert(model::rested(without, next) =~= model::amended(book, replace));
    }
}

/// A waiting order with another price or quantity leaves the book valid.
proof fn lemma_amended_waiting(book: BookModel, order: OrderState)
    requires
        model::valid(book),
        book.waiting.contains(order.order_id),
        ({
            let known = book.orders[order.order_id];
            &&& order.side == known.side
            &&& order.order_type == known.order_type
            &&& order.tif == known.tif
            &&& order.condition == known.condition
            &&& order.filled_qty == known.filled_qty
            &&& order.original_qty > 0
        }),
    ensures
        model::valid(model::recorded(book, order, true)),
{
    let id = order.order_id;
    let next = model::recorded(book, order, true);
    lemma_waiting(book);
    lemma_side_frame(book.bids, book.orders, next.orders, Side::Buy);
    lemma_side_frame(book.asks, book.orders, next.orders, Side::Sell);
    assert forall|i: int| 0 <= i < next.waiting.len() implies model::waits(
        next,
        #[trigger] next.waiting[i],
    ) by {
        assert(book.waiting.contains(book.waiting[i]));
        assert(model::waits(book, book.waiting[i]));
    }
    assert forall|x: OrderId| #[trigger] next.orders.contains_key(x) implies model::order_valid(
        next,
        x,
    ) by {
        assert(model::order_valid(book, x));
    }
}

/// An order that starts to wait leaves the book valid.
pub proof fn lemma_held(book: BookModel, order: OrderState)
    requires
        model::valid(book),
        off_book(book, order.order_id),
        order.condition != OrderCondition::Unconditional,
        order.condition == OrderCondition::AON ==> order.order_type == OrderType::Limit && order.tif
            == TimeInForce::GTC,
        order.filled_qty == 0,
        order.original_qty > 0,
    ensures
        model::valid(model::held(book, order)),
{
    let id = order.order_id;
    let next = model::held(book, order);
    lemma_off_book(book, id);
    lemma_waiting(book);
    lemma_side_frame(book.bids, book.orders, next.orders, Side::Buy);
    lemma_side_frame(book.asks, book.orders, next.orders, Side::Sell);
    assert forall|i: int| 0 <= i < next.waiting.len() implies model::waits(
        next,
        #[trigger] next.waiting[i],
    ) by {
        if i < book.waiting.len() {
            assert(book.waiting.contains(book.waiting[i]));
            assert(model::waits(book, book.waiting[i]));
        }
    }
    assert(next.waiting.no_duplicates()) by {
        assert forall|i: int, j: int|
            0 <= i < next.waiting.len() && 0 <= j < next.waiting.len() && i
                != j implies next.waiting[i] != next.waiting[j] by {
            if i < book.waiting.len() {
                assert(book.waiting.contains(book.waiting[i]));
            }
            if j < book.waiting.len() {
                assert(book.waiting.contains(book.waiting[j]));
            }
        }
    }
    assert(next.waiting[book.waiting.len() as int] == id);
    assert forall|x: OrderId| #[trigger] next.orders.contains_key(x) implies model::order_valid(
        next,
        x,
    ) by {
        if x != id {
            assert(model::order_valid(book, x));
            if book.waiting.contains(x) {
                let i = choose|i: int| 0 <= i < book.waiting.len() && book.waiting[i] == x;
                assert(next.waiting[i] == x);
            }
        }
    }
}

/// A waiting order no longer waiting leaves the book valid and is off it.
pub proof fn lemma_released(book: BookModel, i: int)
    requires
        model::valid(book),
        0 <= i < book.waiting.len(),
    ensures
        model::valid(model::released(book, i)),
        off_book(model::released(book, i), book.waiting[i]),
        book.orders.contains_key(book.waiting[i]),
        book.orders[book.waiting[i]].is_open,
        ({
            let order = model::underlying(book.orders[book.waiting[i]]);
            &&& order.order_id == book.waiting[i]
            &&& order.filled_qty == 0
            &&& order.original_qty > 0
            &&& order.condition != OrderCondition::Stop
            &&& model::available_to(model::released(book, i), order) == model::available_to(
                book,
                order,
            )
        }),
{
    let id = book.waiting[i];
    let order = book.orders[id];
    assert(model::waits(book, id));
    assert(book.waiting.contains(id));
    assert(model::order_valid(book, id));
    lemma_waiting(book);
    let without = model::recorded(model::withdrawn(book, order), order, false);
    lemma_withdrawn_closed(book, order);
    lemma_recorded_closed(without, model::underlying(order));
    quantities::lemma_remove_value(book.waiting, id);
    assert(model::recorded(without, model::underlying(order), false) =~= model::released(book, i));
    let levels = book.side(order.side.other());
    assert forall|key: u64| #[trigger] levels.contains_key(key) implies !levels[key].contains(
        id,
    ) by {}
    liquidity::lemma_available_absent(
        levels,
        book.orders,
        id,
        model::underlying(order),
        model::reach_of(order.order_type, order.side, order.price),
    );
}

/// Entering an order keeps the book valid and the waiting orders as they are, unless the order is
/// one that starts to wait.
pub proof fn lemma_entered(book: BookModel, seq_no: SeqNo, order: OrderState)
    requires
        model::valid(book),
        off_book(book, order.order_id),
        order.filled_qty == 0,
        order.original_qty > 0,
        order.condition != OrderCondition::Stop,
    ensures
        model::valid(model::entered(book, seq_no, order).book),
        !(order.condition == OrderCondition::AON && model::short_across(book, order))
            ==> model::entered(book, seq_no, order).book.waiting == book.waiting,
{
    if order.tif == TimeInForce::FOK && model::short_of(book, order) {
    } else if order.condition == OrderCondition::AON && model::short_of(book, order) {
        if order.tif != TimeInForce::IOC && order.order_type == OrderType::Limit {
            if model::short_across(book, order) {
                lemma_held(book, order);
            } else {
                lemma_rested(book, order);
            }
        }
    } else {
        lemma_sweep(book, order);
        liquidity::lemma_sweep_fills(book, order);
        let out = model::sweep(book.side(order.side.other()), book.orders, order);
        let after = model::swept(book, order);
        assert(off_book(after, order.order_id));
        if out.taker.open() == 0 || order.order_type == OrderType::Market || order.tif
            == TimeInForce::IOC {
            lemma_recorded_closed(after, out.taker);
        } else {
            lemma_rested(after, out.taker);
        }
    }
}

/// A new order keeps the book valid.
pub proof fn lemma_new_order(book: BookModel, seq_no: SeqNo, order: NewOrder)
    requires
        model::valid(book),
    ensures
        model::valid(model::new_order(book, seq_no, order).book),
{
    if model::new_order_flaw(book, order) is None {
        let state = OrderState::of(order);
        if order.condition == OrderCondition::Stop {
            lemma_held(book, state);
        } else {
            lemma_entered(book, seq_no, state);
        }
    }
}

/// A cancel request keeps the book valid.
pub proof fn lemma_cancel_order(book: BookModel, seq_no: SeqNo, cancel: CancelOrder)
    requires
        model::valid(book),
    ensures
        model::valid(model::cancel_order(book, seq_no, cancel).book),
{
    if model::cancel_flaw(book, cancel) is None {
        assert(model::order_valid(book, cancel.order_id));
        lemma_withdrawn_closed(book, book.orders[cancel.order_id]);
    }
}

/// A replace request keeps the book valid.
pub proof fn lemma_replace_order(book: BookModel, seq_no: SeqNo, replace: ReplaceOrder)
    requires
        model::valid(book),
    ensures
        model::valid(model::replace_order(book, seq_no, replace).book),
{
    if model::replace_flaw(book, replace) is None {
        let id = replace.order_id;
        lemma_amended(book, replace);
        if !book.waiting.contains(id) {
            lemma_queued(book, id);
            let next = model::amended(book, replace);
            let order = next.orders[id];
            let out = model::sweep(next.side(order.side.other()), next.orders, order);
            lemma_sweep(next, order);
            let after = model::swept(next, order);
            assert(next.orders.contains_key(id));
            assert(after.orders[id] == order);
            if out.taker.open() == 0 {
                lemma_withdrawn_closed(after, out.taker);
            } else {
                lemma_recorded_open(after, out.taker);
            }
        }
    }
}

/// The waiting order found to be ready is ready.
pub proof fn lemma_next_ready(book: BookModel, events: Seq<EngineEvent>, from: int)
    requires
        0 <= from <= book.waiting.len(),
    ensures
        ({
            let i = model::next_ready(book, events, from);
            &&& from <= i <= book.waiting.len()
            &&& i < book.waiting.len() ==> model::ready(
                book,
                book.orders[book.waiting[i]],
                events,
            )
            &&& forall|j: int|
                from <= j < i ==> !model::ready(book, book.orders[#[trigger] book.waiting[j]], events)
        }),
    decreases book.waiting.len() - from,
{
    if from < book.waiting.len() && !model::ready(
        book,
        book.orders[book.waiting[from]],
        events,
    ) {
        lemma_next_ready(book, events, from + 1);
    }
}

/// A waiting order that enters keeps the book valid and no longer waits.
pub proof fn lemma_activated(book: BookModel, seq_no: SeqNo, i: int, events: Seq<EngineEvent>)
    requires
        model::valid(book),
        0 <= i < book.waiting.len(),
        model::ready(book, book.orders[book.waiting[i]], events),
    ensures
        model::valid(model::activated(book, seq_no, i).book),
        model::activated(book, seq_no, i).book.waiting == book.waiting.remove(i),
        ({
            let order = model::underlying(book.orders[book.waiting[i]]);
            !(order.condition == OrderCondition::AON && model::short_across(
                model::released(book, i),
                order,
            ))
        }),
{
    lemma_released(book, i);
    lemma_entered(
        model::released(book, i),
        seq_no,
        model::underlying(book.orders[book.waiting[i]]),
    );
}

/// What the next step of a cascade finds and leaves.
pub proof fn lemma_cascade_step(step: Step, seq_no: SeqNo)
    requires
        model::valid(step.book),
    ensures
        ({
            let i = model::next_ready(step.book, step.events, 0);
            0 <= i < step.book.waiting.len() ==> {
                let next = model::activated(step.book, seq_no, i);
                let order = model::underlying(step.book.orders[step.book.waiting[i]]);
                let released = model::released(step.book, i);
                &&& model::ready(step.book, step.book.orders[step.book.waiting[i]], step.events)
                &&& model::valid(released)
                &&& off_book(released, order.order_id)
                &&& step.book.orders.contains_key(order.order_id)
                &&& step.book.orders[order.order_id].is_open
                &&& step.book.waiting.contains(order.order_id)
                &&& order.order_id == step.book.waiting[i]
                &&& order.filled_qty == 0
                &&& order.original_qty > 0
                &&& order.condition != OrderCondition::Stop
                &&& !(order.condition == OrderCondition::AON && model::short_across(
                    released,
                    order,
                ))
                &&& model::valid(next.book)
                &&& next.book.waiting == step.book.waiting.remove(i)
                &&& model::cascaded(step, seq_no) == model::cascaded(
                    Step { book: next.book, events: step.events + next.events },
                    seq_no,
                )
            }
        }),
{
    lemma_next_ready(step.book, step.events, 0);
    let i = model::next_ready(step.book, step.events, 0);
    if i < step.book.waiting.len() {
        let next = model::activated(step.book, seq_no, i);
        lemma_released(step.book, i);
        lemma_activated(step.book, seq_no, i, step.events);
        assert(BookModel { waiting: step.book.waiting.remove(i), ..next.book } == next.book);
        assert(step.book.waiting.contains(step.book.waiting[i]));
    }
}

/// Letting waiting orders enter keeps the book valid.
pub proof fn lemma_cascaded(step: Step, seq_no: SeqNo)
    requires
        model::valid(step.book),
    ensures
        model::valid(model::cascaded(step, seq_no).book),
    decreases step.book.waiting.len(),
{
    let i = model::next_ready(step.book, step.events, 0);
    if 0 <= i < step.book.waiting.len() {
        let next = model::activated(step.book, seq_no, i);
        lemma_cascade_step(step, seq_no);
        lemma_cascaded(Step { book: next.book, events: step.events + next.events }, seq_no);
    }
}

/// A book whose last sequence number changed is as valid as before.
pub proof fn lemma_renumbered(book: BookModel, seq_no: SeqNo)
    requires
        model::valid(book),
    ensures
        model::valid(BookModel { last_seq_no: seq_no, ..book }),
{
    let next = BookModel { last_seq_no: seq_no, ..book };
    assert forall|x: OrderId| #[trigger] next.orders.contains_key(x) implies model::order_valid(
        next,
        x,
    ) by {
        assert(model::order_valid(book, x));
    }
}

/// A command keeps the book valid before stop orders are triggered.
pub proof fn lemma_applied(book: BookModel, cmd: Command)
    requires
        model::valid(book),
    ensures
        model::valid(model::applied(book, cmd).book),
{
    let start = BookModel { last_seq_no: cmd.seq_no, ..book };
    lemma_renumbered(book, cmd.seq_no);
    match cmd.payload {
        CommandPayload::New(order) => lemma_new_order(start, cmd.seq_no, order),
        CommandPayload::Cancel(cancel) => lemma_cancel_order(start, cmd.seq_no, cancel),
        CommandPayload::Replace(replace) => lemma_replace_order(start, cmd.seq_no, replace),
    }
}

/// Every command keeps the book valid.
pub proof fn lemma_processed(book: BookModel, cmd: Command)
    requires
        model::valid(book),
    ensures
        model::valid(model::processed(book, cmd).book),
{
    lemma_applied(book, cmd);
    lemma_cascaded(model::applied(book, cmd), cmd.seq_no);
}

/// An empty book is valid.
pub proof fn lemma_fresh(symbol: Symbol)
    ensures
        model::valid(BookModel::fresh(symbol)),
{
}

} // verus!
