//! How much a sweep fills: what is asked for or what is available, whichever is less.
use crate::book;
use crate::model;
use crate::model::{BookModel, Queues};
use crate::quantities;
use crate::ranking;
use crate::types::{OrderId, OrderState, Side};
use crate::validity;
use vstd::prelude::*;

verus! {

/// The quantity within reach depends on the levels' quantities only.
pub proof fn lemma_within_same(
    keys: Seq<u64>,
    levels: Queues,
    orders: Map<OrderId, OrderState>,
    other_levels: Queues,
    other_orders: Map<OrderId, OrderState>,
    reach: u64,
)
    requires
        forall|i: int|
            0 <= i < keys.len() ==> model::queued_qty(levels[#[trigger] keys[i]], orders)
                == model::queued_qty(other_levels[keys[i]], other_orders),
    ensures
        model::qty_within(keys, levels, orders, reach) == model::qty_within(
            keys,
            other_levels,
            other_orders,
            reach,
        ),
    decreases keys.len(),
{
    if keys.len() > 0 {
        let rest = keys.drop_first();
        assert forall|i: int| 0 <= i < rest.len() implies model::queued_qty(
            levels[#[trigger] rest[i]],
            orders,
        ) == model::queued_qty(other_levels[rest[i]], other_orders) by {
            assert(rest[i] == keys[i + 1]);
        }
        lemma_within_same(rest, levels, orders, other_levels, other_orders, reach);
    }
}

/// A change of an order in one level leaves the quantity of the other levels.
pub proof fn lemma_other_levels(
    levels: Queues,
    orders: Map<OrderId, OrderState>,
    side: Side,
    key: u64,
    id: OrderId,
    order: OrderState,
    other: u64,
)
    requires
        model::side_valid(levels, orders, side),
        model::rests_at(orders, id, side, key),
        levels.contains_key(other),
        other != key,
    ensures
        !levels[other].contains(id),
        model::queued_qty(levels[other], orders.insert(id, order)) == model::queued_qty(
            levels[other],
            orders,
        ),
{
    assert(model::queue_valid(levels[other], orders, side, other));
    if levels[other].contains(id) {
        let i = choose|i: int| 0 <= i < levels[other].len() && levels[other][i] == id;
        assert(model::rests_at(orders, levels[other][i], side, other));
    }
    quantities::lemma_qty_absent(levels[other], orders, id, order);
}

/// A fill takes its quantity from the front level.
pub proof fn lemma_front_level_qty(book: BookModel, taker: OrderState)
    requires
        model::valid(book),
        model::can_trade(book.side(taker.side.other()), book.orders, taker),
    ensures
        ({
            let levels = book.side(taker.side.other());
            let key = ranking::least(levels);
            let maker = book.orders[model::front(levels)];
            let next = model::after_fill(book, taker);
            let queue = if model::next_fill(
                levels,
                book.orders,
                taker,
            ).maker_filled_completely {
                levels[key].drop_first()
            } else {
                levels[key]
            };
            &&& model::queued_qty(queue, next.orders) + model::trade_qty(taker, maker)
                == model::queued_qty(levels[key], book.orders)
            &&& model::queue_at(next.side(taker.side.other()), key) == queue
        }),
{
    let side = taker.side.other();
    let levels = book.side(side);
    let key = ranking::least(levels);
    let id = model::front(levels);
    let maker = book.orders[id];
    let qty = model::trade_qty(taker, maker);
    validity::lemma_front(levels, book.orders, side);
    assert(model::queue_valid(levels[key], book.orders, side, key));
    assert(model::order_valid(book, id));
    let next = model::after_fill(book, taker);
    quantities::lemma_qty_update(levels[key], book.orders, 0, model::filled(maker, qty));
    assert(model::queued_qty(levels[key], next.orders) + qty == model::queued_qty(
        levels[key],
        book.orders,
    ));
    if model::next_fill(levels, book.orders, taker).maker_filled_completely {
        assert(next.orders[id].open() == 0);
        assert(model::queued_qty(levels[key], next.orders) == next.orders[id].open()
            + model::queued_qty(levels[key].drop_first(), next.orders));
        assert(model::queue_at(next.side(side), key) =~= levels[key].drop_first());
    }
}

/// A fill lowers the quantity available to the taker by its own quantity.
proof fn lemma_available_fill(book: BookModel, taker: OrderState)
    requires
        model::valid(book),
        model::can_trade(book.side(taker.side.other()), book.orders, taker),
    ensures
        model::available_to(
            model::after_fill(book, taker),
            model::next_taker(book.side(taker.side.other()), book.orders, taker),
        ) + model::trade_qty(taker, book.orders[model::front(book.side(taker.side.other()))])
            == model::available_to(book, taker),
{
    let side = taker.side.other();
    let levels = book.side(side);
    let key = ranking::least(levels);
    let id = model::front(levels);
    let maker = book.orders[id];
    let qty = model::trade_qty(taker, maker);
    let reach = model::reach_of(taker.order_type, taker.side, taker.price);
    let next = model::after_fill(book, taker);
    let next_levels = next.side(side);
    assert(next_levels == model::next_levels(levels, book.orders, taker));
    validity::lemma_front(levels, book.orders, side);
    lemma_front_level_qty(book, taker);
    assert(levels.dom().contains(key));
    let tail = ranking::ascending(levels.remove(key));
    assert(ranking::ascending(levels) == seq![key] + tail);
    assert(ranking::ascending(levels).drop_first() =~= tail);
    ranking::lemma_ascending(levels.remove(key));
    assert forall|i: int| 0 <= i < tail.len() implies model::queued_qty(
        levels[#[trigger] tail[i]],
        book.orders,
    ) == model::queued_qty(next_levels[tail[i]], next.orders) by {
        assert(tail.contains(tail[i]));
        lemma_other_levels(
            levels,
            book.orders,
            side,
            key,
            id,
            model::filled(maker, qty),
            tail[i],
        );
    }
    lemma_within_same(tail, levels, book.orders, next_levels, next.orders, reach);
    if next_levels.contains_key(key) {
        assert(next_levels.dom() =~= levels.dom());
        ranking::lemma_ascending_same_keys(levels, next_levels);
    } else {
        assert(next_levels =~= levels.remove(key));
        assert(levels[key].drop_first().len() == 0);
        assert(model::queued_qty(levels[key].drop_first(), next.orders) == 0);
    }
}

/// A sweep fills the taker's open quantity or the quantity available to it, whichever is less.
pub proof fn lemma_sweep_fills(book: BookModel, taker: OrderState)
    requires
        model::valid(book),
        taker.filled_qty <= taker.original_qty,
    ensures
        ({
            let out = model::sweep(book.side(taker.side.other()), book.orders, taker);
            let possible = model::available_to(book, taker);
            out.taker.filled_qty - taker.filled_qty == if taker.open() <= possible {
                taker.open()
            } else {
                possible
            }
        }),
    decreases taker.open(),
{
    let side = taker.side.other();
    let levels = book.side(side);
    if model::can_trade(levels, book.orders, taker) {
        let next = model::after_fill(book, taker);
        let next_taker = model::next_taker(levels, book.orders, taker);
        validity::lemma_front(levels, book.orders, side);
        validity::lemma_fill_valid(book, taker);
        lemma_available_fill(book, taker);
        lemma_sweep_fills(next, next_taker);
        assert(next.side(side) == model::next_levels(levels, book.orders, taker));
    } else if taker.open() > 0 {
        ranking::lemma_ascending(levels);
        if levels.dom().len() > 0 {
            ranking::lemma_least_exists(levels);
            validity::lemma_front(levels, book.orders, side);
            assert(model::order_valid(book, model::front(levels)));
            assert(ranking::ascending(levels)[0] == ranking::least(levels));
        }
    }
}

/// A change of an order that is in no queue leaves the quantity available.
pub proof fn lemma_available_absent(
    levels: Queues,
    orders: Map<OrderId, OrderState>,
    id: OrderId,
    order: OrderState,
    reach: u64,
)
    requires
        levels.dom().finite(),
        forall|key: u64| #[trigger] levels.contains_key(key) ==> !levels[key].contains(id),
    ensures
        model::available(levels, orders.insert(id, order), reach) == model::available(
            levels,
            orders,
            reach,
        ),
{
    let keys = ranking::ascending(levels);
    let changed = orders.insert(id, order);
    ranking::lemma_ascending(levels);
    assert forall|i: int| 0 <= i < keys.len() implies model::queued_qty(
        levels[#[trigger] keys[i]],
        changed,
    ) == model::queued_qty(levels[keys[i]], orders) by {
        assert(keys.contains(keys[i]));
        quantities::lemma_qty_absent(levels[keys[i]], orders, id, order);
    }
    lemma_within_same(keys, levels, changed, levels, orders, reach);
}

/// What a level contributes to the quantity within reach.
pub open spec fn share_of(
    levels: Queues,
    orders: Map<OrderId, OrderState>,
    key: u64,
    reach: u64,
) -> nat {
    if levels.contains_key(key) && key <= reach {
        model::queued_qty(levels[key], orders)
    } else {
        0
    }
}

/// The quantity within reach is what one level contributes and what the others do.
pub proof fn lemma_extract(levels: Queues, orders: Map<OrderId, OrderState>, key: u64, reach: u64)
    requires
        levels.dom().finite(),
        levels.contains_key(key),
    ensures
        model::available(levels, orders, reach) == share_of(levels, orders, key, reach)
            + model::available(levels.remove(key), orders, reach),
    decreases levels.dom().len(),
{
    assert(levels.dom().contains(key));
    ranking::lemma_least_exists(levels);
    let first = ranking::least(levels);
    let rest = levels.remove(first);
    let tail = ranking::ascending(rest);
    ranking::lemma_ascending(rest);
    assert(ranking::ascending(levels).drop_first() =~= tail);
    assert forall|i: int| 0 <= i < tail.len() implies rest.contains_key(#[trigger] tail[i]) by {
        assert(tail.contains(tail[i]));
    }
    lemma_within_same(tail, levels, orders, rest, orders, reach);
    if key == first {
        if first > reach && tail.len() > 0 {
            assert(rest.contains_key(tail[0]));
        }
    } else {
        lemma_extract(rest, orders, key, reach);
        let without = levels.remove(key);
        assert(ranking::is_least(without, first));
        ranking::lemma_least_unique(without, first);
        assert(without.dom().contains(first));
        assert(without.remove(first) =~= rest.remove(key));
        let last = ranking::ascending(rest.remove(key));
        assert(ranking::ascending(without) == seq![first] + last);
        assert(ranking::ascending(without).drop_first() =~= last);
        ranking::lemma_ascending(rest.remove(key));
        assert forall|i: int| 0 <= i < last.len() implies rest.remove(key).contains_key(
            #[trigger] last[i],
        ) by {
            assert(last.contains(last[i]));
        }
        lemma_within_same(last, without, orders, rest.remove(key), orders, reach);
        if first > reach && tail.len() > 0 {
            assert(rest.contains_key(tail[0]));
        }
    }
}

/// A change at one level changes the quantity within reach by what it changes there.
pub proof fn lemma_one_level(
    levels: Queues,
    orders: Map<OrderId, OrderState>,
    other_levels: Queues,
    other_orders: Map<OrderId, OrderState>,
    key: u64,
    reach: u64,
)
    requires
        levels.dom().finite(),
        other_levels.dom().finite(),
        levels.remove(key) == other_levels.remove(key),
        forall|k: u64| #[trigger]
            levels.contains_key(k) && k != key ==> model::queued_qty(levels[k], other_orders)
                == model::queued_qty(levels[k], orders),
    ensures
        model::available(other_levels, other_orders, reach) + share_of(levels, orders, key, reach)
            == model::available(levels, orders, reach) + share_of(
            other_levels,
            other_orders,
            key,
            reach,
        ),
        share_of(other_levels, other_orders, key, reach) <= model::available(
            other_levels,
            other_orders,
            reach,
        ),
{
    let rest = levels.remove(key);
    let keys = ranking::ascending(rest);
    ranking::lemma_ascending(rest);
    assert forall|i: int| 0 <= i < keys.len() implies model::queued_qty(
        rest[#[trigger] keys[i]],
        orders,
    ) == model::queued_qty(rest[keys[i]], other_orders) by {
        assert(keys.contains(keys[i]));
        assert(levels.contains_key(keys[i]));
    }
    lemma_within_same(keys, rest, orders, rest, other_orders, reach);
    if levels.contains_key(key) {
        lemma_extract(levels, orders, key, reach);
    } else {
        assert(rest =~= levels);
    }
    if other_levels.contains_key(key) {
        lemma_extract(other_levels, other_orders, key, reach);
    } else {
        assert(rest =~= other_levels);
    }
}

} // verus!
