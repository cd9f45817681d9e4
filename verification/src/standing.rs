//! What a book shows, said of its orders alone: which orders rest, at which prices, and how much
//! of them is left.
use crate::book;
use crate::crossing;
use crate::fifo;
use crate::liquidity;
use crate::model;
use crate::model::{BookModel, Queues};
use crate::ranking;
use crate::types::{
    Bbo, Command, EngineEvent, OrderCondition, OrderId, OrderState, OrderType, Price, Qty, Side,
};
use crate::validity;
use vstd::prelude::*;

verus! {

/// What is left of an order.
pub open spec fn left(order: OrderState) -> int {
    order.original_qty - order.filled_qty
}

/// The order rests on the book: it is on record, open, and does not wait.
pub open spec fn rests(book: BookModel, id: OrderId) -> bool {
    &&& book.orders.contains_key(id)
    &&& book.orders[id].is_open
    &&& !book.waiting.contains(id)
}

/// The orders of a side that rest at a price.
pub open spec fn resting(book: BookModel, side: Side, price: Price) -> Set<OrderId> {
    Set::new(
        |id: OrderId|
            {
                &&& rests(book, id)
                &&& book.orders[id].side == side
                &&& book.orders[id].price == price
            },
    )
}

/// Price `a` is at least as good as `b` for orders that rest on `side`: not lower for bids, not
/// higher for asks.
pub open spec fn no_worse(side: Side, a: Price, b: Price) -> bool {
    match side {
        Side::Buy => a >= b,
        Side::Sell => a <= b,
    }
}

/// An order of this side and type with limit `limit` may trade at `price`: a market order at any,
/// a buy order at its limit or below, a sell order at its limit or above.
pub open spec fn may_trade_at(
    side: Side,
    order_type: OrderType,
    limit: Price,
    price: Price,
) -> bool {
    order_type == OrderType::Market || match side {
        Side::Buy => price <= limit,
        Side::Sell => price >= limit,
    }
}

/// The resting orders with which an order of this side, type and limit may trade.
pub open spec fn partners(
    book: BookModel,
    side: Side,
    order_type: OrderType,
    limit: Price,
) -> Set<OrderId> {
    Set::new(
        |id: OrderId|
            {
                &&& rests(book, id)
                &&& book.orders[id].side != side
                &&& may_trade_at(side, order_type, limit, book.orders[id].price)
            },
    )
}

/// What is left of some orders, added up.
pub open spec fn sum_left(orders: Map<OrderId, OrderState>, ids: Set<OrderId>) -> int
    decreases ids.len(),
    when ids.finite()
{
    if ids.len() == 0 {
        0
    } else {
        let id = ids.choose();
        left(orders[id]) + sum_left(orders, ids.remove(id))
    }
}

/// Best price and quantity of a side: the best price at which an order rests and all that is left
/// of the orders there, or none and zero if no order rests on the side.
pub open spec fn side_quoted(book: BookModel, side: Side, price: Option<Price>, qty: Qty) -> bool {
    match price {
        Some(best) => {
            &&& exists|id: OrderId| #[trigger] resting(book, side, best).contains(id)
            &&& forall|id: OrderId| #[trigger]
                rests(book, id) && book.orders[id].side == side ==> no_worse(
                    side,
                    best,
                    book.orders[id].price,
                )
            &&& sum_left(book.orders, resting(book, side, best)) <= u64::MAX ==> qty == sum_left(
                book.orders,
                resting(book, side, best),
            )
        },
        None => {
            &&& forall|id: OrderId| #[trigger] rests(book, id) ==> book.orders[id].side != side
            &&& qty == 0
        },
    }
}

/// The best bid and offer shows the best price of each side with the quantity there.
pub open spec fn quoted(book: BookModel, bbo: Bbo) -> bool {
    &&& side_quoted(book, Side::Buy, bbo.bid_price, bbo.bid_qty)
    &&& side_quoted(book, Side::Sell, bbo.ask_price, bbo.ask_qty)
}

/// No all-or-none order waits without need: of what each that waits asks for, some rests within
/// its limit, but not all.
pub open spec fn still(book: BookModel) -> bool {
    forall|i: int|
        0 <= i < book.waiting.len() ==> {
            let order = book.orders[#[trigger] book.waiting[i]];
            order.condition == OrderCondition::AON ==> 0 < sum_left(
                book.orders,
                partners(book, order.side, order.order_type, order.price),
            ) < left(order)
        }
}

// ---------------------------------------------------------------------------
// Sums
// ---------------------------------------------------------------------------

/// Every order adds what is left of it to a sum, whatever the order of addition.
pub proof fn lemma_sum_remove(orders: Map<OrderId, OrderState>, ids: Set<OrderId>, id: OrderId)
    requires
        ids.finite(),
        ids.contains(id),
    ensures
        sum_left(orders, ids) == left(orders[id]) + sum_left(orders, ids.remove(id)),
    decreases ids.len(),
{
    let first = ids.choose();
    assert(ids.len() > 0);
    assert(ids.contains(first));
    if first != id {
        lemma_sum_remove(orders, ids.remove(first), id);
        lemma_sum_remove(orders, ids.remove(id), first);
        assert(ids.remove(first).remove(id) =~= ids.remove(id).remove(first));
    }
}

/// The sum over two sets of orders without a common one.
pub proof fn lemma_sum_union(
    orders: Map<OrderId, OrderState>,
    a: Set<OrderId>,
    b: Set<OrderId>,
)
    requires
        a.finite(),
        b.finite(),
        a.disjoint(b),
    ensures
        sum_left(orders, a + b) == sum_left(orders, a) + sum_left(orders, b),
    decreases a.len(),
{
    if a.len() == 0 {
        assert(a =~= Set::empty());
        assert(a + b =~= b);
    } else {
        let id = a.choose();
        assert(a.contains(id));
        lemma_sum_union(orders, a.remove(id), b);
        lemma_sum_remove(orders, a, id);
        lemma_sum_remove(orders, a + b, id);
        assert((a + b).remove(id) =~= a.remove(id) + b);
    }
}

/// The sum over a queue is the sum over the orders in it.
pub proof fn lemma_sum_queue(orders: Map<OrderId, OrderState>, queue: Seq<OrderId>)
    requires
        queue.no_duplicates(),
        forall|i: int|
            0 <= i < queue.len() ==> orders[#[trigger] queue[i]].filled_qty
                <= orders[queue[i]].original_qty,
    ensures
        queue.to_set().finite(),
        sum_left(orders, queue.to_set()) == model::queued_qty(queue, orders),
    decreases queue.len(),
{
    vstd::seq_lib::seq_to_set_is_finite(queue);
    if queue.len() == 0 {
        assert(queue.to_set() =~= Set::empty());
    } else {
        let rest = queue.drop_first();
        let id = queue[0];
        assert forall|i: int| 0 <= i < rest.len() implies orders[#[trigger] rest[i]].filled_qty
            <= orders[rest[i]].original_qty by {
            assert(rest[i] == queue[i + 1]);
        }
        lemma_sum_queue(orders, rest);
        assert(queue.to_set().contains(id)) by {
            assert(queue.contains(id));
        }
        lemma_sum_remove(orders, queue.to_set(), id);
        assert(queue.to_set().remove(id) =~= rest.to_set()) by {
            assert forall|x: OrderId| queue.to_set().remove(id).contains(x)
                <==> rest.to_set().contains(x) by {
                if rest.contains(x) {
                    let i = choose|i: int| 0 <= i < rest.len() && rest[i] == x;
                    assert(queue[i + 1] == x);
                    assert(queue.contains(x));
                }
                if queue.contains(x) && x != id {
                    let i = choose|i: int| 0 <= i < queue.len() && queue[i] == x;
                    assert(rest[i - 1] == x);
                }
            }
        }
    }
}

/// The orders that rest at a price are those in its queue.
pub proof fn lemma_resting(book: BookModel, side: Side, price: Price)
    requires
        model::valid(book),
    ensures
        resting(book, side, price) == fifo::queue_of(book, side, price).to_set(),
        resting(book, side, price).finite(),
        sum_left(book.orders, resting(book, side, price)) == model::queued_qty(
            fifo::queue_of(book, side, price),
            book.orders,
        ),
{
    let key = book::rank(side, price);
    let queue = fifo::queue_of(book, side, price);
    fifo::lemma_queue_distinct(book, side, key);
    assert(resting(book, side, price) =~= queue.to_set()) by {
        assert forall|id: OrderId| resting(book, side, price).contains(id)
            <==> queue.to_set().contains(id) by {
            if resting(book, side, price).contains(id) {
                assert(model::order_valid(book, id));
            }
            if queue.contains(id) {
                assert(model::rests_at(book.orders, id, side, key));
            }
        }
    }
    assert forall|i: int| 0 <= i < queue.len() implies book.orders[#[trigger] queue[i]].filled_qty
        <= book.orders[queue[i]].original_qty by {
        assert(queue.contains(queue[i]));
        assert(model::order_valid(book, queue[i]));
    }
    lemma_sum_queue(book.orders, queue);
}

/// The orders queued at keys up to `reach`.
spec fn reached(levels: Queues, reach: u64) -> Set<OrderId> {
    Set::new(
        |id: OrderId|
            exists|key: u64| #[trigger] levels.contains_key(key) && key <= reach
                && levels[key].contains(id),
    )
}

/// The quantity available up to a key is the sum over the orders queued up to it.
proof fn lemma_reached(
    levels: Queues,
    orders: Map<OrderId, OrderState>,
    side: Side,
    reach: u64,
)
    requires
        model::side_valid(levels, orders, side),
        forall|key: u64, i: int|
            #![trigger levels[key][i]]
            levels.contains_key(key) && 0 <= i < levels[key].len()
                ==> orders[levels[key][i]].filled_qty <= orders[levels[key][i]].original_qty,
    ensures
        reached(levels, reach).finite(),
        sum_left(orders, reached(levels, reach)) == model::available(levels, orders, reach),
    decreases levels.dom().len(),
{
    if levels.dom().len() == 0 {
        assert forall|id: OrderId| !reached(levels, reach).contains(id) by {
            if reached(levels, reach).contains(id) {
                let key = choose|key: u64| #[trigger]
                    levels.contains_key(key) && key <= reach && levels[key].contains(id);
                assert(levels.dom().contains(key));
            }
        }
        assert(reached(levels, reach) =~= Set::empty());
    } else {
        ranking::lemma_least_exists(levels);
        let key = ranking::least(levels);
        let rest = levels.remove(key);
        let queue = levels[key];
        assert(model::queue_valid(queue, orders, side, key));
        assert(model::side_valid(rest, orders, side)) by {
            assert forall|k: u64| #[trigger] rest.contains_key(k) implies model::queue_valid(
                rest[k],
                orders,
                side,
                k,
            ) by {
                assert(levels.contains_key(k));
            }
        }
        assert forall|k: u64, i: int|
            #![trigger rest[k][i]]
            rest.contains_key(k) && 0 <= i < rest[k].len()
                implies orders[rest[k][i]].filled_qty <= orders[rest[k][i]].original_qty by {
            assert(levels[k][i] == rest[k][i]);
        }
        lemma_reached(rest, orders, side, reach);
        liquidity::lemma_extract(levels, orders, key, reach);
        assert forall|i: int| 0 <= i < queue.len() implies orders[#[trigger] queue[i]].filled_qty
            <= orders[queue[i]].original_qty by {
            assert(levels[key][i] == queue[i]);
        }
        lemma_sum_queue(orders, queue);
        assert forall|id: OrderId| queue.contains(id) implies !reached(rest, reach).contains(id) by {
            if reached(rest, reach).contains(id) {
                let k = choose|k: u64| #[trigger]
                    rest.contains_key(k) && k <= reach && rest[k].contains(id);
                let i = choose|i: int| 0 <= i < rest[k].len() && rest[k][i] == id;
                let j = choose|j: int| 0 <= j < queue.len() && queue[j] == id;
                assert(levels.contains_key(k));
                assert(model::queue_valid(levels[k], orders, side, k));
                assert(model::rests_at(orders, levels[k][i], side, k));
                assert(model::rests_at(orders, queue[j], side, key));
            }
        }
        if key <= reach {
            assert(reached(levels, reach) =~= reached(rest, reach) + queue.to_set()) by {
                assert forall|id: OrderId| reached(levels, reach).contains(id) <==> (reached(
                    rest,
                    reach,
                ) + queue.to_set()).contains(id) by {
                    lemma_reached_split(levels, key, reach, id);
                }
            }
            lemma_sum_union(orders, reached(rest, reach), queue.to_set());
        } else {
            assert(reached(levels, reach) =~= reached(rest, reach)) by {
                assert forall|id: OrderId| reached(levels, reach).contains(id) <==> reached(
                    rest,
                    reach,
                ).contains(id) by {
                    lemma_reached_split(levels, key, reach, id);
                }
            }
        }
    }
}

/// An order queued up to a key is queued at a given one or elsewhere.
proof fn lemma_reached_split(levels: Queues, key: u64, reach: u64, id: OrderId)
    requires
        levels.contains_key(key),
    ensures
        reached(levels, reach).contains(id) <==> reached(levels.remove(key), reach).contains(id) || (
        key <= reach && levels[key].contains(id)),
{
    let rest = levels.remove(key);
    if reached(levels, reach).contains(id) {
        let k = choose|k: u64| #[trigger]
            levels.contains_key(k) && k <= reach && levels[k].contains(id);
        if k != key {
            assert(rest.contains_key(k) && rest[k].contains(id));
        }
    }
    if reached(rest, reach).contains(id) {
        let k = choose|k: u64| #[trigger]
            rest.contains_key(k) && k <= reach && rest[k].contains(id);
        assert(levels.contains_key(k) && levels[k].contains(id));
    }
}

/// What is available to an order is what is left of the orders with which it may trade.
pub proof fn lemma_partners(book: BookModel, order: OrderState)
    requires
        model::valid(book),
    ensures
        partners(book, order.side, order.order_type, order.price).finite(),
        sum_left(book.orders, partners(book, order.side, order.order_type, order.price))
            == model::available_to(book, order),
{
    let side = order.side.other();
    let levels = book.side(side);
    let reach = model::reach_of(order.order_type, order.side, order.price);
    let ids = partners(book, order.side, order.order_type, order.price);
    assert forall|key: u64, i: int|
        #![trigger levels[key][i]]
        levels.contains_key(key) && 0 <= i < levels[key].len()
            implies book.orders[levels[key][i]].filled_qty
        <= book.orders[levels[key][i]].original_qty by {
        assert(model::queue_valid(levels[key], book.orders, side, key));
        assert(model::rests_at(book.orders, levels[key][i], side, key));
        assert(model::order_valid(book, levels[key][i]));
    }
    lemma_reached(levels, book.orders, side, reach);
    assert(ids =~= reached(levels, reach)) by {
        assert forall|id: OrderId| ids.contains(id) <==> reached(levels, reach).contains(id) by {
            if ids.contains(id) {
                assert(model::order_valid(book, id));
                let key = book::rank(side, book.orders[id].price);
                assert(levels.contains_key(key) && levels[key].contains(id));
                assert(key <= reach);
            }
            if reached(levels, reach).contains(id) {
                let key = choose|key: u64| #[trigger]
                    levels.contains_key(key) && key <= reach && levels[key].contains(id);
                fifo::lemma_queue_distinct(book, side, key);
                assert(model::queue_at(levels, key).contains(id));
                assert(model::rests_at(book.orders, id, side, key));
            }
        }
    }
}

/// A book is still exactly if no waiting all-or-none order may enter.
pub proof fn lemma_still(book: BookModel)
    requires
        model::valid(book),
    ensures
        still(book) <==> model::quiet(book),
{
    assert forall|i: int| 0 <= i < book.waiting.len() implies ({
        let order = book.orders[#[trigger] book.waiting[i]];
        let possible = sum_left(
            book.orders,
            partners(book, order.side, order.order_type, order.price),
        );
        possible == model::available_to(book, order) && left(order) == order.open()
    }) by {
        let order = book.orders[book.waiting[i]];
        assert(model::waits(book, book.waiting[i]));
        assert(model::order_valid(book, book.waiting[i]));
        lemma_partners(book, order);
    }
    if still(book) {
        assert forall|i: int| 0 <= i < book.waiting.len() implies ({
            let order = book.orders[#[trigger] book.waiting[i]];
            order.condition == OrderCondition::AON ==> model::short_across(book, order)
        }) by {}
    }
}

// ---------------------------------------------------------------------------
// The best bid and offer
// ---------------------------------------------------------------------------

/// One side of the best bid and offer shows what it should.
proof fn lemma_side_quoted(book: BookModel, side: Side)
    requires
        model::valid(book),
    ensures
        side_quoted(book, side, model::best_price(book, side), model::best_qty(book, side) as u64),
{
    let levels = book.side(side);
    if ranking::is_least(levels, ranking::least(levels)) {
        let key = ranking::least(levels);
        let best = book::rank(side, key);
        validity::lemma_front(levels, book.orders, side);
        lemma_resting(book, side, best);
        assert(book::rank(side, best) == key);
        assert(fifo::queue_of(book, side, best) == levels[key]);
        assert(levels[key].contains(levels[key][0]));
        assert(resting(book, side, best).contains(levels[key][0]));
        assert forall|id: OrderId| #[trigger]
            rests(book, id) && book.orders[id].side == side implies no_worse(
            side,
            best,
            book.orders[id].price,
        ) by {
            assert(model::order_valid(book, id));
            assert(levels.contains_key(book::rank(side, book.orders[id].price)));
        }
    } else {
        assert forall|id: OrderId| #[trigger] rests(book, id) implies book.orders[id].side
            != side by {
            if book.orders[id].side == side {
                assert(model::order_valid(book, id));
                let key = book::rank(side, book.orders[id].price);
                assert(levels.contains_key(key));
                assert(levels.dom().contains(key));
                ranking::lemma_least_exists(levels);
            }
        }
    }
}

/// The best bid is the highest price at which a buy order rests, with all that is left of the buy
/// orders there; the best offer is the lowest price at which a sell order rests, with all that is
/// left of the sell orders there. A side without orders shows no price and no quantity.
pub proof fn law_quotes(book: BookModel)
    requires
        model::valid(book),
    ensures
        quoted(book, model::bbo(book)),
{
    lemma_side_quoted(book, Side::Buy);
    lemma_side_quoted(book, Side::Sell);
}

/// The last event of every command shows the best bid and offer of the book that the command
/// leaves.
pub proof fn law_commands_close_with_quotes(book: BookModel, cmd: Command)
    requires
        model::valid(book),
    ensures
        ({
            let done = model::processed(book, cmd);
            &&& done.events.len() > 0
            &&& done.events.last() matches EngineEvent::BboChanged(bbo) && quoted(done.book, bbo)
        }),
{
    validity::lemma_processed(book, cmd);
    law_quotes(model::processed(book, cmd).book);
}

/// No order rests across another: every resting buy order is below every resting sell order once
/// a command is done, whatever the command, if it was so before.
pub proof fn law_bids_below_asks(book: BookModel, cmd: Command, bid: OrderId, ask: OrderId)
    requires
        model::valid(book),
        forall|b: OrderId, a: OrderId|
            #![trigger rests(book, b), rests(book, a)]
            rests(book, b) && rests(book, a) && book.orders[b].side == Side::Buy
                && book.orders[a].side == Side::Sell ==> book.orders[b].price
                < book.orders[a].price,
        rests(model::processed(book, cmd).book, bid),
        rests(model::processed(book, cmd).book, ask),
        model::processed(book, cmd).book.orders[bid].side == Side::Buy,
        model::processed(book, cmd).book.orders[ask].side == Side::Sell,
    ensures
        model::processed(book, cmd).book.orders[bid].price < model::processed(
            book,
            cmd,
        ).book.orders[ask].price,
{
    let done = model::processed(book, cmd).book;
    validity::lemma_processed(book, cmd);
    lemma_side_quoted(book, Side::Buy);
    lemma_side_quoted(book, Side::Sell);
    match (model::best_price(book, Side::Buy), model::best_price(book, Side::Sell)) {
        (Some(b), Some(a)) => {
            let x = choose|id: OrderId| #[trigger] resting(book, Side::Buy, b).contains(id);
            let y = choose|id: OrderId| #[trigger] resting(book, Side::Sell, a).contains(id);
            assert(rests(book, x) && rests(book, y));
        },
        _ => {},
    }
    assert(model::uncrossed(book));
    crossing::law_uncrossed(book, cmd);
    lemma_side_quoted(done, Side::Buy);
    lemma_side_quoted(done, Side::Sell);
}

/// A book is uncrossed exactly if every resting buy order is below every resting sell order.
pub proof fn law_uncrossed_orders(book: BookModel)
    requires
        model::valid(book),
    ensures
        model::uncrossed(book) <==> forall|b: OrderId, a: OrderId|
            #![trigger rests(book, b), rests(book, a)]
            rests(book, b) && rests(book, a) && book.orders[b].side == Side::Buy
                && book.orders[a].side == Side::Sell ==> book.orders[b].price
                < book.orders[a].price,
{
    lemma_side_quoted(book, Side::Buy);
    lemma_side_quoted(book, Side::Sell);
    match (model::best_price(book, Side::Buy), model::best_price(book, Side::Sell)) {
        (Some(b), Some(a)) => {
            let x = choose|id: OrderId| #[trigger] resting(book, Side::Buy, b).contains(id);
            let y = choose|id: OrderId| #[trigger] resting(book, Side::Sell, a).contains(id);
            assert(rests(book, x) && rests(book, y));
        },
        _ => {},
    }
}

} // verus!
