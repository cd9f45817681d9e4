//! Price-time priority: who trades first, and at what price.
use crate::book;
use crate::model;
use crate::model::{BookModel, Queues, Step};
use crate::ranking;
use crate::types::{
    Command, CommandPayload, EngineEvent, Fill, OrderCondition, OrderId, OrderState, OrderType,
    ReplaceOrder, SeqNo, Side, TimeInForce,
};
use crate::validity;
use vstd::prelude::*;

verus! {

/// The queues under the given keys, one after the other.
pub open spec fn lined_up(keys: Seq<u64>, levels: Queues) -> Seq<OrderId>
    decreases keys.len(),
{
    if keys.len() == 0 {
        Seq::empty()
    } else {
        levels[keys[0]] + lined_up(keys.drop_first(), levels)
    }
}

/// All orders of a side in price-time priority: best price first, and within a price first come
/// first.
pub open spec fn line(levels: Queues) -> Seq<OrderId> {
    lined_up(ranking::ascending(levels), levels)
}

/// The makers of a sequence of fills.
pub open spec fn makers(fills: Seq<Fill>) -> Seq<OrderId> {
    fills.map_values(|fill: Fill| fill.maker_order_id)
}

/// Number of orders that a sequence of fills takes off the swept side: each maker but for a last
/// one that was filled in part.
pub open spec fn served(fills: Seq<Fill>) -> int {
    if fills.len() > 0 && !fills.last().maker_filled_completely {
        fills.len() - 1
    } else {
        fills.len() as int
    }
}

proof fn lemma_lined_up_same(keys: Seq<u64>, levels: Queues, other: Queues)
    requires
        forall|i: int| 0 <= i < keys.len() ==> levels[#[trigger] keys[i]] == other[keys[i]],
    ensures
        lined_up(keys, levels) == lined_up(keys, other),
    decreases keys.len(),
{
    if keys.len() > 0 {
        let rest = keys.drop_first();
        assert forall|i: int| 0 <= i < rest.len() implies levels[#[trigger] rest[i]]
            == other[rest[i]] by {
            assert(rest[i] == keys[i + 1]);
        }
        lemma_lined_up_same(rest, levels, other);
    }
}

/// The line of a side starts with the front order of its best level, and moves up by one when
/// that order leaves.
proof fn lemma_line_front(levels: Queues, orders: Map<OrderId, OrderState>, side: Side)
    requires
        model::side_valid(levels, orders, side),
        ranking::is_least(levels, ranking::least(levels)),
    ensures
        line(levels).len() > 0,
        line(levels)[0] == model::front(levels),
        ({
            let key = ranking::least(levels);
            line(model::with_queue(levels, key, levels[key].drop_first()))
                == line(levels).drop_first()
        }),
{
    let key = ranking::least(levels);
    let queue = levels[key];
    let next = model::with_queue(levels, key, queue.drop_first());
    validity::lemma_front(levels, orders, side);
    assert(levels.dom().contains(key));
    let tail = ranking::ascending(levels.remove(key));
    assert(ranking::ascending(levels) == seq![key] + tail);
    assert(ranking::ascending(levels).drop_first() =~= tail);
    ranking::lemma_ascending(levels.remove(key));
    assert forall|i: int| 0 <= i < tail.len() implies levels[#[trigger] tail[i]]
        == next[tail[i]] by {
        assert(tail.contains(tail[i]));
    }
    lemma_lined_up_same(tail, levels, next);
    if queue.drop_first().len() == 0 {
        assert(next =~= levels.remove(key));
        assert(line(next) =~= line(levels).drop_first());
    } else {
        assert(next.dom() =~= levels.dom());
        ranking::lemma_ascending_same_keys(levels, next);
        assert(line(next) =~= line(levels).drop_first());
    }
}

/// Price-time priority: a sweep trades with the orders of the opposite side in line, each once,
/// and those that it fills leave from the head of the line.
pub proof fn law_price_time_priority(book: BookModel, taker: OrderState)
    requires
        model::valid(book),
        taker.filled_qty <= taker.original_qty,
    ensures
        ({
            let levels = book.side(taker.side.other());
            let out = model::sweep(levels, book.orders, taker);
            &&& out.fills.len() <= line(levels).len()
            &&& makers(out.fills) == line(levels).take(out.fills.len() as int)
            &&& line(out.levels) == line(levels).skip(served(out.fills))
        }),
    decreases taker.open(),
{
    let side = taker.side.other();
    let levels = book.side(side);
    let out = model::sweep(levels, book.orders, taker);
    if model::can_trade(levels, book.orders, taker) {
        let next = model::after_fill(book, taker);
        let next_taker = model::next_taker(levels, book.orders, taker);
        let fill = model::next_fill(levels, book.orders, taker);
        validity::lemma_front(levels, book.orders, side);
        assert(model::order_valid(book, model::front(levels)));
        lemma_line_front(levels, book.orders, side);
        validity::lemma_fill_valid(book, taker);
        law_price_time_priority(next, next_taker);
        assert(next.side(side) == model::next_levels(levels, book.orders, taker));
        let rest = model::sweep(next.side(side), next.orders, next_taker);
        assert(out.fills == seq![fill] + rest.fills);
        if !fill.maker_filled_completely {
            assert(next_taker.open() == 0);
            assert(rest.fills.len() == 0);
        }
        if rest.fills.len() > 0 {
            assert(out.fills.last() == rest.fills.last());
        } else {
            assert(out.fills.last() == fill);
        }
        assert(makers(out.fills) =~= seq![fill.maker_order_id] + makers(rest.fills));
        assert(makers(out.fills) =~= line(levels).take(out.fills.len() as int));
        assert(line(out.levels) =~= line(levels).skip(served(out.fills)));
    } else {
        assert(makers(out.fills) =~= line(levels).take(0));
        assert(line(levels).skip(0) =~= line(levels));
    }
}

/// What a fill says of its taker and its maker: the maker rests open on the opposite side, the
/// trade is at the maker's price, which is within the taker's limit, and of a quantity that both
/// have.
pub open spec fn fair(book: BookModel, taker: OrderState, fill: Fill) -> bool {
    let maker = book.orders[fill.maker_order_id];
    &&& fill.taker_order_id == taker.order_id
    &&& book.orders.contains_key(fill.maker_order_id)
    &&& maker.is_open
    &&& maker.side == taker.side.other()
    &&& fill.price == maker.price
    &&& taker.order_type == OrderType::Limit ==> (match taker.side {
        Side::Buy => fill.price <= taker.price,
        Side::Sell => fill.price >= taker.price,
    })
    &&& 0 < fill.qty <= maker.open()
    &&& fill.qty <= taker.open()
    &&& fill.maker_filled_completely == (fill.qty == maker.open())
}

/// Every trade of a sweep is at the maker's price and within the taker's limit.
pub proof fn law_trades_are_fair(book: BookModel, taker: OrderState)
    requires
        model::valid(book),
        taker.filled_qty <= taker.original_qty,
    ensures
        ({
            let out = model::sweep(book.side(taker.side.other()), book.orders, taker);
            forall|i: int|
                0 <= i < out.fills.len() ==> fair(book, taker, #[trigger] out.fills[i])
        }),
    decreases taker.open(),
{
    let side = taker.side.other();
    let levels = book.side(side);
    let out = model::sweep(levels, book.orders, taker);
    if model::can_trade(levels, book.orders, taker) {
        let next = model::after_fill(book, taker);
        let next_taker = model::next_taker(levels, book.orders, taker);
        let fill = model::next_fill(levels, book.orders, taker);
        let id = model::front(levels);
        validity::lemma_front(levels, book.orders, side);
        assert(model::order_valid(book, id));
        validity::lemma_fill_valid(book, taker);
        law_trades_are_fair(next, next_taker);
        assert(next.side(side) == model::next_levels(levels, book.orders, taker));
        let rest = model::sweep(next.side(side), next.orders, next_taker);
        assert(out.fills == seq![fill] + rest.fills);
        if !fill.maker_filled_completely {
            assert(next_taker.open() == 0);
            assert(rest.fills.len() == 0);
        }
        assert forall|i: int| 0 <= i < out.fills.len() implies fair(
            book,
            taker,
            #[trigger] out.fills[i],
        ) by {
            if i > 0 {
                assert(out.fills[i] == rest.fills[i - 1]);
                assert(fair(next, next_taker, rest.fills[i - 1]));
                assert(rest.fills[i - 1].maker_order_id != id);
            }
        }
    }
}

/// A sweep never trades at a better price for the taker after a worse one.
pub proof fn law_best_price_first(book: BookModel, taker: OrderState)
    requires
        model::valid(book),
        taker.filled_qty <= taker.original_qty,
    ensures
        ({
            let side = taker.side.other();
            let out = model::sweep(book.side(side), book.orders, taker);
            forall|i: int, j: int|
                0 <= i <= j < out.fills.len() ==> book::rank(side, #[trigger] out.fills[i].price)
                    <= book::rank(side, #[trigger] out.fills[j].price)
        }),
        ({
            let side = taker.side.other();
            let levels = book.side(side);
            let out = model::sweep(levels, book.orders, taker);
            forall|i: int|
                0 <= i < out.fills.len() ==> ranking::least(levels) <= book::rank(
                    side,
                    #[trigger] out.fills[i].price,
                )
        }),
    decreases taker.open(),
{
    let side = taker.side.other();
    let levels = book.side(side);
    let out = model::sweep(levels, book.orders, taker);
    if model::can_trade(levels, book.orders, taker) {
        let next = model::after_fill(book, taker);
        let next_taker = model::next_taker(levels, book.orders, taker);
        let fill = model::next_fill(levels, book.orders, taker);
        validity::lemma_front(levels, book.orders, side);
        validity::lemma_fill_valid(book, taker);
        law_best_price_first(next, next_taker);
        assert(next.side(side) == model::next_levels(levels, book.orders, taker));
        let rest = model::sweep(next.side(side), next.orders, next_taker);
        assert(out.fills == seq![fill] + rest.fills);
        if rest.fills.len() > 0 {
            assert(model::can_trade(next.side(side), next.orders, next_taker));
            assert(levels.contains_key(ranking::least(next.side(side))));
        }
        assert forall|i: int| 0 <= i < out.fills.len() implies ranking::least(levels)
            <= book::rank(side, #[trigger] out.fills[i].price) by {
            if i > 0 {
                assert(out.fills[i] == rest.fills[i - 1]);
            }
        }
        assert forall|i: int, j: int| 0 <= i <= j < out.fills.len() implies book::rank(
            side,
            #[trigger] out.fills[i].price,
        ) <= book::rank(side, #[trigger] out.fills[j].price) by {
            if i > 0 {
                assert(out.fills[i] == rest.fills[i - 1]);
                assert(out.fills[j] == rest.fills[j - 1]);
            } else {
                assert(book::rank(side, fill.price) == ranking::least(levels));
            }
        }
    }
}

/// If the event is a trade, its maker and taker are on record on opposite sides, and it is at the
/// maker's price and within the taker's limit.
pub open spec fn fair_trade(book: BookModel, event: EngineEvent) -> bool {
    event matches EngineEvent::Trade(fill) ==> {
        let maker = book.orders[fill.maker_order_id];
        let taker = book.orders[fill.taker_order_id];
        &&& book.orders.contains_key(fill.maker_order_id)
        &&& book.orders.contains_key(fill.taker_order_id)
        &&& maker.side == taker.side.other()
        &&& fill.price == maker.price
        &&& taker.order_type == OrderType::Limit ==> (match taker.side {
            Side::Buy => fill.price <= taker.price,
            Side::Sell => fill.price >= taker.price,
        })
        &&& fill.qty > 0
    }
}

/// Every order of `before` has the same side, price and type in `after`.
spec fn terms_kept(before: BookModel, after: BookModel) -> bool {
    forall|id: OrderId| #[trigger]
        before.orders.contains_key(id) ==> {
            &&& after.orders.contains_key(id)
            &&& after.orders[id].side == before.orders[id].side
            &&& after.orders[id].price == before.orders[id].price
            &&& after.orders[id].order_type == before.orders[id].order_type
        }
}

/// The trades of a sweep are fair in a book that has the swept orders and the taker on record.
proof fn lemma_sweep_fair(book: BookModel, taker: OrderState, after: BookModel)
    requires
        model::valid(book),
        taker.filled_qty <= taker.original_qty,
        ({
            let out = model::sweep(book.side(taker.side.other()), book.orders, taker);
            exists|state: OrderState|
                validity::same_order(state, out.taker) && after.orders
                    == #[trigger] out.orders.insert(taker.order_id, state)
        }),
        book.orders.contains_key(taker.order_id) && book.orders[taker.order_id].is_open
            ==> book.orders[taker.order_id].side == taker.side,
    ensures
        ({
            let out = model::sweep(book.side(taker.side.other()), book.orders, taker);
            let events = model::trades(out.fills);
            forall|i: int| 0 <= i < events.len() ==> fair_trade(after, #[trigger] events[i])
        }),
{
    let out = model::sweep(book.side(taker.side.other()), book.orders, taker);
    let events = model::trades(out.fills);
    law_trades_are_fair(book, taker);
    validity::lemma_sweep(book, taker);
    assert forall|i: int| 0 <= i < events.len() implies fair_trade(after, #[trigger] events[i]) by {
        let fill = out.fills[i];
        assert(fair(book, taker, fill));
        assert(book.orders.contains_key(fill.maker_order_id));
        assert(out.orders.dom().contains(fill.maker_order_id));
        assert(fill.maker_order_id != taker.order_id);
    }
}

/// Entering an order trades fairly and keeps the terms of the orders on record.
proof fn lemma_entered_fair(book: BookModel, seq_no: SeqNo, order: OrderState)
    requires
        model::valid(book),
        validity::off_book(book, order.order_id),
        order.filled_qty <= order.original_qty,
        book.orders.contains_key(order.order_id) ==> {
            let known = book.orders[order.order_id];
            &&& known.side == order.side
            &&& known.price == order.price
            &&& known.order_type == order.order_type
        },
    ensures
        terms_kept(book, model::entered(book, seq_no, order).book),
        ({
            let step = model::entered(book, seq_no, order);
            forall|i: int|
                0 <= i < step.events.len() ==> fair_trade(step.book, #[trigger] step.events[i])
        }),
{
    let step = model::entered(book, seq_no, order);
    let out = model::sweep(book.side(order.side.other()), book.orders, order);
    let matched = !((order.tif == TimeInForce::FOK || order.condition == OrderCondition::AON)
        && model::short_of(book, order));
    validity::lemma_sweep(book, order);
    assert forall|id: OrderId| #[trigger] book.orders.contains_key(id) implies {
        &&& step.book.orders.contains_key(id)
        &&& step.book.orders[id].side == book.orders[id].side
        &&& step.book.orders[id].price == book.orders[id].price
        &&& step.book.orders[id].order_type == book.orders[id].order_type
    } by {
        assert(out.orders.dom().contains(id));
    }
    if matched {
        let rest = model::remainder(model::swept(book, order), seq_no, out.taker);
        let state = rest.book.orders[order.order_id];
        assert(rest.book.orders =~= out.orders.insert(order.order_id, state));
        lemma_sweep_fair(book, order, rest.book);
        let events = model::trades(out.fills);
        assert forall|i: int| 0 <= i < step.events.len() implies fair_trade(
            step.book,
            #[trigger] step.events[i],
        ) by {
            if i < events.len() {
                assert(step.events[i] == events[i]);
            } else {
                assert(step.events[i] == rest.events[i - events.len()]);
            }
        }
    }
}

/// A replace request trades fairly.
proof fn lemma_replace_fair(book: BookModel, seq_no: SeqNo, replace: ReplaceOrder)
    requires
        model::valid(book),
    ensures
        ({
            let step = model::replace_order(book, seq_no, replace);
            forall|i: int|
                0 <= i < step.events.len() ==> fair_trade(step.book, #[trigger] step.events[i])
        }),
{
    if model::replace_flaw(book, replace) is None && !book.waiting.contains(replace.order_id) {
        let id = replace.order_id;
        validity::lemma_queued(book, id);
        validity::lemma_amended(book, replace);
        let next = model::amended(book, replace);
        let order = next.orders[id];
        let out = model::sweep(next.side(order.side.other()), next.orders, order);
        let step = model::replace_order(book, seq_no, replace);
        validity::lemma_sweep(next, order);
        let state = step.book.orders[id];
        assert(step.book.orders =~= out.orders.insert(id, state));
        lemma_sweep_fair(next, order, step.book);
        let events = model::trades(out.fills);
        assert forall|i: int| 0 <= i < step.events.len() implies fair_trade(
            step.book,
            #[trigger] step.events[i],
        ) by {
            if i > 0 {
                assert(step.events[i] == events[i - 1]);
            }
        }
    }
}

/// Letting waiting orders enter trades fairly.
proof fn lemma_cascaded_fair(step: Step, seq_no: SeqNo)
    requires
        model::valid(step.book),
        forall|i: int|
            0 <= i < step.events.len() ==> fair_trade(step.book, #[trigger] step.events[i]),
    ensures
        ({
            let last = model::cascaded(step, seq_no);
            forall|i: int|
                0 <= i < last.events.len() ==> fair_trade(last.book, #[trigger] last.events[i])
        }),
    decreases step.book.waiting.len(),
{
    let i = model::next_ready(step.book, step.events, 0);
    if 0 <= i < step.book.waiting.len() {
        let id = step.book.waiting[i];
        let released = model::released(step.book, i);
        let next = model::activated(step.book, seq_no, i);
        assert(step.book.orders.contains_key(id));
        validity::lemma_cascade_step(step, seq_no);
        lemma_entered_fair(released, seq_no, model::underlying(step.book.orders[id]));
        let book = BookModel { waiting: step.book.waiting.remove(i), ..next.book };
        assert(book == next.book);
        let events = step.events + next.events;
        assert forall|id: OrderId| #[trigger] step.book.orders.contains_key(id) implies {
            &&& book.orders.contains_key(id)
            &&& book.orders[id].side == step.book.orders[id].side
            &&& book.orders[id].price == step.book.orders[id].price
            &&& book.orders[id].order_type == step.book.orders[id].order_type
        } by {
            assert(released.orders.contains_key(id));
        }
        assert forall|j: int| 0 <= j < events.len() implies fair_trade(
            book,
            #[trigger] events[j],
        ) by {
            if j < step.events.len() {
                assert(fair_trade(step.book, step.events[j]));
            } else {
                assert(events[j] == next.events[j - step.events.len()]);
            }
        }
        lemma_cascaded_fair(Step { book, events }, seq_no);
        assert(model::cascaded(step, seq_no) == model::cascaded(Step { book, events }, seq_no));
    }
}

/// Every trade of a command is between a maker and a taker on opposite sides, at the maker's
/// price and within the taker's limit.
pub proof fn law_trade_price(book: BookModel, cmd: Command)
    requires
        model::valid(book),
    ensures
        ({
            let done = model::processed(book, cmd);
            forall|i: int|
                0 <= i < done.events.len() ==> fair_trade(done.book, #[trigger] done.events[i])
        }),
{
    let start = BookModel { last_seq_no: cmd.seq_no, ..book };
    let step = model::applied(book, cmd);
    validity::lemma_renumbered(book, cmd.seq_no);
    validity::lemma_applied(book, cmd);
    match cmd.payload {
        CommandPayload::New(order) => {
            if model::new_order_flaw(start, order) is None && order.condition
                != OrderCondition::Stop {
                let state = OrderState::of(order);
                let entered = model::entered(start, cmd.seq_no, state);
                lemma_entered_fair(start, cmd.seq_no, state);
                assert forall|i: int| 0 <= i < step.events.len() implies fair_trade(
                    step.book,
                    #[trigger] step.events[i],
                ) by {
                    if i > 0 {
                        assert(step.events[i] == entered.events[i - 1]);
                    }
                }
            }
        },
        CommandPayload::Cancel(_) => {},
        CommandPayload::Replace(replace) => {
            lemma_replace_fair(start, cmd.seq_no, replace);
        },
    }
    lemma_cascaded_fair(step, cmd.seq_no);
}

} // verus!
