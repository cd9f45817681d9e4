//! Who is served first: no command fills an order while another one that comes before it is left.
use crate::accounting;
use crate::book;
use crate::fifo;
use crate::model;
use crate::model::{BookModel, Step};
use crate::outcome;
use crate::ranking;
use crate::standing;
use crate::types::{
    Command, CommandPayload, EngineEvent, OrderCondition, OrderId, OrderState, ReplaceOrder, SeqNo,
    Side, TimeInForce,
};
use crate::validity;
use vstd::prelude::*;

verus! {

/// Of two resting orders of a side, `a` comes before `b`: its price is better, or it is the same
/// and `a` stands before `b` in its queue.
pub open spec fn comes_before(book: BookModel, a: OrderId, b: OrderId) -> bool {
    let first = book.orders[a];
    let second = book.orders[b];
    &&& standing::rests(book, a)
    &&& standing::rests(book, b)
    &&& first.side == second.side
    &&& match first.side {
        Side::Buy => first.price > second.price,
        Side::Sell => first.price < second.price,
    } || (first.price == second.price && fifo::ahead(
        fifo::queue_of(book, first.side, first.price),
        a,
        b,
    ))
}

/// The order is filled entirely.
pub open spec fn complete(book: BookModel, id: OrderId) -> bool {
    &&& book.orders.contains_key(id)
    &&& book.orders[id].filled_qty == book.orders[id].original_qty
    &&& !book.orders[id].is_open
}

/// Of two orders at the same price that both still rest, the one that came first comes first.
proof fn lemma_kept(before: BookModel, after: BookModel, a: OrderId, b: OrderId)
    requires
        model::valid(after),
        comes_before(before, a, b),
        standing::rests(after, a),
        standing::rests(after, b),
        after.orders[a].side == before.orders[a].side,
        after.orders[b].side == before.orders[b].side,
        after.orders[a].price == before.orders[a].price,
        after.orders[b].price == before.orders[b].price,
        before.orders[a].price == before.orders[b].price ==> fifo::in_order(
            after,
            before.orders[a].side,
            book::rank(before.orders[a].side, before.orders[a].price),
            a,
            b,
        ),
    ensures
        comes_before(after, a, b),
{
    fifo::lemma_rests_queued(after, a);
    fifo::lemma_rests_queued(after, b);
}

/// A sweep fills an order only if every order that comes before it is filled entirely.
proof fn lemma_sweep_serves(book: BookModel, taker: OrderState, a: OrderId, b: OrderId)
    requires
        model::valid(book),
        taker.filled_qty <= taker.original_qty,
        book.orders.contains_key(taker.order_id) && book.orders[taker.order_id].is_open
            ==> book.orders[taker.order_id].side == taker.side,
        comes_before(book, a, b),
        taker.order_id != a,
        taker.order_id != b,
    ensures
        ({
            let out = model::sweep(book.side(taker.side.other()), book.orders, taker);
            accounting::traded(model::trades(out.fills), b) > 0 ==> {
                &&& out.orders.contains_key(a)
                &&& out.orders[a].filled_qty == out.orders[a].original_qty
                &&& !out.orders[a].is_open
            }
        }),
    decreases taker.open(),
{
    let side = taker.side.other();
    let levels = book.side(side);
    let out = model::sweep(levels, book.orders, taker);
    if model::can_trade(levels, book.orders, taker) {
        let next = model::after_fill(book, taker);
        let next_taker = model::next_taker(levels, book.orders, taker);
        let fill = model::next_fill(levels, book.orders, taker);
        let front = model::front(levels);
        let key = ranking::least(levels);
        validity::lemma_front(levels, book.orders, side);
        assert(model::order_valid(book, front));
        assert(model::order_valid(book, a));
        assert(model::order_valid(book, b));
        validity::lemma_fill_valid(book, taker);
        assert(next.side(side) == model::next_levels(levels, book.orders, taker));
        let rest = model::sweep(next.side(side), next.orders, next_taker);
        let head = seq![EngineEvent::Trade(fill)];
        let tail = model::trades(rest.fills);
        assert(model::trades(out.fills) =~= head + tail);
        accounting::lemma_traded_add(head, tail, b);
        accounting::lemma_traded_one(EngineEvent::Trade(fill), b);
        let queue = levels[key];
        fifo::lemma_queue_distinct(book, side, key);
        assert(model::queue_at(levels, key) == queue);
        if front == b {
            fifo::lemma_rests_queued(book, a);
            let key_a = book::rank(side, book.orders[a].price);
            assert(levels.contains_key(key_a));
            assert(key <= key_a);
            assert(fifo::ahead(queue, a, b));
            let (i, j) = choose|i: int, j: int|
                0 <= i < j < queue.len() && #[trigger] queue[i] == a && #[trigger] queue[j] == b;
            assert(queue[0] == b);
            assert(false);
        }
        if front == a {
            if fill.maker_filled_completely {
                outcome::lemma_sweep_state(next, next_taker, a);
            } else {
                assert(next_taker.open() == 0);
                assert(rest.fills.len() == 0);
                assert(tail =~= Seq::empty());
            }
        } else {
            let side_a = book.orders[a].side;
            let price = book.orders[a].price;
            let key_a = book::rank(side_a, price);
            assert(next.orders[a] == book.orders[a] && next.orders[b] == book.orders[b]);
            if price == book.orders[b].price {
                let before = model::queue_at(book.side(side_a), key_a);
                let after = model::queue_at(next.side(side_a), key_a);
                let (i, j) = choose|i: int, j: int|
                    0 <= i < j < before.len() && #[trigger] before[i] == a && #[trigger] before[j]
                        == b;
                if side_a == side && key_a == key && fill.maker_filled_completely {
                    assert(before == queue);
                    assert(queue[0] == front);
                    assert(after =~= queue.drop_first());
                    assert(after[i - 1] == a && after[j - 1] == b);
                } else {
                    assert(after == before);
                }
                assert(fifo::ahead(after, a, b));
            }
            assert(comes_before(next, a, b));
            lemma_sweep_serves(next, next_taker, a, b);
        }
    }
}

/// Entering an order fills another only if every order that comes before it is filled entirely.
proof fn lemma_entered_serves(
    book: BookModel,
    seq_no: SeqNo,
    order: OrderState,
    a: OrderId,
    b: OrderId,
)
    requires
        model::valid(book),
        validity::off_book(book, order.order_id),
        order.filled_qty == 0,
        order.original_qty > 0,
        order.condition != OrderCondition::Stop,
        comes_before(book, a, b),
    ensures
        ({
            let step = model::entered(book, seq_no, order);
            if accounting::traded(step.events, b) > 0 {
                complete(step.book, a)
            } else {
                complete(step.book, a) || comes_before(step.book, a, b)
            }
        }),
{
    let step = model::entered(book, seq_no, order);
    let out = model::sweep(book.side(order.side.other()), book.orders, order);
    validity::lemma_entered(book, seq_no, order);
    assert(model::order_valid(book, a));
    assert(model::order_valid(book, b));
    outcome::lemma_entered_other(book, seq_no, order, a);
    outcome::lemma_entered_other(book, seq_no, order, b);
    lemma_sweep_serves(book, order, a, b);
    let refused = (order.tif == TimeInForce::FOK || order.condition
        == OrderCondition::AON) && model::short_of(book, order);
    if refused {
        if step.events.len() > 0 {
            accounting::lemma_traded_one(step.events[0], b);
            assert(step.events =~= seq![step.events[0]]);
        }
    } else {
        let rest = model::remainder(model::swept(book, order), seq_no, out.taker);
        validity::lemma_sweep(book, order);
        accounting::lemma_traded_add(model::trades(out.fills), rest.events, b);
        if rest.events.len() > 0 {
            accounting::lemma_traded_one(rest.events[0], b);
            assert(rest.events =~= seq![rest.events[0]]);
        }
    }
    if accounting::traded(step.events, b) == 0 && !complete(step.book, a) {
        let side = book.orders[a].side;
        let key = book::rank(side, book.orders[a].price);
        if book.orders[a].price == book.orders[b].price {
            let queue = model::queue_at(book.side(side), key);
            fifo::lemma_members(queue, a, b);
            fifo::lemma_entered_in_order(book, seq_no, order, side, key, a, b);
        }
        lemma_kept(book, step.book, a, b);
    }
}

/// A cascade fills an order only if every order that comes before it is filled entirely.
proof fn lemma_cascaded_serves(step: Step, seq_no: SeqNo, a: OrderId, b: OrderId)
    requires
        model::valid(step.book),
        comes_before(step.book, a, b),
    ensures
        ({
            let last = model::cascaded(step, seq_no);
            accounting::traded(last.events, b) > accounting::traded(step.events, b) ==> complete(
                last.book,
                a,
            )
        }),
    decreases step.book.waiting.len(),
{
    let i = model::next_ready(step.book, step.events, 0);
    if 0 <= i < step.book.waiting.len() {
        let start = step.book;
        let id = start.waiting[i];
        let released = model::released(start, i);
        let entrant = model::underlying(start.orders[id]);
        let next = model::activated(start, seq_no, i);
        let then = Step { book: next.book, events: step.events + next.events };
        validity::lemma_cascade_step(step, seq_no);
        accounting::lemma_traded_add(step.events, next.events, b);
        outcome::lemma_removed(start.waiting, i, a);
        outcome::lemma_removed(start.waiting, i, b);
        assert(fifo::queue_of(released, start.orders[a].side, start.orders[a].price)
            == fifo::queue_of(start, start.orders[a].side, start.orders[a].price));
        assert(comes_before(released, a, b));
        lemma_entered_serves(released, seq_no, entrant, a, b);
        if complete(next.book, a) {
            lemma_stays_complete(then, seq_no, a);
        } else {
            lemma_cascaded_serves(then, seq_no, a, b);
        }
    }
}

/// A cascade leaves an order that is filled entirely so.
proof fn lemma_stays_complete(step: Step, seq_no: SeqNo, id: OrderId)
    requires
        model::valid(step.book),
        complete(step.book, id),
    ensures
        complete(model::cascaded(step, seq_no).book, id),
{
    validity::lemma_waiting(step.book);
    outcome::lemma_cascaded_state(step, seq_no, id);
}

/// Price-time priority: of two orders that rest on the same side, a command fills the one that
/// comes later only if it leaves nothing of the one that comes first. Neither is the order that a
/// cancel or replace request names.
pub proof fn law_first_come_first_served(book: BookModel, cmd: Command, a: OrderId, b: OrderId)
    requires
        model::valid(book),
        comes_before(book, a, b),
        match cmd.payload {
            CommandPayload::New(_) => true,
            CommandPayload::Cancel(cancel) => cancel.order_id != a && cancel.order_id != b,
            CommandPayload::Replace(replace) => replace.order_id != a && replace.order_id != b,
        },
        model::processed(book, cmd).book.orders[b].filled_qty > book.orders[b].filled_qty,
    ensures
        ({
            let order = model::processed(book, cmd).book.orders[a];
            order.filled_qty == order.original_qty && !order.is_open
        }),
{
    let start = BookModel { last_seq_no: cmd.seq_no, ..book };
    let step = model::applied(book, cmd);
    let last = model::cascaded(step, cmd.seq_no);
    validity::lemma_renumbered(book, cmd.seq_no);
    validity::lemma_applied(book, cmd);
    assert(model::order_valid(start, a));
    assert(model::order_valid(start, b));
    accounting::law_fills_are_traded(book, cmd, b);
    accounting::law_orders_keep_their_terms(book, cmd);
    assert(book.orders.contains_key(b));
    let bbo = EngineEvent::BboChanged(model::bbo(last.book));
    assert(last.events.push(bbo) =~= last.events + seq![bbo]);
    accounting::lemma_traded_add(last.events, seq![bbo], b);
    accounting::lemma_traded_one(bbo, b);
    accounting::lemma_cascaded_ids(step, cmd.seq_no);
    assert(accounting::traded(last.events, b) > 0);
    let side = start.orders[a].side;
    let price = start.orders[a].price;
    let key = book::rank(side, price);
    assert(fifo::queue_of(start, side, price) == fifo::queue_of(book, side, price));
    assert(comes_before(start, a, b));
    let queue = model::queue_at(start.side(side), key);
    if price == start.orders[b].price {
        fifo::lemma_members(queue, a, b);
    }
    accounting::lemma_traded_one(step.events[0], b);
    assert(if accounting::traded(step.events, b) > 0 {
        complete(step.book, a)
    } else {
        complete(step.book, a) || comes_before(step.book, a, b)
    }) by {
        match cmd.payload {
            CommandPayload::New(order) => {
                if model::new_order_flaw(start, order) is None {
                    let accepted = EngineEvent::OrderAccepted {
                        seq_no: cmd.seq_no,
                        order_id: order.order_id,
                    };
                    let state = OrderState::of(order);
                    if order.condition == OrderCondition::Stop {
                        assert(step.events =~= seq![accepted]);
                        outcome::lemma_push(start.waiting, order.order_id, a);
                        outcome::lemma_push(start.waiting, order.order_id, b);
                        assert(fifo::queue_of(step.book, side, price) == queue);
                    } else {
                        let entered = model::entered(start, cmd.seq_no, state);
                        accounting::lemma_traded_add(seq![accepted], entered.events, b);
                        lemma_entered_serves(start, cmd.seq_no, state, a, b);
                        assert(fifo::queue_of(step.book, side, price) == fifo::queue_of(
                            entered.book,
                            side,
                            price,
                        ));
                    }
                } else {
                    assert(step.events =~= seq![step.events[0]]);
                    assert(fifo::queue_of(step.book, side, price) == queue);
                }
            },
            CommandPayload::Cancel(cancel) => {
                assert(step.events =~= seq![step.events[0]]);
                outcome::lemma_cancel_state(start, cmd.seq_no, cancel, a);
                outcome::lemma_cancel_state(start, cmd.seq_no, cancel, b);
                if price == start.orders[b].price {
                    fifo::lemma_cancel_in_order(start, cmd.seq_no, cancel, side, key, a, b);
                }
                lemma_kept(start, step.book, a, b);
            },
            CommandPayload::Replace(replace) => {
                lemma_replace_serves(start, cmd.seq_no, replace, a, b);
            },
        }
    }
    if complete(step.book, a) {
        lemma_stays_complete(step, cmd.seq_no, a);
    } else {
        lemma_cascaded_serves(step, cmd.seq_no, a, b);
    }
}

/// A replace request fills another order only if every order that comes before it is filled
/// entirely.
proof fn lemma_replace_serves(
    book: BookModel,
    seq_no: SeqNo,
    replace: ReplaceOrder,
    a: OrderId,
    b: OrderId,
)
    requires
        model::valid(book),
        comes_before(book, a, b),
        replace.order_id != a,
        replace.order_id != b,
    ensures
        ({
            let step = model::replace_order(book, seq_no, replace);
            if accounting::traded(step.events, b) > 0 {
                complete(step.book, a)
            } else {
                complete(step.book, a) || comes_before(step.book, a, b)
            }
        }),
{
    let step = model::replace_order(book, seq_no, replace);
    let side = book.orders[a].side;
    let price = book.orders[a].price;
    let key = book::rank(side, price);
    let queue = model::queue_at(book.side(side), key);
    assert(model::order_valid(book, a));
    assert(model::order_valid(book, b));
    validity::lemma_replace_order(book, seq_no, replace);
    assert(step.book.orders.contains_key(a) && step.book.orders.contains_key(b)) by {
        accounting::lemma_replace_follows(book, seq_no, replace);
    }
    outcome::lemma_replace_state(book, seq_no, replace, a);
    outcome::lemma_replace_state(book, seq_no, replace, b);
    accounting::lemma_traded_one(step.events[0], b);
    if model::replace_flaw(book, replace) is None && !book.waiting.contains(replace.order_id) {
        let id = replace.order_id;
        assert(model::order_valid(book, id));
        validity::lemma_queued(book, id);
        validity::lemma_amended(book, replace);
        let next = model::amended(book, replace);
        let order = next.orders[id];
        let out = model::sweep(next.side(order.side.other()), next.orders, order);
        validity::lemma_sweep(next, order);
        accounting::lemma_traded_add(seq![step.events[0]], model::trades(out.fills), b);
        if side == order.side.other() {
            assert(next.side(side) == book.side(side));
            assert(fifo::queue_of(next, side, price) == fifo::queue_of(book, side, price));
            assert(comes_before(next, a, b));
            lemma_sweep_serves(next, order, a, b);
        } else {
            outcome::lemma_sweep_state(next, order, b);
            accounting::lemma_sweep_traded(next, order, b);
        }
    } else {
        assert(step.events =~= seq![step.events[0]]);
    }
    if accounting::traded(step.events, b) == 0 && !complete(step.book, a) {
        if price == book.orders[b].price {
            fifo::lemma_replace_in_order(book, seq_no, replace, side, key, a, b);
        }
        lemma_kept(book, step.book, a, b);
    }
}

} // verus!
