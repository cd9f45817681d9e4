//! What becomes of every order, said of commands, orders and events alone.
use crate::accounting;
use crate::flow;
use crate::laws;
use crate::liquidity;
use crate::model;
use crate::model::{BookModel, Step};
use crate::quantities;
use crate::standing;
use crate::types::{
    CancelOrder, Command, CommandPayload, EngineEvent, NewOrder, OrderCondition, OrderId,
    OrderState, OrderType, RejectReason, ReplaceOrder, SeqNo, TimeInForce,
};
use crate::validity;
use vstd::prelude::*;

verus! {

/// A new order is fit to be accepted: it has a quantity, a price if it is a limit order, and an ID
/// that is not on record.
pub open spec fn acceptable(book: BookModel, order: NewOrder) -> bool {
    &&& order.qty > 0
    &&& order.order_type == OrderType::Limit ==> order.price > 0
    &&& !book.orders.contains_key(order.order_id)
}

/// A replace request is fit to be carried out: the order is on record and open, and is no stop
/// order that waits; the new quantity is not zero, not above the order's quantity, and above what
/// is filled of it; the new price is not zero.
pub open spec fn replaceable(book: BookModel, replace: ReplaceOrder) -> bool {
    let order = book.orders[replace.order_id];
    &&& book.orders.contains_key(replace.order_id)
    &&& order.is_open
    &&& order.condition != OrderCondition::Stop
    &&& 0 < replace.new_qty <= order.original_qty
    &&& replace.new_qty > order.filled_qty
    &&& replace.new_price > 0
}

/// An order filled by a further `qty`: it is closed once its whole quantity is filled.
pub open spec fn filled_by(order: OrderState, qty: nat) -> OrderState {
    OrderState {
        filled_qty: (order.filled_qty + qty) as u64,
        is_open: order.is_open && order.filled_qty + qty < order.original_qty,
        ..order
    }
}

/// An order that entered the book and was filled by `qty`: it has no stop condition any more, and
/// stays open only if it is a good-til-cancel limit order with something left.
pub open spec fn entered_with(order: OrderState, qty: nat) -> OrderState {
    OrderState {
        condition: if order.condition == OrderCondition::Stop {
            OrderCondition::Unconditional
        } else {
            order.condition
        },
        filled_qty: qty as u64,
        is_open: order.order_type == OrderType::Limit && order.tif == TimeInForce::GTC && qty
            < order.original_qty,
        ..order
    }
}

/// An order as the command asks for it: a new order as submitted, a canceled order closed, a
/// replaced order with the new price and quantity, every other order as it was.
pub open spec fn requested(book: BookModel, cmd: Command, id: OrderId) -> OrderState {
    let order = book.orders[id];
    match cmd.payload {
        CommandPayload::New(new) => if new.order_id == id && acceptable(book, new) {
            OrderState {
                order_id: new.order_id,
                symbol: new.symbol,
                side: new.side,
                order_type: new.order_type,
                tif: new.tif,
                condition: new.condition,
                price: new.price,
                original_qty: new.qty,
                filled_qty: 0,
                stop_price: new.stop_price,
                is_open: true,
            }
        } else {
            order
        },
        CommandPayload::Cancel(cancel) => if cancel.order_id == id {
            OrderState { is_open: false, ..order }
        } else {
            order
        },
        CommandPayload::Replace(replace) => if replace.order_id == id && replaceable(
            book,
            replace,
        ) {
            OrderState { price: replace.new_price, original_qty: replace.new_qty, ..order }
        } else {
            order
        },
    }
}

/// What a sweep, an entry or a cascade makes of an order that waits neither before nor after.
pub proof fn lemma_sweep_state(book: BookModel, taker: OrderState, id: OrderId)
    requires
        model::valid(book),
        taker.filled_qty <= taker.original_qty,
        book.orders.contains_key(taker.order_id) && book.orders[taker.order_id].is_open
            ==> book.orders[taker.order_id].side == taker.side,
        book.orders.contains_key(id),
        id != taker.order_id,
    ensures
        ({
            let out = model::sweep(book.side(taker.side.other()), book.orders, taker);
            let qty = accounting::traded(model::trades(out.fills), id);
            &&& out.orders.contains_key(id)
            &&& book.orders[id].filled_qty + qty <= book.orders[id].original_qty
            &&& out.orders[id] == filled_by(book.orders[id], qty)
            &&& !book.orders[id].is_open || book.waiting.contains(id) ==> qty == 0
        }),
    decreases taker.open(),
{
    let side = taker.side.other();
    let levels = book.side(side);
    let out = model::sweep(levels, book.orders, taker);
    validity::lemma_sweep(book, taker);
    accounting::lemma_sweep_traded(book, taker, id);
    assert(out.orders.dom().contains(id));
    assert(model::order_valid(book, id));
    if model::can_trade(levels, book.orders, taker) {
        let next = model::after_fill(book, taker);
        let next_taker = model::next_taker(levels, book.orders, taker);
        let fill = model::next_fill(levels, book.orders, taker);
        validity::lemma_front(levels, book.orders, side);
        assert(model::order_valid(book, model::front(levels)));
        validity::lemma_fill_valid(book, taker);
        assert(next.orders.contains_key(id));
        lemma_sweep_state(next, next_taker, id);
        assert(next.side(side) == model::next_levels(levels, book.orders, taker));
        let rest = model::sweep(next.side(side), next.orders, next_taker);
        assert(model::trades(out.fills) =~= seq![EngineEvent::Trade(fill)] + model::trades(
            rest.fills,
        ));
        accounting::lemma_traded_add(
            seq![EngineEvent::Trade(fill)],
            model::trades(rest.fills),
            id,
        );
        accounting::lemma_traded_one(EngineEvent::Trade(fill), id);
    }
}

/// What entering an order makes of another order.
pub proof fn lemma_entered_other(book: BookModel, seq_no: SeqNo, order: OrderState, id: OrderId)
    requires
        model::valid(book),
        validity::off_book(book, order.order_id),
        order.filled_qty == 0,
        book.orders.contains_key(id),
        id != order.order_id,
    ensures
        ({
            let step = model::entered(book, seq_no, order);
            let qty = accounting::traded(step.events, id);
            &&& step.book.orders.contains_key(id)
            &&& book.orders[id].filled_qty + qty <= book.orders[id].original_qty
            &&& step.book.orders[id] == filled_by(book.orders[id], qty)
            &&& !book.orders[id].is_open || book.waiting.contains(id) ==> qty == 0
            &&& step.book.waiting.contains(id) <==> book.waiting.contains(id)
        }),
{
    let step = model::entered(book, seq_no, order);
    let out = model::sweep(book.side(order.side.other()), book.orders, order);
    assert(model::order_valid(book, id));
    lemma_sweep_state(book, order, id);
    if step.events.len() > 0 {
        accounting::lemma_traded_one(step.events[0], id);
    }
    if order.tif == TimeInForce::FOK && model::short_of(book, order) {
        assert(step.events =~= seq![step.events[0]]);
    } else if order.condition == OrderCondition::AON && model::short_of(book, order) {
        if step.events.len() > 0 {
            assert(step.events =~= seq![step.events[0]]);
        }
    } else {
        let rest = model::remainder(model::swept(book, order), seq_no, out.taker);
        validity::lemma_sweep(book, order);
        accounting::lemma_traded_add(model::trades(out.fills), rest.events, id);
        if rest.events.len() > 0 {
            accounting::lemma_traded_one(rest.events[0], id);
            assert(rest.events =~= seq![rest.events[0]]);
        }
    }
    if step.book.waiting != book.waiting {
        assert(step.book.waiting == book.waiting.push(order.order_id));
        lemma_push(book.waiting, order.order_id, id);
    }
}

/// What a sequence with one more ID contains.
pub proof fn lemma_push(ids: Seq<OrderId>, id: OrderId, x: OrderId)
    ensures
        ids.push(id).contains(x) <==> ids.contains(x) || x == id,
{
    flow::lemma_push_contains(ids, id, x);
}

/// What entering an order makes of the order itself.
proof fn lemma_entered_self(book: BookModel, seq_no: SeqNo, order: OrderState)
    requires
        model::valid(book),
        validity::off_book(book, order.order_id),
        order.filled_qty == 0,
        order.original_qty > 0,
        order.condition != OrderCondition::Stop,
        book.orders.contains_key(order.order_id) ==> book.orders[order.order_id] == (OrderState {
            is_open: false,
            ..order
        }),
    ensures
        ({
            let step = model::entered(book, seq_no, order);
            let id = order.order_id;
            let qty = accounting::traded(step.events, id);
            &&& qty <= order.original_qty
            &&& book.orders.contains_key(id) ==> step.book.orders.contains_key(id)
            &&& step.book.waiting.contains(id) ==> {
                &&& step.book.orders.contains_key(id)
                &&& step.book.orders[id] == OrderState { is_open: true, ..order }
                &&& qty == 0
            }
            &&& !step.book.waiting.contains(id) && step.book.orders.contains_key(id)
                ==> step.book.orders[id] == entered_with(order, qty)
            &&& !step.book.orders.contains_key(id) ==> qty == 0
        }),
{
    let step = model::entered(book, seq_no, order);
    let id = order.order_id;
    let out = model::sweep(book.side(order.side.other()), book.orders, order);
    validity::lemma_off_book(book, id);
    if step.events.len() > 0 {
        accounting::lemma_traded_one(step.events[0], id);
    }
    if order.tif == TimeInForce::FOK && model::short_of(book, order) {
        assert(step.events =~= seq![step.events[0]]);
    } else if order.condition == OrderCondition::AON && model::short_of(book, order) {
        if step.events.len() > 0 {
            assert(step.events =~= seq![step.events[0]]);
        }
        if step.book.waiting != book.waiting {
            lemma_push(book.waiting, id, id);
        }
    } else {
        let rest = model::remainder(model::swept(book, order), seq_no, out.taker);
        validity::lemma_sweep(book, order);
        accounting::lemma_sweep_traded(book, order, id);
        liquidity::lemma_sweep_fills(book, order);
        accounting::lemma_traded_add(model::trades(out.fills), rest.events, id);
        if rest.events.len() > 0 {
            accounting::lemma_traded_one(rest.events[0], id);
            assert(rest.events =~= seq![rest.events[0]]);
        }
        assert(step.book.orders[id] == entered_with(order, accounting::traded(step.events, id)));
    }
}

/// What a cascade makes of an order.
pub proof fn lemma_cascaded_state(step: Step, seq_no: SeqNo, id: OrderId)
    requires
        model::valid(step.book),
        step.book.orders.contains_key(id),
    ensures
        ({
            let last = model::cascaded(step, seq_no);
            let qty = accounting::traded(last.events, id) - accounting::traded(step.events, id);
            let order = step.book.orders[id];
            &&& last.book.orders.contains_key(id)
            &&& qty >= 0
            &&& order.filled_qty + qty <= order.original_qty
            &&& !step.book.waiting.contains(id) ==> {
                &&& !last.book.waiting.contains(id)
                &&& last.book.orders[id] == filled_by(order, qty as nat)
                &&& !order.is_open ==> qty == 0
            }
            &&& last.book.waiting.contains(id) ==> last.book.orders[id] == order && qty == 0
            &&& step.book.waiting.contains(id) && !last.book.waiting.contains(id)
                ==> last.book.orders[id] == entered_with(order, qty as nat)
        }),
    decreases step.book.waiting.len(),
{
    let i = model::next_ready(step.book, step.events, 0);
    assert(model::order_valid(step.book, id));
    if 0 <= i < step.book.waiting.len() {
        let start = step.book;
        let next_id = start.waiting[i];
        let released = model::released(start, i);
        let entrant = model::underlying(start.orders[next_id]);
        let next = model::activated(start, seq_no, i);
        let then_step = Step { book: next.book, events: step.events + next.events };
        validity::lemma_cascade_step(step, seq_no);
        accounting::lemma_traded_add(step.events, next.events, id);
        assert(released.orders.contains_key(id));
        lemma_removed(start.waiting, i, id);
        if id == next_id {
            lemma_entered_self(released, seq_no, entrant);
            validity::lemma_waiting(start);
            assert(!next.book.waiting.contains(id));
        } else {
            lemma_entered_other(released, seq_no, entrant, id);
        }
        lemma_cascaded_state(then_step, seq_no, id);
    }
}

/// What a sequence of distinct IDs contains without one of them.
pub proof fn lemma_removed(ids: Seq<OrderId>, i: int, x: OrderId)
    requires
        0 <= i < ids.len(),
        ids.no_duplicates(),
    ensures
        ids.remove(i).contains(x) <==> ids.contains(x) && x != ids[i],
{
    let rest = ids.remove(i);
    if rest.contains(x) {
        let j = choose|j: int| 0 <= j < rest.len() && rest[j] == x;
        assert(ids[if j < i { j } else { j + 1 }] == x);
    }
    if ids.contains(x) && x != ids[i] {
        let j = choose|j: int| 0 <= j < ids.len() && ids[j] == x;
        assert(rest[if j < i { j } else { j - 1 }] == x);
    }
}

/// Every order on record after a command is what the command asks for and the trades say. One that
/// waits is as requested. One that came with the command or no longer waits has entered: what was
/// traded of it is filled, and it is open only as a good-til-cancel limit order with something
/// left. Any other has been filled by what was traded of it and is closed once nothing is left.
/// Closed and waiting orders do not trade.
pub proof fn law_orders_after(book: BookModel, cmd: Command, id: OrderId)
    requires
        model::valid(book),
        model::processed(book, cmd).book.orders.contains_key(id),
    ensures
        ({
            let done = model::processed(book, cmd);
            let qty = accounting::traded(done.events, id);
            let order = requested(book, cmd, id);
            &&& order.filled_qty + qty <= order.original_qty
            &&& !order.is_open ==> qty == 0
            &&& if done.book.waiting.contains(id) {
                done.book.orders[id] == order && qty == 0
            } else if !book.orders.contains_key(id) || (book.waiting.contains(id)
                && order.is_open) {
                done.book.orders[id] == entered_with(order, qty)
            } else {
                done.book.orders[id] == filled_by(order, qty)
            }
        }),
{
    let start = BookModel { last_seq_no: cmd.seq_no, ..book };
    let step = model::applied(book, cmd);
    let last = model::cascaded(step, cmd.seq_no);
    let done = model::processed(book, cmd);
    validity::lemma_renumbered(book, cmd.seq_no);
    validity::lemma_applied(book, cmd);
    accounting::lemma_cascaded_ids(step, cmd.seq_no);
    let bbo = EngineEvent::BboChanged(model::bbo(last.book));
    assert(last.events.push(bbo) =~= last.events + seq![bbo]);
    accounting::lemma_traded_add(last.events, seq![bbo], id);
    accounting::lemma_traded_one(bbo, id);
    assert(step.book.orders.contains_key(id));
    lemma_cascaded_state(step, cmd.seq_no, id);
    if start.orders.contains_key(id) {
        assert(model::order_valid(start, id));
    }
    validity::lemma_waiting(start);
    match cmd.payload {
        CommandPayload::New(order) => {
            lemma_new_state(start, cmd.seq_no, order, id);
        },
        CommandPayload::Cancel(cancel) => {
            lemma_cancel_state(start, cmd.seq_no, cancel, id);
        },
        CommandPayload::Replace(replace) => {
            lemma_replace_state(start, cmd.seq_no, replace, id);
        },
    }
}

/// What a new order makes of an order, before waiting orders enter.
pub proof fn lemma_new_state(book: BookModel, seq_no: SeqNo, order: NewOrder, id: OrderId)
    requires
        model::valid(book),
        model::new_order(book, seq_no, order).book.orders.contains_key(id),
    ensures
        ({
            let step = model::new_order(book, seq_no, order);
            let qty = accounting::traded(step.events, id);
            let state = OrderState { is_open: true, ..OrderState::of(order) };
            if order.order_id == id && acceptable(book, order) {
                &&& qty <= order.qty
                &&& if step.book.waiting.contains(id) {
                    step.book.orders[id] == state && qty == 0
                } else {
                    step.book.orders[id] == entered_with(state, qty)
                }
            } else {
                &&& book.orders.contains_key(id)
                &&& book.orders[id].filled_qty + qty <= book.orders[id].original_qty
                &&& step.book.orders[id] == filled_by(book.orders[id], qty)
                &&& !book.orders[id].is_open || book.waiting.contains(id) ==> qty == 0
                &&& step.book.waiting.contains(id) <==> book.waiting.contains(id)
            }
        }),
{
    let step = model::new_order(book, seq_no, order);
    let state = OrderState::of(order);
    if book.orders.contains_key(id) {
        assert(model::order_valid(book, id));
    }
    accounting::lemma_traded_one(step.events[0], id);
    if model::new_order_flaw(book, order) is None {
        let accepted = EngineEvent::OrderAccepted { seq_no, order_id: order.order_id };
        if order.condition == OrderCondition::Stop {
            assert(step.events =~= seq![accepted]);
            lemma_push(book.waiting, order.order_id, id);
        } else {
            let entered = model::entered(book, seq_no, state);
            accounting::lemma_traded_add(seq![accepted], entered.events, id);
            if id == order.order_id {
                lemma_entered_self(book, seq_no, state);
            } else {
                if !book.orders.contains_key(id) {
                    validity::lemma_sweep(book, state);
                    let out = model::sweep(book.side(state.side.other()), book.orders, state);
                    assert(!out.orders.dom().contains(id));
                }
                lemma_entered_other(book, seq_no, state, id);
            }
        }
    } else {
        assert(step.events =~= seq![step.events[0]]);
    }
}

/// What a cancel request makes of an order, before waiting orders enter.
pub proof fn lemma_cancel_state(book: BookModel, seq_no: SeqNo, cancel: CancelOrder, id: OrderId)
    requires
        model::valid(book),
        model::cancel_order(book, seq_no, cancel).book.orders.contains_key(id),
    ensures
        ({
            let step = model::cancel_order(book, seq_no, cancel);
            &&& book.orders.contains_key(id)
            &&& accounting::traded(step.events, id) == 0
            &&& if cancel.order_id == id {
                &&& step.book.orders[id] == OrderState { is_open: false, ..book.orders[id] }
                &&& !step.book.waiting.contains(id)
            } else {
                &&& step.book.orders[id] == book.orders[id]
                &&& step.book.waiting.contains(id) <==> book.waiting.contains(id)
            }
        }),
{
    let step = model::cancel_order(book, seq_no, cancel);
    validity::lemma_waiting(book);
    accounting::lemma_traded_one(step.events[0], id);
    assert(step.events =~= seq![step.events[0]]);
    if model::cancel_flaw(book, cancel) is None {
        assert(model::order_valid(book, cancel.order_id));
        if book.waiting.contains(cancel.order_id) {
            quantities::lemma_remove_value(book.waiting, cancel.order_id);
        }
    }
}

/// What a replace request makes of an order, before waiting orders enter.
pub proof fn lemma_replace_state(book: BookModel, seq_no: SeqNo, replace: ReplaceOrder, id: OrderId)
    requires
        model::valid(book),
        model::replace_order(book, seq_no, replace).book.orders.contains_key(id),
    ensures
        ({
            let step = model::replace_order(book, seq_no, replace);
            let qty = accounting::traded(step.events, id);
            let order = if replace.order_id == id && replaceable(book, replace) {
                OrderState {
                    price: replace.new_price,
                    original_qty: replace.new_qty,
                    ..book.orders[id]
                }
            } else {
                book.orders[id]
            };
            &&& book.orders.contains_key(id)
            &&& order.filled_qty + qty <= order.original_qty
            &&& step.book.orders[id] == filled_by(order, qty)
            &&& !order.is_open || book.waiting.contains(id) ==> qty == 0
            &&& step.book.waiting.contains(id) <==> book.waiting.contains(id)
        }),
{
    let step = model::replace_order(book, seq_no, replace);
    if book.orders.contains_key(id) {
        assert(model::order_valid(book, id));
    }
    accounting::lemma_traded_one(step.events[0], id);
    if model::replace_flaw(book, replace) is None {
        assert(model::order_valid(book, replace.order_id));
    }
    if model::replace_flaw(book, replace) is None && !book.waiting.contains(replace.order_id) {
        validity::lemma_queued(book, replace.order_id);
        validity::lemma_amended(book, replace);
        let next = model::amended(book, replace);
        let order = next.orders[replace.order_id];
        let out = model::sweep(next.side(order.side.other()), next.orders, order);
        let replaced = step.events[0];
        validity::lemma_sweep(next, order);
        accounting::lemma_traded_add(seq![replaced], model::trades(out.fills), id);
        if id == replace.order_id {
            accounting::lemma_sweep_traded(next, order, id);
        } else {
            if !next.orders.contains_key(id) {
                assert(!out.orders.dom().contains(id));
            }
            lemma_sweep_state(next, order, id);
            assert(model::order_valid(next, id));
        }
    } else {
        assert(step.events =~= seq![step.events[0]]);
    }
}

/// The first event of a command is that of the command's own request.
proof fn lemma_first_event(book: BookModel, cmd: Command)
    ensures
        model::processed(book, cmd).events.len() > 1,
        model::processed(book, cmd).events[0] == model::applied(book, cmd).events[0],
{
    let step = model::applied(book, cmd);
    laws::lemma_cascade_extends(step, cmd.seq_no);
    assert(step.events.len() > 0);
}

/// A new order is refused exactly if its quantity is zero, or it is a limit order with price zero,
/// or its ID is on record, and for the first of these that holds. Otherwise it is accepted,
/// whatever its side, type, time in force and condition.
pub proof fn law_new_orders_are_answered(book: BookModel, cmd: Command, order: NewOrder)
    requires
        cmd.payload == CommandPayload::New(order),
    ensures
        ({
            let first = model::processed(book, cmd).events[0];
            let seq_no = cmd.seq_no;
            let order_id = order.order_id;
            if order.qty == 0 {
                first == EngineEvent::OrderRejected {
                    seq_no,
                    order_id,
                    reason: RejectReason::InvalidQuantity,
                }
            } else if order.order_type == OrderType::Limit && order.price == 0 {
                first == EngineEvent::OrderRejected {
                    seq_no,
                    order_id,
                    reason: RejectReason::InvalidPrice,
                }
            } else if book.orders.contains_key(order_id) {
                first == EngineEvent::OrderRejected {
                    seq_no,
                    order_id,
                    reason: RejectReason::DuplicateOrderId,
                }
            } else {
                first == EngineEvent::OrderAccepted { seq_no, order_id }
            }
        }),
{
    lemma_first_event(book, cmd);
}

/// A cancel request is refused exactly if the order is not on record or is closed. Otherwise the
/// order is canceled with all that is left of it, is closed and waits no more.
pub proof fn law_cancels_are_answered(book: BookModel, cmd: Command, cancel: CancelOrder)
    requires
        model::valid(book),
        cmd.payload == CommandPayload::Cancel(cancel),
    ensures
        ({
            let done = model::processed(book, cmd);
            let seq_no = cmd.seq_no;
            let order_id = cancel.order_id;
            let order = book.orders[order_id];
            if !book.orders.contains_key(order_id) {
                done.events[0] == EngineEvent::CancelRejected {
                    seq_no,
                    order_id,
                    reason: RejectReason::UnknownOrder,
                }
            } else if !order.is_open {
                done.events[0] == EngineEvent::CancelRejected {
                    seq_no,
                    order_id,
                    reason: RejectReason::NothingToCancel,
                }
            } else {
                &&& done.events[0] == EngineEvent::OrderCanceled {
                    seq_no,
                    order_id,
                    remaining_qty: (order.original_qty - order.filled_qty) as u64,
                }
                &&& done.book.orders.contains_key(order_id)
                &&& done.book.orders[order_id] == OrderState { is_open: false, ..order }
                &&& !done.book.waiting.contains(order_id)
            }
        }),
{
    let done = model::processed(book, cmd);
    let id = cancel.order_id;
    lemma_first_event(book, cmd);
    if book.orders.contains_key(id) {
        assert(model::order_valid(book, id));
        accounting::law_orders_keep_their_terms(book, cmd);
        law_orders_after(book, cmd, id);
        validity::lemma_processed(book, cmd);
        validity::lemma_waiting(done.book);
    }
}

/// A replace request is refused exactly if the order is not on record, closed or a stop order that
/// waits, if the new quantity is zero, above the order's quantity or not above what is filled of
/// it, or if the new price is zero, and for the first of these that holds. Otherwise it is carried
/// out: the answer names the new price and quantity, and the order has them.
pub proof fn law_replaces_are_answered(book: BookModel, cmd: Command, replace: ReplaceOrder)
    requires
        model::valid(book),
        cmd.payload == CommandPayload::Replace(replace),
    ensures
        ({
            let done = model::processed(book, cmd);
            let seq_no = cmd.seq_no;
            let order_id = replace.order_id;
            let order = book.orders[order_id];
            let refused = |reason: RejectReason|
                done.events[0] == EngineEvent::ReplaceRejected { seq_no, order_id, reason };
            if !book.orders.contains_key(order_id) {
                refused(RejectReason::UnknownOrder)
            } else if !order.is_open || order.condition == OrderCondition::Stop {
                refused(RejectReason::NothingToCancel)
            } else if replace.new_qty == 0 {
                refused(RejectReason::InvalidQuantity)
            } else if replace.new_qty > order.original_qty {
                refused(RejectReason::ReplaceQtyIncrease)
            } else if replace.new_price == 0 {
                refused(RejectReason::InvalidPrice)
            } else if replace.new_qty <= order.filled_qty {
                refused(RejectReason::InvalidQuantity)
            } else {
                &&& done.events[0] == EngineEvent::OrderReplaced {
                    seq_no,
                    order_id,
                    new_price: replace.new_price,
                    new_qty: replace.new_qty,
                }
                &&& done.book.orders.contains_key(order_id)
                &&& done.book.orders[order_id].price == replace.new_price
                &&& done.book.orders[order_id].original_qty == replace.new_qty
                &&& done.book.orders[order_id].filled_qty >= order.filled_qty
                &&& done.book.orders[order_id].side == order.side
                &&& done.book.orders[order_id].is_open <==> done.book.orders[order_id].filled_qty
                    < replace.new_qty
            }
        }),
{
    let id = replace.order_id;
    lemma_first_event(book, cmd);
    if book.orders.contains_key(id) {
        assert(model::order_valid(book, id));
        accounting::law_orders_keep_their_terms(book, cmd);
        law_orders_after(book, cmd, id);
        validity::lemma_waiting(book);
    }
}

/// The event is numbered like the command, if events of its kind are numbered.
pub open spec fn numbered(event: EngineEvent, number: SeqNo) -> bool {
    match event {
        EngineEvent::OrderAccepted { seq_no, .. } => seq_no == number,
        EngineEvent::OrderRejected { seq_no, .. } => seq_no == number,
        EngineEvent::OrderCanceled { seq_no, .. } => seq_no == number,
        EngineEvent::CancelRejected { seq_no, .. } => seq_no == number,
        EngineEvent::OrderReplaced { seq_no, .. } => seq_no == number,
        EngineEvent::ReplaceRejected { seq_no, .. } => seq_no == number,
        _ => true,
    }
}

/// The event is a trade, or it rejects or cancels an order.
pub open spec fn follows_up(event: EngineEvent) -> bool {
    event is Trade || event is OrderRejected || event is OrderCanceled
}

/// The events of an entry.
proof fn lemma_entered_events(book: BookModel, seq_no: SeqNo, order: OrderState)
    ensures
        ({
            let events = model::entered(book, seq_no, order).events;
            forall|k: int|
                0 <= k < events.len() ==> numbered(#[trigger] events[k], seq_no) && follows_up(
                    events[k],
                )
        }),
{
    let out = model::sweep(book.side(order.side.other()), book.orders, order);
    let trades = model::trades(out.fills);
    let rest = model::remainder(model::swept(book, order), seq_no, out.taker);
    let events = model::entered(book, seq_no, order).events;
    let refused = (order.tif == TimeInForce::FOK || order.condition == OrderCondition::AON)
        && model::short_of(book, order);
    if !refused {
        assert forall|k: int| 0 <= k < events.len() implies numbered(#[trigger] events[k], seq_no)
            && follows_up(events[k]) by {
            if k < trades.len() {
                assert(events[k] == trades[k]);
            } else {
                assert(events[k] == rest.events[k - trades.len()]);
            }
        }
    }
}

/// The events of a cascade.
proof fn lemma_cascaded_events(step: Step, seq_no: SeqNo)
    requires
        forall|k: int|
            0 <= k < step.events.len() ==> numbered(#[trigger] step.events[k], seq_no) && (k == 0
                || follows_up(step.events[k])),
        step.events.len() > 0,
    ensures
        ({
            let events = model::cascaded(step, seq_no).events;
            forall|k: int|
                0 <= k < events.len() ==> numbered(#[trigger] events[k], seq_no) && (k == 0
                    || follows_up(events[k]))
        }),
    decreases step.book.waiting.len(),
{
    let i = model::next_ready(step.book, step.events, 0);
    if 0 <= i < step.book.waiting.len() {
        let order = model::underlying(step.book.orders[step.book.waiting[i]]);
        let next = model::activated(step.book, seq_no, i);
        let book = BookModel { waiting: step.book.waiting.remove(i), ..next.book };
        let events = step.events + next.events;
        lemma_entered_events(model::released(step.book, i), seq_no, order);
        assert forall|k: int| 0 <= k < events.len() implies numbered(#[trigger] events[k], seq_no)
            && (k == 0 || follows_up(events[k])) by {
            if k < step.events.len() {
                assert(events[k] == step.events[k]);
            } else {
                assert(events[k] == next.events[k - step.events.len()]);
            }
        }
        let then = Step { book, events };
        lemma_cascaded_events(then, seq_no);
        assert(model::cascaded(step, seq_no) == model::cascaded(then, seq_no));
    }
}

/// The events of a command are the answer to it, then trades and orders rejected or canceled on
/// the way, and last the best bid and offer. Those that carry a number carry the command's.
pub proof fn law_events_of_a_command(book: BookModel, cmd: Command)
    ensures
        ({
            let done = model::processed(book, cmd);
            let n = done.events.len() as int;
            &&& n >= 2
            &&& done.events[n - 1] is BboChanged
            &&& forall|k: int|
                0 <= k < n ==> numbered(#[trigger] done.events[k], cmd.seq_no) && (0 < k < n - 1
                    ==> follows_up(done.events[k]))
            &&& match cmd.payload {
                CommandPayload::New(order) => {
                    ||| done.events[0] matches EngineEvent::OrderAccepted { order_id, .. }
                        && order_id == order.order_id
                    ||| done.events[0] matches EngineEvent::OrderRejected { order_id, .. }
                        && order_id == order.order_id
                },
                CommandPayload::Cancel(cancel) => {
                    ||| done.events[0] matches EngineEvent::OrderCanceled { order_id, .. }
                        && order_id == cancel.order_id
                    ||| done.events[0] matches EngineEvent::CancelRejected { order_id, .. }
                        && order_id == cancel.order_id
                },
                CommandPayload::Replace(replace) => {
                    ||| done.events[0] matches EngineEvent::OrderReplaced { order_id, .. }
                        && order_id == replace.order_id
                    ||| done.events[0] matches EngineEvent::ReplaceRejected { order_id, .. }
                        && order_id == replace.order_id
                },
            }
        }),
{
    let start = BookModel { last_seq_no: cmd.seq_no, ..book };
    let step = model::applied(book, cmd);
    let last = model::cascaded(step, cmd.seq_no);
    let done = model::processed(book, cmd);
    lemma_first_event(book, cmd);
    assert forall|k: int| 0 <= k < step.events.len() implies numbered(
        #[trigger] step.events[k],
        cmd.seq_no,
    ) && (k == 0 || follows_up(step.events[k])) by {
        match cmd.payload {
            CommandPayload::New(order) => {
                let entered = model::entered(start, cmd.seq_no, OrderState::of(order));
                lemma_entered_events(start, cmd.seq_no, OrderState::of(order));
                if k > 0 {
                    assert(step.events[k] == entered.events[k - 1]);
                }
            },
            CommandPayload::Cancel(_) => {},
            CommandPayload::Replace(replace) => {
                if k > 0 {
                    let next = model::amended(start, replace);
                    let order = next.orders[replace.order_id];
                    let out = model::sweep(next.side(order.side.other()), next.orders, order);
                    assert(step.events[k] == model::trades(out.fills)[k - 1]);
                }
            },
        }
    }
    lemma_cascaded_events(step, cmd.seq_no);
    assert forall|k: int| 0 <= k < done.events.len() implies numbered(
        #[trigger] done.events[k],
        cmd.seq_no,
    ) && (0 < k < done.events.len() - 1 ==> follows_up(done.events[k])) by {
        if k < last.events.len() {
            assert(done.events[k] == last.events[k]);
        }
    }
}

/// A command that is refused changes nothing but the last sequence number: a new order that is not
/// acceptable, a cancel request for an order that is not open, a replace request that cannot be
/// carried out.
pub proof fn law_refused_commands_change_nothing(book: BookModel, cmd: Command)
    requires
        model::valid(book),
        standing::still(book),
        match cmd.payload {
            CommandPayload::New(order) => !acceptable(book, order),
            CommandPayload::Cancel(cancel) => !(book.orders.contains_key(cancel.order_id)
                && book.orders[cancel.order_id].is_open),
            CommandPayload::Replace(replace) => !replaceable(book, replace),
        },
    ensures
        model::processed(book, cmd).book == (BookModel { last_seq_no: cmd.seq_no, ..book }),
        model::processed(book, cmd).events.len() == 2,
{
    standing::lemma_still(book);
    laws::law_refused_changes_nothing(book, cmd);
}

} // verus!
