//! Accounting: what the events say was traded is what the orders were filled by, and what was
//! closed stays closed.
use crate::liquidity;
use crate::model;
use crate::model::{BookModel, Step};
use crate::types::{
    Command, CommandPayload, EngineEvent, OrderCondition, OrderId, OrderState, ReplaceOrder,
    SeqNo, TimeInForce,
};
use crate::validity;
use vstd::prelude::*;

verus! {

/// Quantity of an event's trade in which an order took part.
pub open spec fn share(event: EngineEvent, id: OrderId) -> nat {
    match event {
        EngineEvent::Trade(fill) => {
            if fill.maker_order_id == id || fill.taker_order_id == id {
                fill.qty as nat
            } else {
                0
            }
        },
        _ => 0,
    }
}

/// Quantity of all trades among the events in which an order took part.
pub open spec fn traded(events: Seq<EngineEvent>, id: OrderId) -> nat
    decreases events.len(),
{
    if events.len() == 0 {
        0
    } else {
        share(events[0], id) + traded(events.drop_first(), id)
    }
}

/// Filled quantity of an order, zero for one that is not on record.
pub open spec fn filled_of(book: BookModel, id: OrderId) -> int {
    if book.orders.contains_key(id) {
        book.orders[id].filled_qty as int
    } else {
        0
    }
}

/// If the event cancels an order, the order is on record as closed, and the event names the
/// quantity that was left of it.
pub open spec fn settled(book: BookModel, event: EngineEvent) -> bool {
    event matches EngineEvent::OrderCanceled { order_id, remaining_qty, .. } ==> {
        &&& book.orders.contains_key(order_id)
        &&& !book.orders[order_id].is_open
        &&& book.orders[order_id].filled_qty + remaining_qty == book.orders[order_id].original_qty
    }
}

/// Every closed order of `before` is the same in `after`.
pub open spec fn closed_kept(before: BookModel, after: BookModel) -> bool {
    forall|id: OrderId| #[trigger]
        before.orders.contains_key(id) ==> {
            &&& after.orders.contains_key(id)
            &&& !before.orders[id].is_open ==> after.orders[id] == before.orders[id]
        }
}

/// The trades of two runs of events add up.
pub proof fn lemma_traded_add(a: Seq<EngineEvent>, b: Seq<EngineEvent>, id: OrderId)
    ensures
        traded(a + b, id) == traded(a, id) + traded(b, id),
    decreases a.len(),
{
    if a.len() == 0 {
        assert(a + b =~= b);
    } else {
        lemma_traded_add(a.drop_first(), b, id);
        assert((a + b).drop_first() =~= a.drop_first() + b);
    }
}

/// The trades of a single event.
pub proof fn lemma_traded_one(event: EngineEvent, id: OrderId)
    ensures
        traded(seq![event], id) == share(event, id),
{
    assert(seq![event].drop_first() =~= Seq::empty());
    assert(traded(seq![event].drop_first(), id) == 0);
}

/// A sweep fills every order by what its trades say.
pub proof fn lemma_sweep_traded(book: BookModel, taker: OrderState, id: OrderId)
    requires
        model::valid(book),
        taker.filled_qty <= taker.original_qty,
        book.orders.contains_key(taker.order_id) && book.orders[taker.order_id].is_open
            ==> book.orders[taker.order_id].side == taker.side,
    ensures
        ({
            let out = model::sweep(book.side(taker.side.other()), book.orders, taker);
            let qty = traded(model::trades(out.fills), id);
            if id == taker.order_id {
                out.taker.filled_qty == taker.filled_qty + qty
            } else {
                filled_of(BookModel { orders: out.orders, ..book }, id) == filled_of(book, id) + qty
            }
        }),
    decreases taker.open(),
{
    let side = taker.side.other();
    let levels = book.side(side);
    let out = model::sweep(levels, book.orders, taker);
    if model::can_trade(levels, book.orders, taker) {
        let next = model::after_fill(book, taker);
        let next_taker = model::next_taker(levels, book.orders, taker);
        let fill = model::next_fill(levels, book.orders, taker);
        validity::lemma_front(levels, book.orders, side);
        assert(model::order_valid(book, model::front(levels)));
        validity::lemma_fill_valid(book, taker);
        lemma_sweep_traded(next, next_taker, id);
        assert(next.side(side) == model::next_levels(levels, book.orders, taker));
        let rest = model::sweep(next.side(side), next.orders, next_taker);
        assert(model::trades(out.fills) =~= seq![EngineEvent::Trade(fill)] + model::trades(
            rest.fills,
        ));
        lemma_traded_add(seq![EngineEvent::Trade(fill)], model::trades(rest.fills), id);
        lemma_traded_one(EngineEvent::Trade(fill), id);
    }
}

/// Entering an order fills every order by what its trades say.
pub proof fn lemma_entered_traded(book: BookModel, seq_no: SeqNo, order: OrderState, id: OrderId)
    requires
        model::valid(book),
        validity::off_book(book, order.order_id),
        order.filled_qty == 0,
        filled_of(book, order.order_id) == 0,
    ensures
        ({
            let step = model::entered(book, seq_no, order);
            filled_of(step.book, id) == filled_of(book, id) + traded(step.events, id)
        }),
{
    let step = model::entered(book, seq_no, order);
    if order.tif == TimeInForce::FOK && model::short_of(book, order) {
        lemma_traded_one(step.events[0], id);
        assert(step.events =~= seq![step.events[0]]);
    } else if order.condition == OrderCondition::AON && model::short_of(book, order) {
        if step.events.len() > 0 {
            lemma_traded_one(step.events[0], id);
            assert(step.events =~= seq![step.events[0]]);
        }
    } else {
        let out = model::sweep(book.side(order.side.other()), book.orders, order);
        let rest = model::remainder(model::swept(book, order), seq_no, out.taker);
        validity::lemma_sweep(book, order);
        lemma_sweep_traded(book, order, id);
        lemma_traded_add(model::trades(out.fills), rest.events, id);
        if rest.events.len() > 0 {
            lemma_traded_one(rest.events[0], id);
            assert(rest.events =~= seq![rest.events[0]]);
        }
    }
}

/// A replace request fills every order by what its trades say.
pub proof fn lemma_replace_traded(book: BookModel, seq_no: SeqNo, replace: ReplaceOrder, id: OrderId)
    requires
        model::valid(book),
    ensures
        ({
            let step = model::replace_order(book, seq_no, replace);
            filled_of(step.book, id) == filled_of(book, id) + traded(step.events, id)
        }),
{
    let step = model::replace_order(book, seq_no, replace);
    if model::replace_flaw(book, replace) is None {
        let replaced = EngineEvent::OrderReplaced {
            seq_no,
            order_id: replace.order_id,
            new_price: replace.new_price,
            new_qty: replace.new_qty,
        };
        lemma_traded_one(replaced, id);
        assert(model::order_valid(book, replace.order_id));
    }
    if model::replace_flaw(book, replace) is None && !book.waiting.contains(replace.order_id) {
        validity::lemma_queued(book, replace.order_id);
        validity::lemma_amended(book, replace);
        let next = model::amended(book, replace);
        let order = next.orders[replace.order_id];
        let out = model::sweep(next.side(order.side.other()), next.orders, order);
        validity::lemma_sweep(next, order);
        lemma_sweep_traded(next, order, id);
        let replaced = EngineEvent::OrderReplaced {
            seq_no,
            order_id: replace.order_id,
            new_price: replace.new_price,
            new_qty: replace.new_qty,
        };
        lemma_traded_add(seq![replaced], model::trades(out.fills), id);
    } else {
        lemma_traded_one(step.events[0], id);
        assert(step.events =~= seq![step.events[0]]);
    }
}

/// Letting waiting orders enter fills every order by what the new trades say.
pub proof fn lemma_cascaded_traded(step: Step, seq_no: SeqNo, start: BookModel, id: OrderId)
    requires
        model::valid(step.book),
        filled_of(step.book, id) == filled_of(start, id) + traded(step.events, id),
    ensures
        ({
            let last = model::cascaded(step, seq_no);
            filled_of(last.book, id) == filled_of(start, id) + traded(last.events, id)
        }),
    decreases step.book.waiting.len(),
{
    let i = model::next_ready(step.book, step.events, 0);
    if 0 <= i < step.book.waiting.len() {
        let next_id = step.book.waiting[i];
        let next = model::activated(step.book, seq_no, i);
        assert(step.book.orders.contains_key(next_id));
        validity::lemma_cascade_step(step, seq_no);
        lemma_entered_traded(
            model::released(step.book, i),
            seq_no,
            model::underlying(step.book.orders[next_id]),
            id,
        );
        lemma_traded_add(step.events, next.events, id);
        let book = BookModel { waiting: step.book.waiting.remove(i), ..next.book };
        assert(book == next.book);
        lemma_cascaded_traded(
            Step { book, events: step.events + next.events },
            seq_no,
            start,
            id,
        );
    }
}

/// A command's own request fills every order by what its trades say.
pub proof fn lemma_applied_traded(book: BookModel, cmd: Command, id: OrderId)
    requires
        model::valid(book),
    ensures
        filled_of(model::applied(book, cmd).book, id) == filled_of(book, id) + traded(
            model::applied(book, cmd).events,
            id,
        ),
{
    let start = BookModel { last_seq_no: cmd.seq_no, ..book };
    let step = model::applied(book, cmd);
    validity::lemma_renumbered(book, cmd.seq_no);
    validity::lemma_applied(book, cmd);
    match cmd.payload {
        CommandPayload::New(order) => {
            if model::new_order_flaw(start, order) is None {
                let accepted = EngineEvent::OrderAccepted {
                    seq_no: cmd.seq_no,
                    order_id: order.order_id,
                };
                lemma_traded_one(accepted, id);
                if order.condition == OrderCondition::Stop {
                } else {
                    let state = OrderState::of(order);
                    lemma_entered_traded(start, cmd.seq_no, state, id);
                    lemma_traded_add(
                        seq![accepted],
                        model::entered(start, cmd.seq_no, state).events,
                        id,
                    );
                }
            } else {
                lemma_traded_one(step.events[0], id);
                assert(step.events =~= seq![step.events[0]]);
            }
        },
        CommandPayload::Cancel(cancel) => {
            lemma_traded_one(step.events[0], id);
            assert(step.events =~= seq![step.events[0]]);
            if model::cancel_flaw(start, cancel) is None {
                assert(model::order_valid(start, cancel.order_id));
            }
        },
        CommandPayload::Replace(replace) => {
            lemma_replace_traded(start, cmd.seq_no, replace, id);
        },
    }
}

/// Accounting: a command raises every order's filled quantity by exactly the quantity of those
/// of its trades in which the order took part, as maker or as taker.
pub proof fn law_fills_are_traded(book: BookModel, cmd: Command, id: OrderId)
    requires
        model::valid(book),
    ensures
        filled_of(model::processed(book, cmd).book, id) == filled_of(book, id) + traded(
            model::processed(book, cmd).events,
            id,
        ),
{
    let step = model::applied(book, cmd);
    validity::lemma_applied(book, cmd);
    lemma_applied_traded(book, cmd, id);
    lemma_cascaded_traded(step, cmd.seq_no, book, id);
    let last = model::cascaded(step, cmd.seq_no);
    let bbo = EngineEvent::BboChanged(model::bbo(last.book));
    assert(last.events.push(bbo) =~= last.events + seq![bbo]);
    lemma_traded_add(last.events, seq![bbo], id);
    lemma_traded_one(bbo, id);
}

/// Entering an order keeps what is closed and settles what it cancels.
proof fn lemma_entered_closed(book: BookModel, seq_no: SeqNo, order: OrderState)
    requires
        model::valid(book),
        validity::off_book(book, order.order_id),
        order.filled_qty <= order.original_qty,
    ensures
        forall|id: OrderId| #[trigger]
            book.orders.contains_key(id) ==> {
                &&& model::entered(book, seq_no, order).book.orders.contains_key(id)
                &&& !book.orders[id].is_open && id != order.order_id ==> model::entered(
                    book,
                    seq_no,
                    order,
                ).book.orders[id] == book.orders[id]
            },
        ({
            let step = model::entered(book, seq_no, order);
            forall|i: int|
                0 <= i < step.events.len() ==> settled(step.book, #[trigger] step.events[i])
        }),
{
    let out = model::sweep(book.side(order.side.other()), book.orders, order);
    validity::lemma_sweep(book, order);
    assert forall|id: OrderId| book.orders.contains_key(id) implies #[trigger] out.orders.contains_key(
        id,
    ) by {
        assert(out.orders.dom().contains(id));
    }
}

/// A replace request keeps what is closed and cancels nothing.
proof fn lemma_replace_closed(book: BookModel, seq_no: SeqNo, replace: ReplaceOrder)
    requires
        model::valid(book),
    ensures
        closed_kept(book, model::replace_order(book, seq_no, replace).book),
        ({
            let step = model::replace_order(book, seq_no, replace);
            forall|i: int|
                0 <= i < step.events.len() ==> settled(step.book, #[trigger] step.events[i])
        }),
{
    if model::replace_flaw(book, replace) is None {
        assert(model::order_valid(book, replace.order_id));
    }
    if model::replace_flaw(book, replace) is None && !book.waiting.contains(replace.order_id) {
        validity::lemma_queued(book, replace.order_id);
        validity::lemma_amended(book, replace);
        let next = model::amended(book, replace);
        let order = next.orders[replace.order_id];
        let out = model::sweep(next.side(order.side.other()), next.orders, order);
        validity::lemma_sweep(next, order);
        assert forall|id: OrderId| #[trigger] book.orders.contains_key(id) implies ({
            let after = model::replace_order(book, seq_no, replace).book;
            &&& after.orders.contains_key(id)
            &&& !book.orders[id].is_open ==> after.orders[id] == book.orders[id]
        }) by {
            assert(next.orders.contains_key(id));
            assert(out.orders.dom().contains(id));
        }
    }
}

/// Letting waiting orders enter keeps what is closed and settles what it cancels.
pub proof fn lemma_cascaded_closed(step: Step, seq_no: SeqNo)
    requires
        model::valid(step.book),
        forall|i: int| 0 <= i < step.events.len() ==> settled(step.book, #[trigger] step.events[i]),
    ensures
        closed_kept(step.book, model::cascaded(step, seq_no).book),
        ({
            let last = model::cascaded(step, seq_no);
            forall|i: int|
                0 <= i < last.events.len() ==> settled(last.book, #[trigger] last.events[i])
        }),
    decreases step.book.waiting.len(),
{
    let i = model::next_ready(step.book, step.events, 0);
    if 0 <= i < step.book.waiting.len() {
        let next_id = step.book.waiting[i];
        let released = model::released(step.book, i);
        let next = model::activated(step.book, seq_no, i);
        assert(step.book.orders.contains_key(next_id));
        validity::lemma_cascade_step(step, seq_no);
        lemma_entered_closed(released, seq_no, model::underlying(step.book.orders[next_id]));
        let book = BookModel { waiting: step.book.waiting.remove(i), ..next.book };
        assert(book == next.book);
        let events = step.events + next.events;
        assert(closed_kept(step.book, book)) by {
            assert forall|id: OrderId| #[trigger] step.book.orders.contains_key(id) implies {
                &&& book.orders.contains_key(id)
                &&& !step.book.orders[id].is_open ==> book.orders[id] == step.book.orders[id]
            } by {
                assert(released.orders.contains_key(id));
            }
        }
        assert forall|j: int| 0 <= j < events.len() implies settled(book, #[trigger] events[j]) by {
            if j < step.events.len() {
                assert(settled(step.book, step.events[j]));
            } else {
                assert(events[j] == next.events[j - step.events.len()]);
            }
        }
        lemma_cascaded_closed(Step { book, events }, seq_no);
    }
}

/// A command keeps what is closed and settles what it cancels before waiting orders enter.
pub proof fn lemma_applied_closed(book: BookModel, cmd: Command)
    requires
        model::valid(book),
    ensures
        closed_kept(book, model::applied(book, cmd).book),
        ({
            let step = model::applied(book, cmd);
            forall|i: int|
                0 <= i < step.events.len() ==> settled(step.book, #[trigger] step.events[i])
        }),
{
    let start = BookModel { last_seq_no: cmd.seq_no, ..book };
    let step = model::applied(book, cmd);
    validity::lemma_renumbered(book, cmd.seq_no);
    match cmd.payload {
        CommandPayload::New(order) => {
            if model::new_order_flaw(start, order) is None && order.condition
                != OrderCondition::Stop {
                let state = OrderState::of(order);
                let entered = model::entered(start, cmd.seq_no, state);
                lemma_entered_closed(start, cmd.seq_no, state);
                assert forall|i: int| 0 <= i < step.events.len() implies settled(
                    step.book,
                    #[trigger] step.events[i],
                ) by {
                    if i > 0 {
                        assert(step.events[i] == entered.events[i - 1]);
                    }
                }
            }
        },
        CommandPayload::Cancel(cancel) => {
            if model::cancel_flaw(start, cancel) is None {
                assert(model::order_valid(start, cancel.order_id));
            }
        },
        CommandPayload::Replace(replace) => {
            lemma_replace_closed(start, cmd.seq_no, replace);
        },
    }
}

/// An order on record stays on record, and once closed it never changes again.
pub proof fn law_closed_is_final(book: BookModel, cmd: Command)
    requires
        model::valid(book),
    ensures
        closed_kept(book, model::processed(book, cmd).book),
{
    let step = model::applied(book, cmd);
    validity::lemma_applied(book, cmd);
    lemma_applied_closed(book, cmd);
    lemma_cascaded_closed(step, cmd.seq_no);
}

/// A canceled order is closed, and its filled and its canceled quantity add up to its original
/// quantity.
pub proof fn law_canceled_is_settled(book: BookModel, cmd: Command)
    requires
        model::valid(book),
    ensures
        ({
            let done = model::processed(book, cmd);
            forall|i: int|
                0 <= i < done.events.len() ==> settled(done.book, #[trigger] done.events[i])
        }),
{
    let step = model::applied(book, cmd);
    validity::lemma_applied(book, cmd);
    lemma_applied_closed(book, cmd);
    lemma_cascaded_closed(step, cmd.seq_no);
}

/// A fill-or-kill or all-or-none order is never filled in part on entry: it trades its whole
/// quantity or nothing.
pub proof fn law_all_or_nothing(book: BookModel, seq_no: SeqNo, order: OrderState)
    requires
        model::valid(book),
        validity::off_book(book, order.order_id),
        order.filled_qty == 0,
        filled_of(book, order.order_id) == 0,
        order.tif == TimeInForce::FOK || order.condition == OrderCondition::AON,
    ensures
        ({
            let qty = traded(model::entered(book, seq_no, order).events, order.order_id);
            if model::available_to(book, order) >= order.original_qty {
                qty == order.original_qty
            } else {
                qty == 0
            }
        }),
{
    let step = model::entered(book, seq_no, order);
    lemma_entered_traded(book, seq_no, order, order.order_id);
    liquidity::lemma_sweep_fills(book, order);
    validity::lemma_sweep(book, order);
}

/// What never changes of an order: its ID, symbol, side, type, time in force and stop price. Its
/// condition changes only when a stop order enters as its underlying type, its filled quantity
/// never falls, and its quantity never rises.
pub open spec fn follows(before: OrderState, after: OrderState) -> bool {
    &&& after.order_id == before.order_id
    &&& after.symbol == before.symbol
    &&& after.side == before.side
    &&& after.order_type == before.order_type
    &&& after.tif == before.tif
    &&& after.stop_price == before.stop_price
    &&& after.condition == before.condition || (before.condition == OrderCondition::Stop
        && after.condition == OrderCondition::Unconditional)
    &&& after.filled_qty >= before.filled_qty
    &&& after.original_qty <= before.original_qty
}

/// Every order of `before` is on record in `after` and follows from what it was; but for the order
/// `amended`, price and quantity are the same.
pub open spec fn orders_follow(
    before: BookModel,
    after: BookModel,
    amended: Option<OrderId>,
) -> bool {
    forall|id: OrderId| #[trigger]
        before.orders.contains_key(id) ==> {
            &&& after.orders.contains_key(id)
            &&& follows(before.orders[id], after.orders[id])
            &&& amended != Some(id) ==> {
                &&& after.orders[id].price == before.orders[id].price
                &&& after.orders[id].original_qty == before.orders[id].original_qty
            }
        }
}

/// A sweep leaves orders that follow from what they were.
proof fn lemma_sweep_follows(book: BookModel, taker: OrderState)
    requires
        model::valid(book),
        taker.filled_qty <= taker.original_qty,
        book.orders.contains_key(taker.order_id) && book.orders[taker.order_id].is_open
            ==> book.orders[taker.order_id].side == taker.side,
    ensures
        ({
            let out = model::sweep(book.side(taker.side.other()), book.orders, taker);
            forall|id: OrderId| #[trigger]
                book.orders.contains_key(id) ==> {
                    &&& out.orders.contains_key(id)
                    &&& validity::same_order(out.orders[id], book.orders[id])
                    &&& out.orders[id].filled_qty >= book.orders[id].filled_qty
                }
        }),
{
    let out = model::sweep(book.side(taker.side.other()), book.orders, taker);
    validity::lemma_sweep(book, taker);
    assert forall|id: OrderId| #[trigger] book.orders.contains_key(id) implies {
        &&& out.orders.contains_key(id)
        &&& validity::same_order(out.orders[id], book.orders[id])
        &&& out.orders[id].filled_qty >= book.orders[id].filled_qty
    } by {
        assert(out.orders.dom().contains(id));
        if id != taker.order_id {
            lemma_sweep_traded(book, taker, id);
        }
    }
}

/// Entering an order leaves orders that follow from what they were, and no other new ID.
pub proof fn lemma_entered_follows(book: BookModel, seq_no: SeqNo, order: OrderState)
    requires
        model::valid(book),
        validity::off_book(book, order.order_id),
        order.filled_qty <= order.original_qty,
        book.orders.contains_key(order.order_id) ==> book.orders[order.order_id] == (OrderState {
            is_open: false,
            ..order
        }),
    ensures
        orders_follow(book, model::entered(book, seq_no, order).book, None),
        forall|id: OrderId| #[trigger]
            model::entered(book, seq_no, order).book.orders.contains_key(id)
                ==> book.orders.contains_key(id) || id == order.order_id,
{
    let step = model::entered(book, seq_no, order);
    let out = model::sweep(book.side(order.side.other()), book.orders, order);
    validity::lemma_sweep(book, order);
    lemma_sweep_follows(book, order);
    assert forall|id: OrderId| #[trigger] step.book.orders.contains_key(
        id,
    ) implies book.orders.contains_key(id) || id == order.order_id by {
        if out.orders.contains_key(id) {
            assert(out.orders.dom().contains(id));
        }
    }
    assert forall|id: OrderId| #[trigger] book.orders.contains_key(id) implies {
        &&& step.book.orders.contains_key(id)
        &&& follows(book.orders[id], step.book.orders[id])
        &&& step.book.orders[id].price == book.orders[id].price
        &&& step.book.orders[id].original_qty == book.orders[id].original_qty
    } by {
        assert(out.orders.contains_key(id));
    }
}

/// Letting waiting orders enter leaves orders that follow from what they were, and no new ID.
pub proof fn lemma_cascaded_ids(step: Step, seq_no: SeqNo)
    requires
        model::valid(step.book),
    ensures
        orders_follow(step.book, model::cascaded(step, seq_no).book, None),
        forall|id: OrderId| #[trigger]
            model::cascaded(step, seq_no).book.orders.contains_key(id)
                ==> step.book.orders.contains_key(id),
    decreases step.book.waiting.len(),
{
    let i = model::next_ready(step.book, step.events, 0);
    if 0 <= i < step.book.waiting.len() {
        let next_id = step.book.waiting[i];
        let released = model::released(step.book, i);
        let next = model::activated(step.book, seq_no, i);
        let last = model::cascaded(step, seq_no);
        validity::lemma_cascade_step(step, seq_no);
        lemma_entered_follows(released, seq_no, model::underlying(step.book.orders[next_id]));
        lemma_cascaded_ids(Step { book: next.book, events: step.events + next.events }, seq_no);
        assert forall|id: OrderId| #[trigger] step.book.orders.contains_key(id) implies {
            &&& last.book.orders.contains_key(id)
            &&& follows(step.book.orders[id], last.book.orders[id])
            &&& last.book.orders[id].price == step.book.orders[id].price
            &&& last.book.orders[id].original_qty == step.book.orders[id].original_qty
        } by {
            assert(released.orders.contains_key(id));
            assert(next.book.orders.contains_key(id));
        }
        assert forall|id: OrderId| #[trigger] last.book.orders.contains_key(
            id,
        ) implies step.book.orders.contains_key(id) by {
            assert(next.book.orders.contains_key(id));
            assert(released.orders.contains_key(id) || id == next_id);
        }
    }
}

/// A replace request leaves orders that follow from what they were, and no new ID.
pub proof fn lemma_replace_follows(book: BookModel, seq_no: SeqNo, replace: ReplaceOrder)
    requires
        model::valid(book),
    ensures
        orders_follow(
            book,
            model::replace_order(book, seq_no, replace).book,
            Some(replace.order_id),
        ),
        forall|id: OrderId| #[trigger]
            model::replace_order(book, seq_no, replace).book.orders.contains_key(id)
                ==> book.orders.contains_key(id),
{
    let step = model::replace_order(book, seq_no, replace);
    if model::replace_flaw(book, replace) is None {
        assert(model::order_valid(book, replace.order_id));
    }
    if model::replace_flaw(book, replace) is None && !book.waiting.contains(replace.order_id) {
        validity::lemma_queued(book, replace.order_id);
        validity::lemma_amended(book, replace);
        let next = model::amended(book, replace);
        let order = next.orders[replace.order_id];
        let out = model::sweep(next.side(order.side.other()), next.orders, order);
        validity::lemma_sweep(next, order);
        lemma_sweep_follows(next, order);
        assert forall|id: OrderId| #[trigger] book.orders.contains_key(id) implies {
            &&& step.book.orders.contains_key(id)
            &&& follows(book.orders[id], step.book.orders[id])
            &&& Some(replace.order_id) != Some(id) ==> {
                &&& step.book.orders[id].price == book.orders[id].price
                &&& step.book.orders[id].original_qty == book.orders[id].original_qty
            }
        } by {
            assert(next.orders.contains_key(id));
            assert(out.orders.contains_key(id));
        }
        assert forall|id: OrderId| #[trigger] step.book.orders.contains_key(
            id,
        ) implies book.orders.contains_key(id) by {
            if out.orders.contains_key(id) {
                assert(out.orders.dom().contains(id));
                assert(next.orders.contains_key(id));
            }
        }
    }
}

/// An order on record stays on record under its ID, with its symbol, side, type and time in force;
/// its condition changes only when a stop order enters as its underlying type; its filled quantity
/// never falls and its quantity never rises. Its price and quantity change only by a replace
/// request for it. The only ID that a command can add is that of the new order it brings.
pub proof fn law_orders_keep_their_terms(book: BookModel, cmd: Command)
    requires
        model::valid(book),
    ensures
        orders_follow(
            book,
            model::processed(book, cmd).book,
            match cmd.payload {
                CommandPayload::Replace(replace) => Some(replace.order_id),
                _ => None,
            },
        ),
        forall|id: OrderId| #[trigger]
            model::processed(book, cmd).book.orders.contains_key(id)
                ==> book.orders.contains_key(id) || (cmd.payload matches CommandPayload::New(order)
                && order.order_id == id),
{
    let start = BookModel { last_seq_no: cmd.seq_no, ..book };
    let step = model::applied(book, cmd);
    let last = model::cascaded(step, cmd.seq_no);
    let amended = match cmd.payload {
        CommandPayload::Replace(replace) => Some(replace.order_id),
        _ => None::<OrderId>,
    };
    validity::lemma_renumbered(book, cmd.seq_no);
    validity::lemma_applied(book, cmd);
    match cmd.payload {
        CommandPayload::New(order) => {
            if model::new_order_flaw(start, order) is None && order.condition
                != OrderCondition::Stop {
                lemma_entered_follows(start, cmd.seq_no, OrderState::of(order));
            }
        },
        CommandPayload::Cancel(cancel) => {
            if model::cancel_flaw(start, cancel) is None {
                assert(model::order_valid(start, cancel.order_id));
            }
        },
        CommandPayload::Replace(replace) => {
            lemma_replace_follows(start, cmd.seq_no, replace);
        },
    }
    assert(orders_follow(start, step.book, amended));
    lemma_cascaded_ids(step, cmd.seq_no);
    assert forall|id: OrderId| #[trigger] book.orders.contains_key(id) implies {
        &&& last.book.orders.contains_key(id)
        &&& follows(book.orders[id], last.book.orders[id])
        &&& amended != Some(id) ==> {
            &&& last.book.orders[id].price == book.orders[id].price
            &&& last.book.orders[id].original_qty == book.orders[id].original_qty
        }
    } by {
        assert(start.orders.contains_key(id));
        assert(step.book.orders.contains_key(id));
    }
    assert forall|id: OrderId| #[trigger] last.book.orders.contains_key(
        id,
    ) implies book.orders.contains_key(id) || (cmd.payload matches CommandPayload::New(order)
        && order.order_id == id) by {
        assert(step.book.orders.contains_key(id));
    }
}

} // verus!
