//! Which trades complete an order: what the marks of a trade say.
use crate::accounting;
use crate::model;
use crate::model::{BookModel, Step};
use crate::types::{
    Command, CommandPayload, EngineEvent, NewOrder, OrderCondition, OrderId, OrderState,
    ReplaceOrder, SeqNo, TimeInForce,
};
use crate::validity;
use vstd::prelude::*;

verus! {

/// The trades up to and with event `k` fill the order entirely: with what was filled before the
/// events they add up to its quantity.
pub open spec fn complete_at(
    before: BookModel,
    events: Seq<EngineEvent>,
    k: int,
    id: OrderId,
    qty: u64,
) -> bool {
    accounting::filled_of(before, id) + accounting::traded(events.take(k + 1), id) == qty
}

/// If event `k` is a trade, its marks say whether it completes its maker and its taker.
pub open spec fn marked(
    before: BookModel,
    events: Seq<EngineEvent>,
    k: int,
    after: BookModel,
) -> bool {
    events[k] matches EngineEvent::Trade(fill) ==> {
        let maker = fill.maker_order_id;
        let taker = fill.taker_order_id;
        &&& after.orders.contains_key(maker)
        &&& after.orders.contains_key(taker)
        &&& fill.maker_filled_completely <==> complete_at(
            before,
            events,
            k,
            maker,
            after.orders[maker].original_qty,
        )
        &&& fill.taker_filled_completely <==> complete_at(
            before,
            events,
            k,
            taker,
            after.orders[taker].original_qty,
        )
    }
}

/// The marks of a sweep's trades.
proof fn lemma_sweep_marks(book: BookModel, taker: OrderState, k: int)
    requires
        model::valid(book),
        taker.filled_qty <= taker.original_qty,
        book.orders.contains_key(taker.order_id) && book.orders[taker.order_id].is_open
            ==> book.orders[taker.order_id].side == taker.side,
        ({
            let out = model::sweep(book.side(taker.side.other()), book.orders, taker);
            0 <= k < out.fills.len()
        }),
    ensures
        ({
            let out = model::sweep(book.side(taker.side.other()), book.orders, taker);
            let part = model::trades(out.fills).take(k + 1);
            let fill = out.fills[k];
            let maker = book.orders[fill.maker_order_id];
            &&& book.orders.contains_key(fill.maker_order_id)
            &&& fill.maker_order_id != taker.order_id
            &&& fill.taker_order_id == taker.order_id
            &&& fill.maker_filled_completely <==> maker.filled_qty + accounting::traded(
                part,
                fill.maker_order_id,
            ) == maker.original_qty
            &&& fill.taker_filled_completely <==> taker.filled_qty + accounting::traded(
                part,
                taker.order_id,
            ) == taker.original_qty
        }),
    decreases taker.open(),
{
    let side = taker.side.other();
    let levels = book.side(side);
    let out = model::sweep(levels, book.orders, taker);
    let next = model::after_fill(book, taker);
    let next_taker = model::next_taker(levels, book.orders, taker);
    let fill = model::next_fill(levels, book.orders, taker);
    let front = model::front(levels);
    validity::lemma_front(levels, book.orders, side);
    assert(model::order_valid(book, front));
    validity::lemma_fill_valid(book, taker);
    assert(next.side(side) == model::next_levels(levels, book.orders, taker));
    let rest = model::sweep(next.side(side), next.orders, next_taker);
    let head = seq![EngineEvent::Trade(fill)];
    let tail = model::trades(rest.fills);
    let part = model::trades(out.fills).take(k + 1);
    assert(model::trades(out.fills) =~= head + tail);
    if k == 0 {
        assert(part =~= head);
        accounting::lemma_traded_one(EngineEvent::Trade(fill), front);
        accounting::lemma_traded_one(EngineEvent::Trade(fill), taker.order_id);
    } else {
        let later = out.fills[k];
        assert(later == rest.fills[k - 1]);
        lemma_sweep_marks(next, next_taker, k - 1);
        let m = later.maker_order_id;
        assert(part =~= head + tail.take(k));
        accounting::lemma_traded_add(head, tail.take(k), m);
        accounting::lemma_traded_add(head, tail.take(k), taker.order_id);
        accounting::lemma_traded_one(EngineEvent::Trade(fill), m);
        accounting::lemma_traded_one(EngineEvent::Trade(fill), taker.order_id);
    }
}

/// The marks of the trades of an entry.
proof fn lemma_entered_marks(book: BookModel, seq_no: SeqNo, order: OrderState, k: int)
    requires
        model::valid(book),
        validity::off_book(book, order.order_id),
        order.filled_qty == 0,
        accounting::filled_of(book, order.order_id) == 0,
        0 <= k < model::entered(book, seq_no, order).events.len(),
    ensures
        marked(
            book,
            model::entered(book, seq_no, order).events,
            k,
            model::entered(book, seq_no, order).book,
        ),
{
    let step = model::entered(book, seq_no, order);
    let out = model::sweep(book.side(order.side.other()), book.orders, order);
    let trades = model::trades(out.fills);
    let refused = (order.tif == TimeInForce::FOK || order.condition == OrderCondition::AON)
        && model::short_of(book, order);
    if !refused {
        let rest = model::remainder(model::swept(book, order), seq_no, out.taker);
        assert(step.events == trades + rest.events);
        validity::lemma_sweep(book, order);
        if k < trades.len() {
            lemma_sweep_marks(book, order, k);
            assert(step.events.take(k + 1) =~= trades.take(k + 1));
            assert(step.events[k] == trades[k]);
            let m = out.fills[k].maker_order_id;
            assert(out.orders.dom().contains(m));
        } else {
            assert(step.events[k] == rest.events[k - trades.len()]);
        }
    }
}

/// Marks of events stay right when a further part is run after them.
proof fn lemma_marks_compose(
    before: BookModel,
    first: Step,
    then: Step,
    k: int,
)
    requires
        0 <= k < first.events.len() + then.events.len(),
        forall|j: int|
            0 <= j < first.events.len() ==> #[trigger] marked(before, first.events, j, first.book),
        forall|j: int|
            0 <= j < then.events.len() ==> #[trigger] marked(
                first.book,
                then.events,
                j,
                then.book,
            ),
        forall|id: OrderId|
            accounting::filled_of(first.book, id) == accounting::filled_of(before, id)
                + #[trigger] accounting::traded(first.events, id),
        forall|id: OrderId| #[trigger]
            first.book.orders.contains_key(id) ==> then.book.orders.contains_key(id)
                && then.book.orders[id].original_qty == first.book.orders[id].original_qty,
    ensures
        marked(before, first.events + then.events, k, then.book),
{
    let events = first.events + then.events;
    let n = first.events.len() as int;
    if k < n {
        assert(events[k] == first.events[k]);
        assert(events.take(k + 1) =~= first.events.take(k + 1));
        assert(marked(before, first.events, k, first.book));
    } else {
        let j = k - n;
        assert(events[k] == then.events[j]);
        assert(marked(first.book, then.events, j, then.book));
        assert(events.take(k + 1) =~= first.events + then.events.take(j + 1));
        if let EngineEvent::Trade(fill) = events[k] {
            let part = then.events.take(j + 1);
            accounting::lemma_traded_add(first.events, part, fill.maker_order_id);
            accounting::lemma_traded_add(first.events, part, fill.taker_order_id);
        }
    }
}

/// The marks of the trades of a cascade.
proof fn lemma_cascaded_marks(before: BookModel, step: Step, seq_no: SeqNo, k: int)
    requires
        model::valid(step.book),
        forall|j: int|
            0 <= j < step.events.len() ==> #[trigger] marked(before, step.events, j, step.book),
        forall|id: OrderId|
            accounting::filled_of(step.book, id) == accounting::filled_of(before, id)
                + #[trigger] accounting::traded(step.events, id),
        0 <= k < model::cascaded(step, seq_no).events.len(),
    ensures
        marked(
            before,
            model::cascaded(step, seq_no).events,
            k,
            model::cascaded(step, seq_no).book,
        ),
    decreases step.book.waiting.len(),
{
    let i = model::next_ready(step.book, step.events, 0);
    if 0 <= i < step.book.waiting.len() {
        let start = step.book;
        let id = start.waiting[i];
        let released = model::released(start, i);
        let entrant = model::underlying(start.orders[id]);
        let next = model::activated(start, seq_no, i);
        let then = Step { book: next.book, events: step.events + next.events };
        validity::lemma_cascade_step(step, seq_no);
        accounting::lemma_entered_follows(released, seq_no, entrant);
        assert forall|j: int| 0 <= j < next.events.len() implies #[trigger] marked(
            start,
            next.events,
            j,
            next.book,
        ) by {
            lemma_entered_marks(released, seq_no, entrant, j);
            assert(marked(released, next.events, j, next.book));
        }
        assert forall|x: OrderId| #[trigger]
            start.orders.contains_key(x) implies next.book.orders.contains_key(x)
            && next.book.orders[x].original_qty == start.orders[x].original_qty by {
            assert(released.orders.contains_key(x));
        }
        assert forall|j: int| 0 <= j < then.events.len() implies #[trigger] marked(
            before,
            then.events,
            j,
            then.book,
        ) by {
            lemma_marks_compose(before, step, next, j);
        }
        assert forall|x: OrderId|
            accounting::filled_of(then.book, x) == accounting::filled_of(before, x)
                + #[trigger] accounting::traded(then.events, x) by {
            accounting::lemma_entered_traded(released, seq_no, entrant, x);
            accounting::lemma_traded_add(step.events, next.events, x);
        }
        lemma_cascaded_marks(before, then, seq_no, k);
    } else {
        assert(marked(before, step.events, k, step.book));
    }
}

/// The marks of the trades of a new order.
proof fn lemma_new_marks(book: BookModel, seq_no: SeqNo, order: NewOrder, k: int)
    requires
        model::valid(book),
        0 <= k < model::new_order(book, seq_no, order).events.len(),
    ensures
        marked(
            book,
            model::new_order(book, seq_no, order).events,
            k,
            model::new_order(book, seq_no, order).book,
        ),
{
    let step = model::new_order(book, seq_no, order);
    if model::new_order_flaw(book, order) is None && order.condition != OrderCondition::Stop {
        let accepted = EngineEvent::OrderAccepted { seq_no, order_id: order.order_id };
        let state = OrderState::of(order);
        let entered = model::entered(book, seq_no, state);
        if k > 0 {
            lemma_entered_marks(book, seq_no, state, k - 1);
            assert(step.events[k] == entered.events[k - 1]);
            let part = entered.events.take(k);
            assert(step.events.take(k + 1) =~= seq![accepted] + part);
            if let EngineEvent::Trade(fill) = step.events[k] {
                accounting::lemma_traded_add(seq![accepted], part, fill.maker_order_id);
                accounting::lemma_traded_add(seq![accepted], part, fill.taker_order_id);
                accounting::lemma_traded_one(accepted, fill.maker_order_id);
                accounting::lemma_traded_one(accepted, fill.taker_order_id);
            }
        }
    }
}

/// The marks of the trades of a replace request.
proof fn lemma_replace_marks(book: BookModel, seq_no: SeqNo, replace: ReplaceOrder, k: int)
    requires
        model::valid(book),
        0 <= k < model::replace_order(book, seq_no, replace).events.len(),
    ensures
        marked(
            book,
            model::replace_order(book, seq_no, replace).events,
            k,
            model::replace_order(book, seq_no, replace).book,
        ),
{
    let step = model::replace_order(book, seq_no, replace);
    if model::replace_flaw(book, replace) is None && !book.waiting.contains(replace.order_id) {
        let id = replace.order_id;
        assert(model::order_valid(book, id));
        validity::lemma_queued(book, id);
        validity::lemma_amended(book, replace);
        let next = model::amended(book, replace);
        let order = next.orders[id];
        let out = model::sweep(next.side(order.side.other()), next.orders, order);
        let replaced = step.events[0];
        let trades = model::trades(out.fills);
        validity::lemma_sweep(next, order);
        if k > 0 {
            lemma_sweep_marks(next, order, k - 1);
            assert(step.events[k] == trades[k - 1]);
            let part = trades.take(k);
            assert(step.events.take(k + 1) =~= seq![replaced] + part);
            let m = out.fills[k - 1].maker_order_id;
            accounting::lemma_traded_add(seq![replaced], part, m);
            accounting::lemma_traded_add(seq![replaced], part, id);
            accounting::lemma_traded_one(replaced, m);
            accounting::lemma_traded_one(replaced, id);
            assert(out.orders.dom().contains(m));
            assert(next.orders.contains_key(m));
        }
    }
}

/// Every trade of a command says rightly whether it completes its maker and its taker: exactly if
/// what was filled of the order before the command and the command's trades up to and with this
/// one add up to the order's quantity.
pub proof fn law_marks_are_right(book: BookModel, cmd: Command, k: int)
    requires
        model::valid(book),
        0 <= k < model::processed(book, cmd).events.len(),
    ensures
        model::processed(book, cmd).events[k] matches EngineEvent::Trade(fill) ==> {
            let done = model::processed(book, cmd);
            let so_far = done.events.take(k + 1);
            let maker = fill.maker_order_id;
            let taker = fill.taker_order_id;
            &&& fill.maker_filled_completely <==> accounting::filled_of(book, maker)
                + accounting::traded(so_far, maker) == done.book.orders[maker].original_qty
            &&& fill.taker_filled_completely <==> accounting::filled_of(book, taker)
                + accounting::traded(so_far, taker) == done.book.orders[taker].original_qty
        },
{
    let start = BookModel { last_seq_no: cmd.seq_no, ..book };
    let step = model::applied(book, cmd);
    let last = model::cascaded(step, cmd.seq_no);
    let done = model::processed(book, cmd);
    validity::lemma_renumbered(book, cmd.seq_no);
    validity::lemma_applied(book, cmd);
    assert forall|j: int| 0 <= j < step.events.len() implies #[trigger] marked(
        start,
        step.events,
        j,
        step.book,
    ) by {
        match cmd.payload {
            CommandPayload::New(order) => {
                lemma_new_marks(start, cmd.seq_no, order, j);
            },
            CommandPayload::Cancel(_) => {},
            CommandPayload::Replace(replace) => {
                lemma_replace_marks(start, cmd.seq_no, replace, j);
            },
        }
    }
    assert forall|id: OrderId|
        accounting::filled_of(step.book, id) == accounting::filled_of(start, id)
            + #[trigger] accounting::traded(step.events, id) by {
        accounting::lemma_applied_traded(book, cmd, id);
    }
    if k < last.events.len() {
        lemma_cascaded_marks(start, step, cmd.seq_no, k);
        assert(done.events[k] == last.events[k]);
        assert(done.events.take(k + 1) =~= last.events.take(k + 1));
        assert(marked(start, last.events, k, last.book));
    }
}

/// Of the trades that an order takes in a sweep, all but the last leave something of it, and the
/// last completes it exactly if nothing is left of it then.
pub proof fn law_last_trade_completes(book: BookModel, taker: OrderState, k: int)
    requires
        model::valid(book),
        taker.filled_qty <= taker.original_qty,
        !book.orders.contains_key(taker.order_id),
        ({
            let out = model::sweep(book.side(taker.side.other()), book.orders, taker);
            0 <= k < out.fills.len()
        }),
    ensures
        ({
            let out = model::sweep(book.side(taker.side.other()), book.orders, taker);
            out.fills[k].taker_filled_completely <==> k == out.fills.len() - 1
                && out.taker.filled_qty == taker.original_qty
        }),
    decreases taker.open(),
{
    let side = taker.side.other();
    let levels = book.side(side);
    let out = model::sweep(levels, book.orders, taker);
    let next = model::after_fill(book, taker);
    let next_taker = model::next_taker(levels, book.orders, taker);
    validity::lemma_front(levels, book.orders, side);
    assert(model::order_valid(book, model::front(levels)));
    validity::lemma_fill_valid(book, taker);
    assert(next.side(side) == model::next_levels(levels, book.orders, taker));
    let rest = model::sweep(next.side(side), next.orders, next_taker);
    if k > 0 {
        assert(out.fills[k] == rest.fills[k - 1]);
        law_last_trade_completes(next, next_taker, k - 1);
    } else if rest.fills.len() > 0 {
        assert(model::can_trade(next.side(side), next.orders, next_taker));
    }
}

} // verus!
