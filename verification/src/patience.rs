//! Orders that wait: what they wait for, when they enter, and in which order.
use crate::accounting;
use crate::book;
use crate::fifo;
use crate::laws;
use crate::model;
use crate::model::{BookModel, Step};
use crate::outcome;
use crate::quantities;
use crate::standing;
use crate::types::{
    Command, CommandPayload, EngineEvent, OrderCondition, OrderId, OrderState, Price,
    ReplaceOrder, SeqNo, Side,
};
use crate::validity;
use crate::volume;
use vstd::prelude::*;

verus! {

/// A trade at this price activates a stop order: at or above the stop price for a buy order, at or
/// below it for a sell order.
pub open spec fn activates(order: OrderState, price: Price) -> bool {
    match order.side {
        Side::Buy => price >= order.stop_price,
        Side::Sell => price <= order.stop_price,
    }
}

/// One of the events is a trade that activates the stop order.
pub open spec fn activated_by(order: OrderState, events: Seq<EngineEvent>) -> bool {
    exists|k: int|
        0 <= k < events.len() && (#[trigger] events[k] matches EngineEvent::Trade(fill)
            && activates(order, fill.price))
}

/// A stop order is triggered by the events that activate it.
proof fn lemma_activated(order: OrderState, events: Seq<EngineEvent>)
    ensures
        activated_by(order, events) <==> model::triggered(order, events),
{
    if activated_by(order, events) {
        let k = choose|k: int|
            0 <= k < events.len() && (#[trigger] events[k] matches EngineEvent::Trade(fill)
                && activates(order, fill.price));
        assert(model::trips(order, events[k]));
    }
    if model::triggered(order, events) {
        let k = choose|k: int| 0 <= k < events.len() && model::trips(order, #[trigger] events[k]);
        assert(events[k] matches EngineEvent::Trade(fill) && activates(order, fill.price));
    }
}

/// Once a command is done, no order waits that need not: none of the command's trades activates a
/// stop order that waits, and of what an all-or-none order that waits asks for, some rests within
/// its limit, but not all.
pub proof fn law_no_order_waits_in_vain(book: BookModel, cmd: Command)
    requires
        model::valid(book),
    ensures
        ({
            let done = model::processed(book, cmd);
            &&& standing::still(done.book)
            &&& forall|i: int|
                0 <= i < done.book.waiting.len() ==> {
                    let order = done.book.orders[#[trigger] done.book.waiting[i]];
                    order.condition == OrderCondition::Stop ==> !activated_by(order, done.events)
                }
        }),
{
    let done = model::processed(book, cmd);
    laws::law_at_rest(book.symbol, book, cmd);
    laws::law_ready_orders_enter(book, cmd);
    standing::lemma_still(done.book);
    assert forall|i: int| 0 <= i < done.book.waiting.len() implies ({
        let order = done.book.orders[#[trigger] done.book.waiting[i]];
        order.condition == OrderCondition::Stop ==> !activated_by(order, done.events)
    }) by {
        let order = done.book.orders[done.book.waiting[i]];
        assert(!model::ready(done.book, order, done.events));
        lemma_activated(order, done.events);
    }
}

/// A stop order stops waiting only if it is canceled or one of the command's trades activates it.
pub proof fn law_stop_orders_wait_for_their_trade(book: BookModel, cmd: Command, id: OrderId)
    requires
        model::valid(book),
        book.waiting.contains(id),
        book.orders[id].condition == OrderCondition::Stop,
        !model::processed(book, cmd).book.waiting.contains(id),
        !(cmd.payload matches CommandPayload::Cancel(cancel) && cancel.order_id == id),
    ensures
        activated_by(book.orders[id], model::processed(book, cmd).events),
{
    laws::law_stops_wait(book, cmd, id);
    lemma_activated(book.orders[id], model::processed(book, cmd).events);
}

/// Only a new order starts to wait, and it does so behind all others. Orders that keep waiting keep
/// their order.
pub proof fn law_waiting_orders_keep_their_order(
    book: BookModel,
    cmd: Command,
    a: OrderId,
    b: OrderId,
)
    requires
        model::valid(book),
        model::processed(book, cmd).book.waiting.contains(a),
        model::processed(book, cmd).book.waiting.contains(b),
    ensures
        book.waiting.contains(a) || (cmd.payload matches CommandPayload::New(order)
            && order.order_id == a),
        fifo::ahead(book.waiting, a, b) ==> fifo::ahead(
            model::processed(book, cmd).book.waiting,
            a,
            b,
        ),
        book.waiting.contains(a) && !book.waiting.contains(b) ==> fifo::ahead(
            model::processed(book, cmd).book.waiting,
            a,
            b,
        ),
{
    let start = BookModel { last_seq_no: cmd.seq_no, ..book };
    let step = model::applied(book, cmd);
    let waiting = start.waiting;
    let after = step.book.waiting;
    validity::lemma_renumbered(book, cmd.seq_no);
    validity::lemma_applied(book, cmd);
    volume::lemma_cascade_waiting(step, cmd.seq_no, a);
    volume::lemma_cascade_waiting(step, cmd.seq_no, b);
    if fifo::ahead(waiting, a, b) {
        fifo::lemma_members(waiting, a, b);
    }
    assert(after == waiting || (cmd.payload matches CommandPayload::New(order) && after
        == waiting.push(order.order_id)) || (cmd.payload matches CommandPayload::Cancel(cancel)
        && waiting.contains(cancel.order_id) && after == waiting.remove_value(cancel.order_id))) by {
        match cmd.payload {
            CommandPayload::New(_) => {},
            CommandPayload::Cancel(cancel) => {
                if start.orders.contains_key(cancel.order_id) {
                    assert(model::order_valid(start, cancel.order_id));
                }
            },
            CommandPayload::Replace(replace) => {
                lemma_replace_waiting(start, cmd.seq_no, replace);
            },
        }
    }
    match cmd.payload {
        CommandPayload::New(order) => {
            if after == waiting.push(order.order_id) && after != waiting {
                outcome::lemma_push(waiting, order.order_id, a);
                outcome::lemma_push(waiting, order.order_id, b);
                if fifo::ahead(waiting, a, b) {
                    let (i, j) = choose|i: int, j: int|
                        0 <= i < j < waiting.len() && #[trigger] waiting[i] == a
                            && #[trigger] waiting[j] == b;
                    assert(after[i] == a && after[j] == b);
                }
                if waiting.contains(a) && !waiting.contains(b) {
                    let i = choose|i: int| 0 <= i < waiting.len() && waiting[i] == a;
                    assert(after[i] == a && after[waiting.len() as int] == b);
                }
            }
        },
        CommandPayload::Cancel(cancel) => {
            if after != waiting {
                quantities::lemma_remove_value(waiting, cancel.order_id);
                if fifo::ahead(waiting, a, b) {
                    fifo::lemma_ahead_remove(waiting, cancel.order_id, a, b);
                }
            }
        },
        CommandPayload::Replace(_) => {},
    }
    if fifo::ahead(after, a, b) {
        lemma_cascade_order(step, cmd.seq_no, a, b);
    }
}

/// A replace request leaves the list of waiting orders as it is.
proof fn lemma_replace_waiting(book: BookModel, seq_no: SeqNo, replace: ReplaceOrder)
    requires
        model::valid(book),
    ensures
        model::replace_order(book, seq_no, replace).book.waiting == book.waiting,
{
    if model::replace_flaw(book, replace) is None && !book.waiting.contains(replace.order_id) {
        assert(model::order_valid(book, replace.order_id));
        validity::lemma_queued(book, replace.order_id);
        validity::lemma_amended(book, replace);
        let next = model::amended(book, replace);
        validity::lemma_sweep(next, next.orders[replace.order_id]);
    }
}

/// A cascade keeps the order of the orders that keep waiting.
proof fn lemma_cascade_order(step: Step, seq_no: SeqNo, a: OrderId, b: OrderId)
    requires
        model::valid(step.book),
        fifo::ahead(step.book.waiting, a, b),
        model::cascaded(step, seq_no).book.waiting.contains(a),
        model::cascaded(step, seq_no).book.waiting.contains(b),
    ensures
        fifo::ahead(model::cascaded(step, seq_no).book.waiting, a, b),
    decreases step.book.waiting.len(),
{
    let i = model::next_ready(step.book, step.events, 0);
    if 0 <= i < step.book.waiting.len() {
        let start = step.book;
        let next = model::activated(start, seq_no, i);
        let then = Step { book: next.book, events: step.events + next.events };
        validity::lemma_cascade_step(step, seq_no);
        volume::lemma_cascade_waiting(then, seq_no, a);
        volume::lemma_cascade_waiting(then, seq_no, b);
        outcome::lemma_removed(start.waiting, i, a);
        outcome::lemma_removed(start.waiting, i, b);
        lemma_ahead_without(start.waiting, i, a, b);
        lemma_cascade_order(then, seq_no, a, b);
    }
}

/// Two IDs keep their order when another one is taken out.
proof fn lemma_ahead_without(ids: Seq<OrderId>, at: int, a: OrderId, b: OrderId)
    requires
        0 <= at < ids.len(),
        ids.no_duplicates(),
        fifo::ahead(ids, a, b),
        a != ids[at],
        b != ids[at],
    ensures
        fifo::ahead(ids.remove(at), a, b),
{
    let rest = ids.remove(at);
    let (i, j) = choose|i: int, j: int|
        0 <= i < j < ids.len() && #[trigger] ids[i] == a && #[trigger] ids[j] == b;
    let i2 = if i < at { i } else { i - 1 };
    let j2 = if j < at { j } else { j - 1 };
    assert(rest[i2] == a && rest[j2] == b);
}

/// Two waiting stop orders that the same trades activate.
pub open spec fn twins(book: BookModel, a: OrderId, b: OrderId) -> bool {
    &&& fifo::ahead(book.waiting, a, b)
    &&& book.orders[a].condition == OrderCondition::Stop
    &&& book.orders[b].condition == OrderCondition::Stop
    &&& book.orders[a].side == book.orders[b].side
    &&& book.orders[a].stop_price == book.orders[b].stop_price
    &&& book.orders[a].price == book.orders[b].price
}

/// Of two stop orders with the same terms, a cascade lets the older one in first.
proof fn lemma_cascade_twins(step: Step, seq_no: SeqNo, a: OrderId, b: OrderId)
    requires
        model::valid(step.book),
        twins(step.book, a, b),
    ensures
        ({
            let last = model::cascaded(step, seq_no);
            let side = step.book.orders[a].side;
            let key = book::rank(side, step.book.orders[a].price);
            ||| fifo::ahead(last.book.waiting, a, b)
            ||| !last.book.waiting.contains(a) && (last.book.waiting.contains(b) || fifo::in_order(
                last.book,
                side,
                key,
                a,
                b,
            ))
        }),
    decreases step.book.waiting.len(),
{
    let i = model::next_ready(step.book, step.events, 0);
    if 0 <= i < step.book.waiting.len() {
        let start = step.book;
        let id = start.waiting[i];
        let released = model::released(start, i);
        let entrant = model::underlying(start.orders[id]);
        let next = model::activated(start, seq_no, i);
        let then = Step { book: next.book, events: step.events + next.events };
        validity::lemma_cascade_step(step, seq_no);
        validity::lemma_next_ready(start, step.events, 0);
        validity::lemma_waiting(start);
        fifo::lemma_members(start.waiting, a, b);
        outcome::lemma_removed(start.waiting, i, a);
        outcome::lemma_removed(start.waiting, i, b);
        let (p, q) = choose|p: int, q: int|
            0 <= p < q < start.waiting.len() && #[trigger] start.waiting[p] == a
                && #[trigger] start.waiting[q] == b;
        if id == b {
            assert(model::ready(start, start.orders[b], step.events));
            assert(model::triggered(start.orders[b], step.events));
            let k = choose|k: int|
                0 <= k < step.events.len() && model::trips(
                    start.orders[b],
                    #[trigger] step.events[k],
                );
            assert(model::trips(start.orders[a], step.events[k]));
            assert(model::ready(start, start.orders[start.waiting[p]], step.events));
            assert(false);
        } else if id == a {
            lemma_cascade_twin(then, seq_no, start.orders[a].side, start.orders[a].price, a, b);
            assert(released.orders.contains_key(b));
            outcome::lemma_entered_other(released, seq_no, entrant, b);
        } else {
            assert(released.orders.contains_key(a) && released.orders.contains_key(b));
            outcome::lemma_entered_other(released, seq_no, entrant, a);
            outcome::lemma_entered_other(released, seq_no, entrant, b);
            assert(model::order_valid(start, a));
            assert(model::order_valid(start, b));
            lemma_ahead_without(start.waiting, i, a, b);
            assert(then.book.orders[a] == start.orders[a]);
            assert(then.book.orders[b] == start.orders[b]);
            lemma_cascade_twins(then, seq_no, a, b);
        }
    }
}

/// An order that enters while another one rests or is gone comes behind it.
proof fn lemma_cascade_twin(
    step: Step,
    seq_no: SeqNo,
    side: Side,
    price: Price,
    a: OrderId,
    b: OrderId,
)
    requires
        model::valid(step.book),
        !step.book.waiting.contains(a),
        step.book.waiting.contains(b),
    ensures
        ({
            let last = model::cascaded(step, seq_no);
            let key = book::rank(side, price);
            &&& !last.book.waiting.contains(a)
            &&& last.book.waiting.contains(b) || fifo::in_order(last.book, side, key, a, b)
        }),
    decreases step.book.waiting.len(),
{
    let i = model::next_ready(step.book, step.events, 0);
    volume::lemma_cascade_waiting(step, seq_no, a);
    if 0 <= i < step.book.waiting.len() {
        let start = step.book;
        let id = start.waiting[i];
        let released = model::released(start, i);
        let entrant = model::underlying(start.orders[id]);
        let next = model::activated(start, seq_no, i);
        let then = Step { book: next.book, events: step.events + next.events };
        let key = book::rank(side, price);
        validity::lemma_cascade_step(step, seq_no);
        validity::lemma_waiting(start);
        outcome::lemma_removed(start.waiting, i, a);
        outcome::lemma_removed(start.waiting, i, b);
        if id == b {
            let queue = model::queue_at(released.side(side), key);
            let after = model::queue_at(next.book.side(side), key);
            let n = fifo::lemma_entered_queue(released, seq_no, entrant, side, key);
            let rest = queue.skip(n);
            fifo::lemma_queue_distinct(start, side, key);
            assert(queue == model::queue_at(start.side(side), key));
            assert(fifo::in_order(next.book, side, key, a, b)) by {
                if after == rest.push(b) {
                    if after.contains(a) {
                        let j = choose|j: int| 0 <= j < after.len() && after[j] == a;
                        assert(j < rest.len());
                        assert(after[rest.len() as int] == b);
                    }
                } else {
                    if after.contains(b) {
                        let j = choose|j: int| 0 <= j < rest.len() && rest[j] == b;
                        assert(queue[j + n] == b);
                        assert(queue.contains(b));
                    }
                }
            }
            fifo::lemma_cascaded_in_order(then, seq_no, side, key, a, b);
        } else {
            lemma_cascade_twin(then, seq_no, side, price, a, b);
        }
    }
}

/// Of two waiting stop orders of the same side, stop price and limit, the one that has waited
/// longer enters first: if the other one enters, so does it, unless it is canceled; and if both
/// then rest, it stands before the other.
pub proof fn law_older_stop_orders_enter_first(
    book: BookModel,
    cmd: Command,
    a: OrderId,
    b: OrderId,
)
    requires
        model::valid(book),
        twins(book, a, b),
        !(cmd.payload matches CommandPayload::Cancel(cancel) && (cancel.order_id == a
            || cancel.order_id == b)),
    ensures
        ({
            let done = model::processed(book, cmd).book;
            &&& done.waiting.contains(a) ==> done.waiting.contains(b)
            &&& standing::rests(done, a) && standing::rests(done, b) ==> fifo::ahead(
                fifo::queue_of(done, book.orders[a].side, book.orders[a].price),
                a,
                b,
            )
        }),
{
    let start = BookModel { last_seq_no: cmd.seq_no, ..book };
    let step = model::applied(book, cmd);
    let done = model::processed(book, cmd).book;
    validity::lemma_renumbered(book, cmd.seq_no);
    validity::lemma_applied(book, cmd);
    validity::lemma_processed(book, cmd);
    validity::lemma_waiting(start);
    fifo::lemma_members(start.waiting, a, b);
    assert(model::order_valid(start, a));
    assert(model::order_valid(start, b));
    lemma_applied_waiting(book, cmd, a);
    lemma_applied_waiting(book, cmd, b);
    assert(fifo::ahead(step.book.waiting, a, b)) by {
        let waiting = start.waiting;
        let after = step.book.waiting;
        let (i, j) = choose|i: int, j: int|
            0 <= i < j < waiting.len() && #[trigger] waiting[i] == a && #[trigger] waiting[j] == b;
        match cmd.payload {
            CommandPayload::New(order) => {
                if after != waiting {
                    assert(after == waiting.push(order.order_id));
                }
                assert(after[i] == a && after[j] == b);
            },
            CommandPayload::Cancel(cancel) => {
                if after != waiting {
                    fifo::lemma_ahead_remove(waiting, cancel.order_id, a, b);
                } else {
                    assert(after[i] == a && after[j] == b);
                }
            },
            CommandPayload::Replace(replace) => {
                lemma_replace_waiting(start, cmd.seq_no, replace);
                assert(after[i] == a && after[j] == b);
            },
        }
    }
    lemma_cascade_twins(step, cmd.seq_no, a, b);
    if fifo::ahead(done.waiting, a, b) {
        fifo::lemma_members(done.waiting, a, b);
    }
    accounting::law_orders_keep_their_terms(book, cmd);
    assert(book.orders.contains_key(a) && book.orders.contains_key(b));
    if standing::rests(done, a) && standing::rests(done, b) {
        outcome::law_orders_after(book, cmd, a);
        outcome::law_orders_after(book, cmd, b);
        fifo::lemma_rests_queued(done, a);
        fifo::lemma_rests_queued(done, b);
    }
}

/// A command's own request leaves a stop order that waits as it is, unless it cancels it.
proof fn lemma_applied_waiting(book: BookModel, cmd: Command, id: OrderId)
    requires
        model::valid(book),
        book.waiting.contains(id),
        book.orders[id].condition == OrderCondition::Stop,
        !(cmd.payload matches CommandPayload::Cancel(cancel) && cancel.order_id == id),
    ensures
        model::applied(book, cmd).book.waiting.contains(id),
        model::applied(book, cmd).book.orders[id] == book.orders[id],
{
    let start = BookModel { last_seq_no: cmd.seq_no, ..book };
    let step = model::applied(book, cmd);
    validity::lemma_renumbered(book, cmd.seq_no);
    validity::lemma_waiting(start);
    assert(model::waits(start, id));
    assert(model::order_valid(start, id));
    accounting::lemma_applied_closed(book, cmd);
    assert(book.orders.contains_key(id));
    match cmd.payload {
        CommandPayload::New(order) => {
            outcome::lemma_new_state(start, cmd.seq_no, order, id);
        },
        CommandPayload::Cancel(cancel) => {
            outcome::lemma_cancel_state(start, cmd.seq_no, cancel, id);
        },
        CommandPayload::Replace(replace) => {
            outcome::lemma_replace_state(start, cmd.seq_no, replace, id);
        },
    }
}

/// A waiting order may enter: a stop order that one of the events activates, an all-or-none order
/// for which all it asks for rests within its limit, or nothing.
pub open spec fn may_enter(book: BookModel, order: OrderState, events: Seq<EngineEvent>) -> bool {
    let within = standing::sum_left(
        book.orders,
        standing::partners(book, order.side, order.order_type, order.price),
    );
    match order.condition {
        OrderCondition::Stop => activated_by(order, events),
        OrderCondition::AON => within == 0 || within >= standing::left(order),
        OrderCondition::Unconditional => false,
    }
}

/// Waiting orders enter one at a time, always the one that has waited longest of those that may,
/// until none may.
pub proof fn law_longest_waiting_enters(step: Step, seq_no: SeqNo, i: int)
    requires
        model::valid(step.book),
        0 <= i <= step.book.waiting.len(),
        forall|j: int|
            0 <= j < i ==> !may_enter(
                step.book,
                step.book.orders[#[trigger] step.book.waiting[j]],
                step.events,
            ),
        i < step.book.waiting.len() ==> may_enter(
            step.book,
            step.book.orders[step.book.waiting[i]],
            step.events,
        ),
    ensures
        i == step.book.waiting.len() ==> model::cascaded(step, seq_no) == step,
        i < step.book.waiting.len() ==> {
            let next = model::activated(step.book, seq_no, i);
            model::cascaded(step, seq_no) == model::cascaded(
                Step { book: next.book, events: step.events + next.events },
                seq_no,
            )
        },
{
    let book = step.book;
    assert forall|j: int| 0 <= j < book.waiting.len() implies may_enter(
        book,
        book.orders[#[trigger] book.waiting[j]],
        step.events,
    ) == model::ready(book, book.orders[book.waiting[j]], step.events) by {
        let order = book.orders[book.waiting[j]];
        assert(model::waits(book, book.waiting[j]));
        assert(model::order_valid(book, book.waiting[j]));
        standing::lemma_partners(book, order);
        lemma_activated(order, step.events);
    }
    validity::lemma_next_ready(book, step.events, 0);
    validity::lemma_cascade_step(step, seq_no);
    let n = model::next_ready(book, step.events, 0);
    if n < i {
        assert(!may_enter(book, book.orders[book.waiting[n]], step.events));
    } else if i < n {
        assert(!model::ready(book, book.orders[book.waiting[i]], step.events));
    }
}

} // verus!
