//! How much an order trades, and what becomes of what is left of it.
use crate::accounting;
use crate::crossing;
use crate::laws;
use crate::liquidity;
use crate::model;
use crate::model::{BookModel, Step};
use crate::outcome;
use crate::standing;
use crate::types::{
    Command, CommandPayload, EngineEvent, NewOrder, OrderCondition, OrderId, OrderState, OrderType,
    RejectReason, ReplaceOrder, SeqNo, Side, TimeInForce,
};
use crate::validity;
use vstd::prelude::*;

verus! {

/// The event is a trade that the order takes.
pub open spec fn takes(event: EngineEvent, id: OrderId) -> bool {
    event matches EngineEvent::Trade(fill) && fill.taker_order_id == id
}

/// The event cancels or rejects the order.
pub open spec fn dismisses(event: EngineEvent, id: OrderId) -> bool {
    match event {
        EngineEvent::OrderCanceled { order_id, .. } => order_id == id,
        EngineEvent::OrderRejected { order_id, .. } => order_id == id,
        _ => false,
    }
}

/// Quantity that an order took in the trades among the events.
pub open spec fn took(events: Seq<EngineEvent>, id: OrderId) -> nat
    decreases events.len(),
{
    if events.len() == 0 {
        0
    } else {
        took(events.drop_last(), id) + (match events.last() {
            EngineEvent::Trade(fill) => if fill.taker_order_id == id {
                fill.qty as nat
            } else {
                0
            },
            _ => 0,
        })
    }
}

/// What the trades of two runs of events take adds up.
proof fn lemma_took_add(a: Seq<EngineEvent>, b: Seq<EngineEvent>, id: OrderId)
    ensures
        took(a + b, id) == took(a, id) + took(b, id),
    decreases b.len(),
{
    if b.len() == 0 {
        assert(a + b =~= a);
    } else {
        lemma_took_add(a, b.drop_last(), id);
        assert((a + b).drop_last() =~= a + b.drop_last());
        assert((a + b).last() == b.last());
    }
}

/// Events without a trade of the order take nothing.
proof fn lemma_took_none(events: Seq<EngineEvent>, id: OrderId)
    requires
        forall|k: int| 0 <= k < events.len() ==> !takes(#[trigger] events[k], id),
    ensures
        took(events, id) == 0,
    decreases events.len(),
{
    if events.len() > 0 {
        let rest = events.drop_last();
        assert forall|k: int| 0 <= k < rest.len() implies !takes(#[trigger] rest[k], id) by {
            assert(rest[k] == events[k]);
        }
        lemma_took_none(rest, id);
        assert(!takes(events[events.len() - 1], id));
    }
}

/// Every trade of a sweep is taken by the taker, and together they are what it was filled by.
proof fn lemma_sweep_took(book: BookModel, taker: OrderState)
    requires
        model::valid(book),
        taker.filled_qty <= taker.original_qty,
    ensures
        ({
            let out = model::sweep(book.side(taker.side.other()), book.orders, taker);
            let events = model::trades(out.fills);
            &&& took(events, taker.order_id) == out.taker.filled_qty - taker.filled_qty
            &&& forall|k: int| 0 <= k < events.len() ==> takes(#[trigger] events[k], taker.order_id)
        }),
    decreases taker.open(),
{
    let side = taker.side.other();
    let levels = book.side(side);
    let out = model::sweep(levels, book.orders, taker);
    let events = model::trades(out.fills);
    if model::can_trade(levels, book.orders, taker) {
        let next = model::after_fill(book, taker);
        let next_taker = model::next_taker(levels, book.orders, taker);
        let fill = model::next_fill(levels, book.orders, taker);
        validity::lemma_front(levels, book.orders, side);
        assert(model::order_valid(book, model::front(levels)));
        validity::lemma_fill_valid(book, taker);
        lemma_sweep_took(next, next_taker);
        assert(next.side(side) == model::next_levels(levels, book.orders, taker));
        let rest = model::sweep(next.side(side), next.orders, next_taker);
        let head = seq![EngineEvent::Trade(fill)];
        let tail = model::trades(rest.fills);
        assert(events =~= head + tail);
        lemma_took_add(head, tail, taker.order_id);
        assert(head.drop_last() =~= Seq::empty());
        assert(took(head.drop_last(), taker.order_id) == 0);
        assert(took(head, taker.order_id) == fill.qty);
        assert forall|k: int| 0 <= k < events.len() implies takes(
            #[trigger] events[k],
            taker.order_id,
        ) by {
            if k > 0 {
                assert(events[k] == tail[k - 1]);
            }
        }
    }
}

/// Entering an order takes and dismisses no other order.
proof fn lemma_entered_silent(book: BookModel, seq_no: SeqNo, order: OrderState, id: OrderId)
    requires
        model::valid(book),
        order.filled_qty <= order.original_qty,
        id != order.order_id,
    ensures
        ({
            let events = model::entered(book, seq_no, order).events;
            forall|k: int|
                0 <= k < events.len() ==> !takes(#[trigger] events[k], id) && !dismisses(
                    events[k],
                    id,
                )
        }),
{
    let out = model::sweep(book.side(order.side.other()), book.orders, order);
    let events = model::entered(book, seq_no, order).events;
    let trades = model::trades(out.fills);
    validity::lemma_sweep(book, order);
    lemma_sweep_took(book, order);
    let matched = !((order.tif == TimeInForce::FOK || order.condition == OrderCondition::AON)
        && model::short_of(book, order));
    if matched {
        let rest = model::remainder(model::swept(book, order), seq_no, out.taker);
        assert forall|k: int| 0 <= k < events.len() implies !takes(#[trigger] events[k], id)
            && !dismisses(events[k], id) by {
            if k < trades.len() {
                assert(events[k] == trades[k]);
                assert(takes(trades[k], order.order_id));
            } else {
                assert(events[k] == rest.events[k - trades.len()]);
            }
        }
    }
}

/// A cascade takes and dismisses no order that does not wait.
proof fn lemma_cascaded_silent(step: Step, seq_no: SeqNo, id: OrderId)
    requires
        model::valid(step.book),
        !step.book.waiting.contains(id),
    ensures
        ({
            let last = model::cascaded(step, seq_no);
            &&& took(last.events, id) == took(step.events, id)
            &&& last.events.len() >= step.events.len()
            &&& forall|k: int|
                step.events.len() <= k < last.events.len() ==> !takes(#[trigger] last.events[k], id)
                    && !dismisses(last.events[k], id)
        }),
    decreases step.book.waiting.len(),
{
    let i = model::next_ready(step.book, step.events, 0);
    if 0 <= i < step.book.waiting.len() {
        let start = step.book;
        let entrant = model::underlying(start.orders[start.waiting[i]]);
        let released = model::released(start, i);
        let next = model::activated(start, seq_no, i);
        let then_step = Step { book: next.book, events: step.events + next.events };
        validity::lemma_cascade_step(step, seq_no);
        lemma_entered_silent(released, seq_no, entrant, id);
        lemma_took_none(next.events, id);
        lemma_took_add(step.events, next.events, id);
        assert(!next.book.waiting.contains(id)) by {
            if next.book.waiting.contains(id) {
                let j = choose|j: int|
                    0 <= j < next.book.waiting.len() && next.book.waiting[j] == id;
                assert(start.waiting[if j < i { j } else { j + 1 }] == id);
            }
        }
        lemma_cascaded_silent(then_step, seq_no, id);
        laws::lemma_cascade_extends(then_step, seq_no);
        let last = model::cascaded(then_step, seq_no);
        assert forall|k: int| step.events.len() <= k < last.events.len() implies !takes(
            #[trigger] last.events[k],
            id,
        ) && !dismisses(last.events[k], id) by {
            if k < then_step.events.len() {
                assert(last.events[k] == then_step.events[k]);
                assert(then_step.events[k] == next.events[k - step.events.len()]);
            }
        }
    }
}

/// A cascade from a step whose own order does not wait leaves the step's verdict on it alone.
proof fn lemma_closing(step: Step, cmd: Command, id: OrderId)
    requires
        model::valid(step.book),
        !step.book.waiting.contains(id),
    ensures
        ({
            let last = model::cascaded(step, cmd.seq_no);
            let done = last.events.push(EngineEvent::BboChanged(model::bbo(last.book)));
            &&& took(done, id) == took(step.events, id)
            &&& done.len() > step.events.len()
            &&& forall|k: int| 0 <= k < step.events.len() ==> #[trigger] done[k] == step.events[k]
            &&& forall|k: int|
                step.events.len() <= k < done.len() ==> !takes(#[trigger] done[k], id)
                    && !dismisses(done[k], id)
        }),
{
    let last = model::cascaded(step, cmd.seq_no);
    let bbo = EngineEvent::BboChanged(model::bbo(last.book));
    let done = last.events.push(bbo);
    lemma_cascaded_silent(step, cmd.seq_no, id);
    laws::lemma_cascade_extends(step, cmd.seq_no);
    assert(done.drop_last() =~= last.events);
    assert forall|k: int| 0 <= k < step.events.len() implies #[trigger] done[k]
        == step.events[k] by {
        assert(last.events[k] == step.events[k]);
    }
    assert forall|k: int| step.events.len() <= k < done.len() implies !takes(
        #[trigger] done[k],
        id,
    ) && !dismisses(done[k], id) by {
        if k < last.events.len() {
            assert(done[k] == last.events[k]);
        }
    }
}

/// Quantity that rests within the limit of an order of these terms.
pub open spec fn possible(book: BookModel, order: NewOrder) -> int {
    standing::sum_left(
        book.orders,
        standing::partners(book, order.side, order.order_type, order.price),
    )
}

/// A new order that is no stop order takes what rests within its limit, up to its quantity: a
/// market order all that rests on the other side. A fill-or-kill or all-or-none order takes its
/// whole quantity or nothing.
pub proof fn law_new_orders_take(book: BookModel, cmd: Command, order: NewOrder)
    requires
        model::valid(book),
        standing::still(book),
        cmd.payload == CommandPayload::New(order),
        outcome::acceptable(book, order),
        order.condition != OrderCondition::Stop,
    ensures
        ({
            let done = model::processed(book, cmd);
            let within = possible(book, order);
            took(done.events, order.order_id) == if within >= order.qty {
                order.qty as int
            } else if order.tif == TimeInForce::FOK || order.condition == OrderCondition::AON {
                0
            } else {
                within
            }
        }),
{
    lemma_new_order(book, cmd, order);
}

/// What becomes of what a new order that is no stop order does not take.
///
/// A fill-or-kill order that cannot be filled entirely is rejected and not on record, and so is
/// such an all-or-none order if it is immediate-or-cancel or a market order. Any other all-or-none
/// order waits if something rests within its limit, and rests if nothing does. A market order that
/// takes nothing is rejected; what is left of any other market or immediate-or-cancel order is
/// canceled. Everything else is neither canceled nor rejected.
pub proof fn law_new_orders_end(book: BookModel, cmd: Command, order: NewOrder)
    requires
        model::valid(book),
        standing::still(book),
        cmd.payload == CommandPayload::New(order),
        outcome::acceptable(book, order),
        order.condition != OrderCondition::Stop,
    ensures
        ({
            let done = model::processed(book, cmd);
            let within = possible(book, order);
            let id = order.order_id;
            let seq_no = cmd.seq_no;
            let short = within < order.qty;
            let killed = short && (order.tif == TimeInForce::FOK || (order.condition
                == OrderCondition::AON && (order.tif == TimeInForce::IOC || order.order_type
                == OrderType::Market)));
            let brief = order.order_type == OrderType::Market || order.tif == TimeInForce::IOC;
            let verdict = if killed {
                Some(
                    EngineEvent::OrderRejected {
                        seq_no,
                        order_id: id,
                        reason: if order.tif == TimeInForce::FOK {
                            RejectReason::FOKNotFillable
                        } else {
                            RejectReason::AONNotFillable
                        },
                    },
                )
            } else if short && order.order_type == OrderType::Market && within == 0 {
                Some(
                    EngineEvent::OrderRejected {
                        seq_no,
                        order_id: id,
                        reason: RejectReason::NoLiquidity,
                    },
                )
            } else if short && brief {
                Some(
                    EngineEvent::OrderCanceled {
                        seq_no,
                        order_id: id,
                        remaining_qty: (order.qty - within) as u64,
                    },
                )
            } else {
                None
            };
            &&& done.book.orders.contains_key(id) <==> !killed
            &&& done.book.waiting.contains(id) <==> order.condition == OrderCondition::AON && short
                && !killed && within > 0
            &&& forall|k: int|
                0 <= k < done.events.len() && dismisses(#[trigger] done.events[k], id)
                    ==> verdict == Some(done.events[k])
            &&& verdict is Some ==> exists|k: int|
                0 <= k < done.events.len() && #[trigger] done.events[k] == verdict->0
        }),
{
    let start = BookModel { last_seq_no: cmd.seq_no, ..book };
    let state = OrderState::of(order);
    let id = order.order_id;
    let out = model::sweep(start.side(state.side.other()), start.orders, state);
    let rest = model::remainder(model::swept(start, state), cmd.seq_no, out.taker);
    let step = model::entered(start, cmd.seq_no, state);
    let done = model::processed(book, cmd);
    let trades = model::trades(out.fills);
    lemma_new_order(book, cmd, order);
    validity::lemma_renumbered(book, cmd.seq_no);
    standing::lemma_partners(book, state);
    assert(model::available_to(start, state) == model::available_to(book, state));
    validity::lemma_off_book(start, id);
    validity::lemma_sweep(start, state);
    liquidity::lemma_sweep_fills(start, state);
    if step.events.len() > 0 {
        assert(done.events[step.events.len() - 1 + 1] == step.events[step.events.len() - 1]);
    }
    if model::short_across(start, state) {
        assert(start.waiting.push(id).last() == id);
    }
    let refused = (state.tif == TimeInForce::FOK || state.condition == OrderCondition::AON)
        && model::short_of(start, state);
    if !refused {
        assert(step.events == trades + rest.events);
        assert forall|k: int|
            0 <= k < step.events.len() && dismisses(#[trigger] step.events[k], id) implies k
            == trades.len() && step.events[k] == rest.events[0] by {
            if k < trades.len() {
                assert(step.events[k] == trades[k]);
            } else {
                assert(step.events[k] == rest.events[k - trades.len()]);
            }
        }
    }
}

/// How a new order that is no stop order plays out.
#[verifier::spinoff_prover]
#[verifier::rlimit(40)]
pub proof fn lemma_new_order(book: BookModel, cmd: Command, order: NewOrder)
    requires
        model::valid(book),
        standing::still(book),
        cmd.payload == CommandPayload::New(order),
        outcome::acceptable(book, order),
        order.condition != OrderCondition::Stop,
    ensures
        ({
            let done = model::processed(book, cmd);
            let start = BookModel { last_seq_no: cmd.seq_no, ..book };
            let step = model::entered(start, cmd.seq_no, OrderState::of(order));
            let within = possible(book, order);
            let id = order.order_id;
            let short = within < order.qty;
            let refused = short && (order.tif == TimeInForce::FOK || order.condition
                == OrderCondition::AON);
            &&& within >= 0
            &&& took(done.events, id) == if within >= order.qty {
                order.qty as int
            } else if refused {
                0
            } else {
                within
            }
            &&& done.events.len() > step.events.len() + 1
            &&& done.events[0] == EngineEvent::OrderAccepted { seq_no: cmd.seq_no, order_id: id }
            &&& forall|k: int|
                0 <= k < step.events.len() ==> #[trigger] done.events[k + 1] == step.events[k]
            &&& forall|k: int|
                0 <= k < done.events.len() && dismisses(#[trigger] done.events[k], id) ==> {
                    &&& 0 < k <= step.events.len()
                    &&& done.events[k] == step.events[k - 1]
                }
            &&& done.book.orders.contains_key(id) <==> step.book.orders.contains_key(id)
            &&& done.book.waiting.contains(id) <==> step.book.waiting.contains(id)
        }),
{
    let start = BookModel { last_seq_no: cmd.seq_no, ..book };
    let state = OrderState::of(order);
    let id = order.order_id;
    let applied = model::applied(book, cmd);
    let step = model::entered(start, cmd.seq_no, state);
    let accepted = EngineEvent::OrderAccepted { seq_no: cmd.seq_no, order_id: id };
    let last = model::cascaded(applied, cmd.seq_no);
    let done = model::processed(book, cmd);
    validity::lemma_renumbered(book, cmd.seq_no);
    validity::lemma_applied(book, cmd);
    standing::lemma_partners(book, state);
    standing::lemma_still(book);
    assert(model::available_to(start, state) == model::available_to(book, state));
    assert(applied.events == seq![accepted] + step.events);
    validity::lemma_off_book(start, id);
    validity::lemma_sweep(start, state);
    lemma_sweep_took(start, state);
    liquidity::lemma_sweep_fills(start, state);
    lemma_took_add(seq![accepted], step.events, id);
    assert(seq![accepted].drop_last() =~= Seq::empty());
    assert(took(seq![accepted].drop_last(), id) == 0);
    assert(took(seq![accepted], id) == 0);
    accounting::lemma_cascaded_ids(applied, cmd.seq_no);
    if model::short_across(start, state) && state.condition == OrderCondition::AON && state.tif
        == TimeInForce::GTC && state.order_type == OrderType::Limit {
        assert(step.events =~= Seq::empty());
        assert(applied.events =~= seq![accepted]);
        lemma_held_quiet(start, state);
        crossing::lemma_nothing_ready(applied, cmd.seq_no);
        assert(applied.book.waiting.last() == id);
        let bbo = EngineEvent::BboChanged(model::bbo(applied.book));
        assert(done.events =~= seq![accepted, bbo]);
        lemma_took_none(done.events, id);
    } else {
        assert(!applied.book.waiting.contains(id));
        lemma_closing(applied, cmd, id);
        let refused = (state.tif == TimeInForce::FOK || state.condition == OrderCondition::AON)
            && model::short_of(start, state);
        if refused {
            assert forall|k: int| 0 <= k < step.events.len() implies !takes(
                #[trigger] step.events[k],
                id,
            ) by {}
            lemma_took_none(step.events, id);
        } else {
            let out = model::sweep(start.side(state.side.other()), start.orders, state);
            let rest = model::remainder(model::swept(start, state), cmd.seq_no, out.taker);
            lemma_took_add(model::trades(out.fills), rest.events, id);
            lemma_took_none(rest.events, id);
        }
        assert forall|k: int| 0 <= k < step.events.len() implies #[trigger] done.events[k + 1]
            == step.events[k] by {
            assert(applied.events[k + 1] == step.events[k]);
        }
        assert forall|k: int|
            0 <= k < done.events.len() && dismisses(#[trigger] done.events[k], id) implies {
            &&& 0 < k <= step.events.len()
            &&& done.events[k] == step.events[k - 1]
        } by {
            if k < applied.events.len() {
                assert(done.events[k] == applied.events[k]);
            }
        }
        if applied.book.orders.contains_key(id) {
            outcome::lemma_cascaded_state(applied, cmd.seq_no, id);
        }
        lemma_cascade_waiting(applied, cmd.seq_no, id);
    }
}

/// A cascade makes no order wait.
pub proof fn lemma_cascade_waiting(step: Step, seq_no: SeqNo, id: OrderId)
    requires
        model::valid(step.book),
    ensures
        model::cascaded(step, seq_no).book.waiting.contains(id) ==> step.book.waiting.contains(id),
    decreases step.book.waiting.len(),
{
    let i = model::next_ready(step.book, step.events, 0);
    if 0 <= i < step.book.waiting.len() {
        let next = model::activated(step.book, seq_no, i);
        validity::lemma_cascade_step(step, seq_no);
        lemma_cascade_waiting(
            Step { book: next.book, events: step.events + next.events },
            seq_no,
            id,
        );
        if next.book.waiting.contains(id) {
            let j = choose|j: int| 0 <= j < next.book.waiting.len() && next.book.waiting[j] == id;
            assert(step.book.waiting[if j < i { j } else { j + 1 }] == id);
        }
    }
}

/// An order that starts to wait, for its trigger or for what is short, leaves a quiet book quiet.
pub proof fn lemma_held_quiet(book: BookModel, order: OrderState)
    requires
        model::valid(book),
        model::quiet(book),
        validity::off_book(book, order.order_id),
        order.condition == OrderCondition::AON ==> model::short_across(book, order),
    ensures
        model::quiet(model::held(book, order)),
{
    let next = model::held(book, order);
    let id = order.order_id;
    validity::lemma_off_book(book, id);
    assert forall|i: int| 0 <= i < next.waiting.len() implies ({
        let waiting = next.orders[#[trigger] next.waiting[i]];
        waiting.condition == OrderCondition::AON ==> model::short_across(next, waiting)
    }) by {
        let waiting = next.orders[next.waiting[i]];
        if i < book.waiting.len() {
            assert(book.waiting.contains(book.waiting[i]));
            assert(next.waiting[i] == book.waiting[i]);
        }
        let reach = model::reach_of(waiting.order_type, waiting.side, waiting.price);
        let levels = book.side(waiting.side.other());
        assert forall|key: u64| #[trigger] levels.contains_key(key) implies !levels[key].contains(
            id,
        ) by {
            match waiting.side.other() {
                Side::Buy => assert(book.bids.contains_key(key)),
                Side::Sell => assert(book.asks.contains_key(key)),
            }
        }
        liquidity::lemma_available_absent(levels, book.orders, id, next.orders[id], reach);
    }
}

/// A new stop order that is accepted waits behind the orders that wait already. Nothing trades, and
/// nothing else changes.
pub proof fn law_stop_orders_start_to_wait(book: BookModel, cmd: Command, order: NewOrder)
    requires
        model::valid(book),
        standing::still(book),
        cmd.payload == CommandPayload::New(order),
        outcome::acceptable(book, order),
        order.condition == OrderCondition::Stop,
    ensures
        ({
            let done = model::processed(book, cmd);
            &&& done.book.waiting == book.waiting.push(order.order_id)
            &&& done.book.bids == book.bids
            &&& done.book.asks == book.asks
            &&& done.book.orders.remove(order.order_id) == book.orders
            &&& done.events.len() == 2
        }),
{
    let start = BookModel { last_seq_no: cmd.seq_no, ..book };
    let applied = model::applied(book, cmd);
    validity::lemma_renumbered(book, cmd.seq_no);
    validity::lemma_applied(book, cmd);
    standing::lemma_still(book);
    assert(model::quiet(start)) by {
        assert forall|i: int| 0 <= i < start.waiting.len() implies ({
            let waiting = start.orders[#[trigger] start.waiting[i]];
            waiting.condition == OrderCondition::AON ==> model::short_across(start, waiting)
        }) by {
            assert(book.waiting[i] == start.waiting[i]);
        }
    }
    lemma_held_quiet(start, OrderState::of(order));
    crossing::lemma_nothing_ready(applied, cmd.seq_no);
    assert(model::processed(book, cmd).book.orders.remove(order.order_id) =~= book.orders);
}

/// A replaced order that rests takes what rests within its new limit, up to what is left of its
/// new quantity.
pub proof fn law_replaced_orders_take(book: BookModel, cmd: Command, replace: ReplaceOrder)
    requires
        model::valid(book),
        cmd.payload == CommandPayload::Replace(replace),
        outcome::replaceable(book, replace),
        standing::rests(book, replace.order_id),
    ensures
        ({
            let done = model::processed(book, cmd);
            let order = book.orders[replace.order_id];
            let within = standing::sum_left(
                book.orders,
                standing::partners(book, order.side, OrderType::Limit, replace.new_price),
            );
            let wanted = replace.new_qty - order.filled_qty;
            took(done.events, replace.order_id) == if within < wanted {
                within
            } else {
                wanted
            }
        }),
{
    let start = BookModel { last_seq_no: cmd.seq_no, ..book };
    let id = replace.order_id;
    let step = model::applied(book, cmd);
    let next = model::amended(start, replace);
    let order = next.orders[id];
    let levels = start.side(order.side.other());
    let reach = model::reach_of(order.order_type, order.side, order.price);
    validity::lemma_renumbered(book, cmd.seq_no);
    validity::lemma_applied(book, cmd);
    assert(model::order_valid(book, id));
    validity::lemma_queued(start, id);
    validity::lemma_amended(start, replace);
    let out = model::sweep(next.side(order.side.other()), next.orders, order);
    let replaced = step.events[0];
    let trades = model::trades(out.fills);
    validity::lemma_sweep(next, order);
    lemma_sweep_took(next, order);
    liquidity::lemma_sweep_fills(next, order);
    assert(step.events == seq![replaced] + trades);
    lemma_took_add(seq![replaced], trades, id);
    lemma_took_none(seq![replaced], id);
    assert(!step.book.waiting.contains(id));
    lemma_closing(step, cmd, id);
    standing::lemma_partners(book, order);
    assert forall|key: u64| #[trigger] levels.contains_key(key) implies !levels[key].contains(
        id,
    ) by {
        assert(model::queue_valid(levels[key], start.orders, order.side.other(), key));
        if levels[key].contains(id) {
            let i = choose|i: int| 0 <= i < levels[key].len() && levels[key][i] == id;
            assert(model::rests_at(start.orders, levels[key][i], order.side.other(), key));
        }
    }
    liquidity::lemma_available_absent(levels, start.orders, id, order, reach);
    assert(next.orders =~= start.orders.insert(id, order));
    assert(next.side(order.side.other()) == levels);
}

/// Entering a fill-or-kill or all-or-none order takes its whole quantity or nothing.
proof fn lemma_entered_whole(book: BookModel, seq_no: SeqNo, order: OrderState)
    requires
        model::valid(book),
        order.filled_qty == 0,
        order.tif == TimeInForce::FOK || order.condition == OrderCondition::AON,
    ensures
        ({
            let events = model::entered(book, seq_no, order).events;
            let qty = took(events, order.order_id);
            qty == 0 || qty == order.original_qty
        }),
{
    let events = model::entered(book, seq_no, order).events;
    let out = model::sweep(book.side(order.side.other()), book.orders, order);
    if model::short_of(book, order) {
        lemma_took_none(events, order.order_id);
    } else {
        let rest = model::remainder(model::swept(book, order), seq_no, out.taker);
        validity::lemma_sweep(book, order);
        lemma_sweep_took(book, order);
        liquidity::lemma_sweep_fills(book, order);
        lemma_took_add(model::trades(out.fills), rest.events, order.order_id);
        lemma_took_none(rest.events, order.order_id);
    }
}

/// A waiting order that enters in a cascade takes its whole quantity or nothing if it must.
proof fn lemma_cascaded_whole(step: Step, seq_no: SeqNo, id: OrderId)
    requires
        model::valid(step.book),
        step.book.waiting.contains(id),
        step.book.orders[id].tif == TimeInForce::FOK || step.book.orders[id].condition
            == OrderCondition::AON,
    ensures
        ({
            let qty = took(model::cascaded(step, seq_no).events, id) - took(step.events, id);
            qty == 0 || qty == step.book.orders[id].original_qty
        }),
    decreases step.book.waiting.len(),
{
    let i = model::next_ready(step.book, step.events, 0);
    if 0 <= i < step.book.waiting.len() {
        let start = step.book;
        let entrant = model::underlying(start.orders[start.waiting[i]]);
        let released = model::released(start, i);
        let next = model::activated(start, seq_no, i);
        let then_step = Step { book: next.book, events: step.events + next.events };
        validity::lemma_cascade_step(step, seq_no);
        validity::lemma_waiting(start);
        lemma_took_add(step.events, next.events, id);
        outcome::lemma_removed(start.waiting, i, id);
        if start.waiting[i] == id {
            lemma_entered_whole(released, seq_no, entrant);
            lemma_cascaded_silent(then_step, seq_no, id);
        } else {
            lemma_entered_silent(released, seq_no, entrant, id);
            lemma_took_none(next.events, id);
            assert(released.orders.contains_key(id));
            outcome::lemma_entered_other(released, seq_no, entrant, id);
            lemma_cascaded_whole(then_step, seq_no, id);
        }
    }
}

/// A fill-or-kill order, or one that waits as an all-or-none order, is never taken in part when it
/// comes to enter: of what it asks for, the command's trades that it takes make up all or nothing.
pub proof fn law_waiting_orders_take_all_or_nothing(book: BookModel, cmd: Command, id: OrderId)
    requires
        model::valid(book),
        book.waiting.contains(id),
        book.orders[id].tif == TimeInForce::FOK || book.orders[id].condition
            == OrderCondition::AON,
    ensures
        ({
            let done = model::processed(book, cmd);
            let qty = took(done.events, id);
            qty == 0 || qty == done.book.orders[id].original_qty
        }),
{
    let start = BookModel { last_seq_no: cmd.seq_no, ..book };
    let step = model::applied(book, cmd);
    let last = model::cascaded(step, cmd.seq_no);
    let done = model::processed(book, cmd);
    validity::lemma_renumbered(book, cmd.seq_no);
    validity::lemma_applied(book, cmd);
    validity::lemma_waiting(book);
    validity::lemma_waiting(start);
    assert(model::order_valid(start, id));
    assert(done.events.drop_last() =~= last.events);
    assert(step.book.orders.contains_key(id)) by {
        accounting::lemma_applied_closed(book, cmd);
    }
    assert(took(step.events, id) == 0) by {
        lemma_applied_silent(book, cmd, id);
        lemma_took_none(step.events, id);
    }
    accounting::lemma_cascaded_ids(step, cmd.seq_no);
    match cmd.payload {
        CommandPayload::New(order) => {
            outcome::lemma_new_state(start, cmd.seq_no, order, id);
        },
        CommandPayload::Cancel(cancel) => {
            outcome::lemma_cancel_state(start, cmd.seq_no, cancel, id);
        },
        CommandPayload::Replace(replace) => {
            outcome::lemma_replace_state(start, cmd.seq_no, replace, id);
        },
    }
    if step.book.waiting.contains(id) {
        lemma_cascaded_whole(step, cmd.seq_no, id);
    } else {
        lemma_cascaded_silent(step, cmd.seq_no, id);
    }
}

/// A command's own request takes no waiting order.
proof fn lemma_applied_silent(book: BookModel, cmd: Command, id: OrderId)
    requires
        model::valid(book),
        book.waiting.contains(id),
    ensures
        ({
            let events = model::applied(book, cmd).events;
            forall|k: int| 0 <= k < events.len() ==> !takes(#[trigger] events[k], id)
        }),
{
    let start = BookModel { last_seq_no: cmd.seq_no, ..book };
    let events = model::applied(book, cmd).events;
    validity::lemma_renumbered(book, cmd.seq_no);
    validity::lemma_waiting(start);
    assert(model::waits(start, id));
    match cmd.payload {
        CommandPayload::New(order) => {
            if model::new_order_flaw(start, order) is None && order.condition
                != OrderCondition::Stop {
                let state = OrderState::of(order);
                let entered = model::entered(start, cmd.seq_no, state);
                lemma_entered_silent(start, cmd.seq_no, state, id);
                assert forall|k: int| 0 <= k < events.len() implies !takes(
                    #[trigger] events[k],
                    id,
                ) by {
                    if k > 0 {
                        assert(events[k] == entered.events[k - 1]);
                    }
                }
            }
        },
        CommandPayload::Cancel(_) => {},
        CommandPayload::Replace(replace) => {
            if model::replace_flaw(start, replace) is None && !start.waiting.contains(
                replace.order_id,
            ) {
                assert(model::order_valid(start, replace.order_id));
                validity::lemma_queued(start, replace.order_id);
                validity::lemma_amended(start, replace);
                let next = model::amended(start, replace);
                let order = next.orders[replace.order_id];
                let out = model::sweep(next.side(order.side.other()), next.orders, order);
                lemma_sweep_took(next, order);
                let trades = model::trades(out.fills);
                assert forall|k: int| 0 <= k < events.len() implies !takes(
                    #[trigger] events[k],
                    id,
                ) by {
                    if k > 0 {
                        assert(events[k] == trades[k - 1]);
                        assert(takes(trades[k - 1], replace.order_id));
                    }
                }
            }
        },
    }
}

/// What is said of an order that did not trade all of its quantity when it entered, if anything is.
pub open spec fn verdict(seq_no: SeqNo, order: OrderState, within: int) -> Option<EngineEvent> {
    let order_id = order.order_id;
    if within >= order.original_qty {
        None
    } else if order.tif == TimeInForce::FOK {
        Some(
            EngineEvent::OrderRejected { seq_no, order_id, reason: RejectReason::FOKNotFillable },
        )
    } else if order.condition == OrderCondition::AON {
        if order.tif == TimeInForce::IOC || order.order_type == OrderType::Market {
            Some(
                EngineEvent::OrderRejected {
                    seq_no,
                    order_id,
                    reason: RejectReason::AONNotFillable,
                },
            )
        } else {
            None
        }
    } else if order.order_type == OrderType::Market && within == 0 {
        Some(EngineEvent::OrderRejected { seq_no, order_id, reason: RejectReason::NoLiquidity })
    } else if order.order_type == OrderType::Market || order.tif == TimeInForce::IOC {
        Some(
            EngineEvent::OrderCanceled {
                seq_no,
                order_id,
                remaining_qty: (order.original_qty - within) as u64,
            },
        )
    } else {
        None
    }
}

/// An order that enters takes what rests within its limit, up to its quantity, and all or nothing
/// if it is a fill-or-kill or all-or-none order. Its events are these trades, and then at most a
/// verdict on what it did not take.
pub proof fn law_entries(book: BookModel, seq_no: SeqNo, order: OrderState)
    requires
        model::valid(book),
        validity::off_book(book, order.order_id),
        order.filled_qty == 0,
        order.original_qty > 0,
        order.condition != OrderCondition::Stop,
    ensures
        ({
            let events = model::entered(book, seq_no, order).events;
            let within = standing::sum_left(
                book.orders,
                standing::partners(book, order.side, order.order_type, order.price),
            );
            let whole = order.tif == TimeInForce::FOK || order.condition == OrderCondition::AON;
            let said = verdict(seq_no, order, within);
            let n = events.len() - (if said is Some { 1int } else { 0int });
            &&& took(events, order.order_id) == if within >= order.original_qty {
                order.original_qty as int
            } else if whole {
                0
            } else {
                within
            }
            &&& 0 <= n
            &&& forall|k: int| 0 <= k < n ==> takes(#[trigger] events[k], order.order_id)
            &&& said is Some ==> events[n] == said->0
        }),
{
    let step = model::entered(book, seq_no, order);
    let id = order.order_id;
    let out = model::sweep(book.side(order.side.other()), book.orders, order);
    let trades = model::trades(out.fills);
    standing::lemma_partners(book, order);
    validity::lemma_sweep(book, order);
    lemma_sweep_took(book, order);
    liquidity::lemma_sweep_fills(book, order);
    let refused = (order.tif == TimeInForce::FOK || order.condition == OrderCondition::AON)
        && model::short_of(book, order);
    if refused {
        lemma_took_none(step.events, id);
    } else {
        let rest = model::remainder(model::swept(book, order), seq_no, out.taker);
        assert(step.events == trades + rest.events);
        lemma_took_add(trades, rest.events, id);
        lemma_took_none(rest.events, id);
        assert forall|k: int| 0 <= k < trades.len() implies takes(
            #[trigger] step.events[k],
            id,
        ) by {
            assert(step.events[k] == trades[k]);
        }
        if rest.events.len() > 0 {
            assert(step.events[trades.len() as int] == rest.events[0]);
        }
    }
}

/// A waiting order that is let in enters as its terms say, without the stop condition, and takes
/// what rests within its limit like a new order would.
pub proof fn law_entrants(book: BookModel, seq_no: SeqNo, i: int)
    requires
        model::valid(book),
        0 <= i < book.waiting.len(),
    ensures
        ({
            let id = book.waiting[i];
            let waiting = book.orders[id];
            let order = OrderState {
                condition: if waiting.condition == OrderCondition::Stop {
                    OrderCondition::Unconditional
                } else {
                    waiting.condition
                },
                ..waiting
            };
            let events = model::activated(book, seq_no, i).events;
            let within = standing::sum_left(
                book.orders,
                standing::partners(book, order.side, order.order_type, order.price),
            );
            let whole = order.tif == TimeInForce::FOK || order.condition == OrderCondition::AON;
            let said = verdict(seq_no, order, within);
            let n = events.len() - (if said is Some { 1int } else { 0int });
            &&& took(events, id) == if within >= order.original_qty {
                order.original_qty as int
            } else if whole {
                0
            } else {
                within
            }
            &&& 0 <= n
            &&& forall|k: int| 0 <= k < n ==> takes(#[trigger] events[k], id)
            &&& said is Some ==> events[n] == said->0
        }),
{
    let id = book.waiting[i];
    let waiting = book.orders[id];
    let released = model::released(book, i);
    let entrant = model::underlying(waiting);
    let reach = model::reach_of(entrant.order_type, entrant.side, entrant.price);
    let levels = book.side(entrant.side.other());
    validity::lemma_released(book, i);
    validity::lemma_waiting(book);
    law_entries(released, seq_no, entrant);
    standing::lemma_partners(book, entrant);
    standing::lemma_partners(released, entrant);
    assert(book.waiting.contains(id));
    assert forall|key: u64| #[trigger] levels.contains_key(key) implies !levels[key].contains(
        id,
    ) by {
        assert(book.side(entrant.side.other()).contains_key(key));
    }
    liquidity::lemma_available_absent(levels, book.orders, id, released.orders[id], reach);
    assert(released.orders =~= book.orders.insert(id, released.orders[id]));
    assert(released.side(entrant.side.other()) == levels);
}

} // verus!
