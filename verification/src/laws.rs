//! What holds of the engine as a whole, whatever the commands.
use crate::accounting;
use crate::book;
use crate::book::LevelView;
use crate::crossing;
use crate::fifo;
use crate::liquidity;
use crate::model;
use crate::model::{BookModel, Step};
use crate::quantities;
use crate::ranking;
use crate::types::{
    CancelOrder, Command, CommandPayload, EngineEvent, NewOrder, OrderCondition, OrderId,
    OrderState, OrderType, Price, Qty, RejectReason, ReplaceOrder, SeqNo, Side, Symbol,
    TimeInForce, Timestamp,
};
use crate::validity;
use vstd::prelude::*;

verus! {

/// Of two prices, the better one for the side's orders has the smaller key: the higher bid, the
/// lower ask. A key is decoded the way it was encoded.
pub proof fn law_keys_rank_prices(a: Price, b: Price)
    ensures
        book::rank(Side::Buy, a) < book::rank(Side::Buy, b) <==> a > b,
        book::rank(Side::Sell, a) < book::rank(Side::Sell, b) <==> a < b,
        book::rank(Side::Buy, book::rank(Side::Buy, a)) == a,
        book::rank(Side::Sell, book::rank(Side::Sell, a)) == a,
{
}

/// The opposite of the opposite side is the side itself, and never the same side.
pub proof fn law_opposite(side: Side)
    ensures
        side.other().other() == side,
        side.other() != side,
{
}

/// Removing an order from a level undoes its insertion, with the same quantity. Levels are never
/// stored without an order.
pub proof fn law_remove_undoes_insert(
    levels: Map<u64, LevelView>,
    key: u64,
    id: OrderId,
    qty: Qty,
)
    requires
        !book::level_at(levels, key).orders.contains(id),
        levels.contains_key(key) ==> levels[key].orders.len() > 0,
        book::level_at(levels, key).total_qty + qty <= u64::MAX,
    ensures
        ({
            let level = book::level_at(levels, key);
            let longer = LevelView {
                orders: level.orders.push(id),
                total_qty: (level.total_qty + qty) as u64,
            };
            let shorter = LevelView {
                orders: longer.orders.remove_value(id),
                total_qty: book::monus(longer.total_qty, qty),
            };
            book::with_level(levels.insert(key, longer), key, shorter) == levels
        }),
{
    let level = book::level_at(levels, key);
    let longer = level.orders.push(id);
    assert(longer[level.orders.len() as int] == id);
    longer.index_of_first_ensures(id);
    let i = longer.index_of_first(id).unwrap();
    if i < level.orders.len() {
        assert(level.orders[i] == id);
    }
    assert(longer.remove_value(id) =~= level.orders);
    let stored = levels.insert(
        key,
        LevelView { orders: longer, total_qty: (level.total_qty + qty) as u64 },
    );
    assert(book::with_level(stored, key, level) =~= levels);
}

/// What is always true of an order on record: it is not overfilled, and while it is open it has
/// quantity left and either waits, unfilled, as a stop or all-or-none order, or rests in the queue
/// of its price, on its side, as a good-til-cancel limit order. So a market, immediate-or-cancel
/// or fill-or-kill order never rests.
pub open spec fn sound(book: BookModel, id: OrderId) -> bool {
    let order = book.orders[id];
    &&& order.filled_qty <= order.original_qty
    &&& order.is_open ==> order.open() > 0
    &&& order.is_open && order.condition == OrderCondition::Stop ==> book.waiting.contains(id)
    &&& order.is_open ==> if book.waiting.contains(id) {
        &&& order.condition != OrderCondition::Unconditional
        &&& order.filled_qty == 0
        &&& !fifo::queue_of(book, order.side, order.price).contains(id)
    } else {
        &&& fifo::queue_of(book, order.side, order.price).contains(id)
        &&& order.order_type == OrderType::Limit
        &&& order.tif == TimeInForce::GTC
    }
}

/// The orders queued at a price of a side are open orders of that side and price.
pub open spec fn queue_sound(book: BookModel, side: Side, price: Price) -> bool {
    let queue = fifo::queue_of(book, side, price);
    &&& queue.no_duplicates()
    &&& forall|i: int|
        #![trigger queue[i]]
        0 <= i < queue.len() ==> {
            &&& book.orders.contains_key(queue[i])
            &&& book.orders[queue[i]].is_open
            &&& book.orders[queue[i]].side == side
            &&& book.orders[queue[i]].price == price
        }
}

/// Every command keeps every order and every queue of a valid book sound.
pub proof fn law_invariants(book: BookModel, cmd: Command)
    requires
        model::valid(book),
    ensures
        model::valid(model::processed(book, cmd).book),
        forall|id: OrderId| #[trigger]
            model::processed(book, cmd).book.orders.contains_key(id) ==> sound(
                model::processed(book, cmd).book,
                id,
            ),
        forall|side: Side, price: Price| #[trigger]
            queue_sound(model::processed(book, cmd).book, side, price),
{
    let after = model::processed(book, cmd).book;
    validity::lemma_processed(book, cmd);
    assert forall|id: OrderId| #[trigger] after.orders.contains_key(id) implies sound(
        after,
        id,
    ) by {
        assert(model::order_valid(after, id));
        if after.orders[id].is_open {
            validity::lemma_waiting(after);
            if !after.waiting.contains(id) {
                validity::lemma_queued(after, id);
            }
        }
    }
    assert forall|side: Side, price: Price| #[trigger] queue_sound(after, side, price) by {
        let key = book::rank(side, price);
        let queue = fifo::queue_of(after, side, price);
        if after.side(side).contains_key(key) {
            assert(model::queue_valid(queue, after.orders, side, key));
            assert forall|i: int| #![trigger queue[i]] 0 <= i < queue.len() implies {
                &&& after.orders.contains_key(queue[i])
                &&& after.orders[queue[i]].is_open
                &&& after.orders[queue[i]].side == side
                &&& after.orders[queue[i]].price == price
            } by {
                assert(model::rests_at(after.orders, queue[i], side, key));
            }
        }
    }
}

/// A command's timestamp has no influence on what it does.
pub proof fn law_timestamps_are_audit_only(book: BookModel, cmd: Command, timestamp: Timestamp)
    ensures
        model::processed(book, Command { timestamp, ..cmd }) == model::processed(book, cmd),
{
}

/// Every command closes its events with the best bid and offer of the book it leaves, and the
/// book remembers its sequence number.
pub proof fn law_bbo_closes(book: BookModel, cmd: Command)
    requires
        model::valid(book),
    ensures
        ({
            let done = model::processed(book, cmd);
            &&& done.events.len() > 0
            &&& done.events.last() == EngineEvent::BboChanged(model::bbo(done.book))
            &&& done.book.last_seq_no == cmd.seq_no
            &&& done.book.symbol == book.symbol
        }),
{
    lemma_cascaded_seq_no(model::applied(book, cmd), cmd.seq_no);
}

proof fn lemma_cascaded_seq_no(step: Step, seq_no: SeqNo)
    ensures
        model::cascaded(step, seq_no).book.last_seq_no == step.book.last_seq_no,
        model::cascaded(step, seq_no).book.symbol == step.book.symbol,
    decreases step.book.waiting.len(),
{
    let i = model::next_ready(step.book, step.events, 0);
    if 0 <= i < step.book.waiting.len() {
        let next = model::activated(step.book, seq_no, i);
        let book = BookModel { waiting: step.book.waiting.remove(i), ..next.book };
        lemma_cascaded_seq_no(Step { book, events: step.events + next.events }, seq_no);
    }
}

/// The reason for which a command is refused outright, if it is.
pub open spec fn flaw(book: BookModel, cmd: Command) -> Option<RejectReason> {
    match cmd.payload {
        CommandPayload::New(order) => model::new_order_flaw(book, order),
        CommandPayload::Cancel(cancel) => model::cancel_flaw(book, cancel),
        CommandPayload::Replace(replace) => model::replace_flaw(book, replace),
    }
}

/// The event that answers a command refused for a reason.
pub open spec fn refusal(cmd: Command, reason: RejectReason) -> EngineEvent {
    let seq_no = cmd.seq_no;
    match cmd.payload {
        CommandPayload::New(order) => EngineEvent::OrderRejected {
            seq_no,
            order_id: order.order_id,
            reason,
        },
        CommandPayload::Cancel(cancel) => EngineEvent::CancelRejected {
            seq_no,
            order_id: cancel.order_id,
            reason,
        },
        CommandPayload::Replace(replace) => EngineEvent::ReplaceRejected {
            seq_no,
            order_id: replace.order_id,
            reason,
        },
    }
}

/// What holds of a book between commands: it is valid, and no waiting order may enter.
pub open spec fn at_rest(book: BookModel) -> bool {
    model::valid(book) && model::quiet(book)
}

/// An empty book is at rest, and every command leaves the book at rest.
pub proof fn law_at_rest(symbol: Symbol, book: BookModel, cmd: Command)
    requires
        model::valid(book),
    ensures
        at_rest(BookModel::fresh(symbol)),
        at_rest(model::processed(book, cmd).book),
{
    validity::lemma_fresh(symbol);
    validity::lemma_processed(book, cmd);
    law_ready_orders_enter(book, cmd);
    let done = model::processed(book, cmd);
    assert forall|i: int| 0 <= i < done.book.waiting.len() implies ({
        let order = done.book.orders[#[trigger] done.book.waiting[i]];
        order.condition == OrderCondition::AON ==> model::short_across(done.book, order)
    }) by {
        assert(!model::ready(done.book, done.book.orders[done.book.waiting[i]], done.events));
    }
}

/// A renumbered book is as much at rest as before.
proof fn lemma_renumbered_at_rest(book: BookModel, seq_no: SeqNo)
    requires
        at_rest(book),
    ensures
        at_rest(BookModel { last_seq_no: seq_no, ..book }),
{
    let next = BookModel { last_seq_no: seq_no, ..book };
    validity::lemma_renumbered(book, seq_no);
    assert forall|i: int| 0 <= i < next.waiting.len() implies ({
        let order = next.orders[#[trigger] next.waiting[i]];
        order.condition == OrderCondition::AON ==> model::short_across(next, order)
    }) by {
        assert(book.waiting[i] == next.waiting[i]);
    }
}

/// A command that is refused outright is answered with one rejection, and changes nothing but
/// the last sequence number.
pub proof fn law_refused_changes_nothing(book: BookModel, cmd: Command)
    requires
        at_rest(book),
        flaw(book, cmd) is Some,
    ensures
        ({
            let done = model::processed(book, cmd);
            let start = BookModel { last_seq_no: cmd.seq_no, ..book };
            &&& done.book == start
            &&& done.events == seq![
                refusal(cmd, flaw(book, cmd)->0),
                EngineEvent::BboChanged(model::bbo(start)),
            ]
        }),
{
    let start = BookModel { last_seq_no: cmd.seq_no, ..book };
    let step = model::applied(book, cmd);
    lemma_renumbered_at_rest(book, cmd.seq_no);
    assert(step.events =~= seq![refusal(cmd, flaw(book, cmd)->0)]);
    crossing::lemma_nothing_ready(step, cmd.seq_no);
    assert(model::processed(book, cmd).events =~= seq![
        refusal(cmd, flaw(book, cmd)->0),
        EngineEvent::BboChanged(model::bbo(start)),
    ]);
}

/// Why an order that cannot be filled entirely is refused, if it is: a fill-or-kill order always,
/// an all-or-none order if it may not rest.
pub open spec fn kill_reason(order: NewOrder) -> Option<RejectReason> {
    if order.tif == TimeInForce::FOK {
        Some(RejectReason::FOKNotFillable)
    } else if order.condition == OrderCondition::AON && (order.tif == TimeInForce::IOC
        || order.order_type == OrderType::Market) {
        Some(RejectReason::AONNotFillable)
    } else {
        None
    }
}

/// A fill-or-kill order, or an all-or-none order that may not rest, for which there is not enough
/// quantity within its limit is accepted and then rejected, and changes nothing but the last
/// sequence number.
pub proof fn law_unfillable_is_refused(book: BookModel, cmd: Command, order: NewOrder)
    requires
        at_rest(book),
        cmd.payload == CommandPayload::New(order),
        model::new_order_flaw(book, order) is None,
        order.condition != OrderCondition::Stop,
        kill_reason(order) is Some,
        model::available_to(book, OrderState::of(order)) < order.qty,
    ensures
        ({
            let done = model::processed(book, cmd);
            let start = BookModel { last_seq_no: cmd.seq_no, ..book };
            &&& done.book == start
            &&& done.events == seq![
                EngineEvent::OrderAccepted { seq_no: cmd.seq_no, order_id: order.order_id },
                refusal(cmd, kill_reason(order)->0),
                EngineEvent::BboChanged(model::bbo(start)),
            ]
        }),
{
    let start = BookModel { last_seq_no: cmd.seq_no, ..book };
    let step = model::applied(book, cmd);
    let accepted = EngineEvent::OrderAccepted { seq_no: cmd.seq_no, order_id: order.order_id };
    lemma_renumbered_at_rest(book, cmd.seq_no);
    assert(step.book == start);
    assert(step.events =~= seq![accepted, refusal(cmd, kill_reason(order)->0)]);
    crossing::lemma_nothing_ready(step, cmd.seq_no);
    assert(model::processed(book, cmd).events =~= seq![
        accepted,
        refusal(cmd, kill_reason(order)->0),
        EngineEvent::BboChanged(model::bbo(start)),
    ]);
}

/// An accepted cancel request takes the order off the book, closes it, names the quantity that
/// was left of it, and touches nothing else. Waiting orders that may then enter do so.
pub proof fn law_cancel(book: BookModel, cmd: Command, cancel: CancelOrder)
    requires
        model::valid(book),
        cmd.payload == CommandPayload::Cancel(cancel),
        model::cancel_flaw(book, cancel) is None,
    ensures
        ({
            let step = model::applied(book, cmd);
            let id = cancel.order_id;
            let order = book.orders[id];
            &&& step.events == seq![
                EngineEvent::OrderCanceled {
                    seq_no: cmd.seq_no,
                    order_id: id,
                    remaining_qty: order.open() as u64,
                },
            ]
            &&& step.book.orders == book.orders.insert(id, OrderState { is_open: false, ..order })
            &&& !step.book.waiting.contains(id)
            &&& forall|other: OrderId|
                other != id ==> (#[trigger] step.book.waiting.contains(other)
                    <==> book.waiting.contains(other))
            &&& forall|side: Side, price: Price|
                !(#[trigger] fifo::queue_of(step.book, side, price)).contains(id)
            &&& forall|side: Side, price: Price|
                !fifo::queue_of(book, side, price).contains(id) ==> #[trigger] fifo::queue_of(
                    step.book,
                    side,
                    price,
                ) == fifo::queue_of(book, side, price)
        }),
        ({
            let done = model::processed(book, cmd);
            let id = cancel.order_id;
            let order = book.orders[id];
            &&& done.events[0] == EngineEvent::OrderCanceled {
                seq_no: cmd.seq_no,
                order_id: id,
                remaining_qty: order.open() as u64,
            }
            &&& done.book.orders[id] == OrderState { is_open: false, ..order }
            &&& model::cancel_flaw(done.book, cancel) == Some(RejectReason::NothingToCancel)
        }),
{
    let id = cancel.order_id;
    let order = book.orders[id];
    let step = model::applied(book, cmd);
    let start = BookModel { last_seq_no: cmd.seq_no, ..book };
    validity::lemma_renumbered(book, cmd.seq_no);
    validity::lemma_applied(book, cmd);
    assert(model::order_valid(book, id));
    validity::lemma_off_book(step.book, id);
    if book.waiting.contains(id) {
        quantities::lemma_remove_value(book.waiting, id);
    } else {
        validity::lemma_queued(book, id);
    }
    assert forall|side: Side, price: Price|
        !fifo::queue_of(book, side, price).contains(id) implies #[trigger] fifo::queue_of(
        step.book,
        side,
        price,
    ) == fifo::queue_of(book, side, price) by {
        let key = book::rank(side, price);
        if !book.waiting.contains(id) && side == order.side && key == book::rank(
            order.side,
            order.price,
        ) {
            assert(fifo::queue_of(book, side, price).contains(id));
        }
    }
    accounting::lemma_applied_closed(book, cmd);
    accounting::lemma_cascaded_closed(step, cmd.seq_no);
    lemma_cascade_extends(step, cmd.seq_no);
    let last = model::cascaded(step, cmd.seq_no);
    assert(step.book.orders.contains_key(id));
    assert(last.events[0] == step.events[0]);
}

/// An order withdrawn right after it came to rest, or to wait, leaves both sides of the book and
/// the waiting orders as they were before it came.
pub proof fn law_withdrawal_undoes_entry(book: BookModel, order: OrderState)
    requires
        model::valid(book),
        validity::off_book(book, order.order_id),
    ensures
        ({
            let after = model::withdrawn(model::rested(book, order), order);
            &&& after.bids == book.bids
            &&& after.asks == book.asks
            &&& after.waiting == book.waiting
        }),
        ({
            let after = model::withdrawn(model::held(book, order), order);
            &&& after.bids == book.bids
            &&& after.asks == book.asks
            &&& after.waiting == book.waiting
        }),
{
    let id = order.order_id;
    let key = book::rank(order.side, order.price);
    let levels = book.side(order.side);
    let queue = model::queue_at(levels, key);
    let rested = model::rested(book, order);
    validity::lemma_off_book(book, id);
    if levels.contains_key(key) {
        assert(model::queue_valid(levels[key], book.orders, order.side, key));
    }
    assert(!queue.contains(id));
    lemma_push_remove(queue, id);
    lemma_push_remove(book.waiting, id);
    let after = model::withdrawn(rested, order);
    assert(after.side(order.side) =~= levels);
    assert(after.side(order.side.other()) == book.side(order.side.other()));
}

/// Removing the order pushed last gives the queue back.
proof fn lemma_push_remove(queue: Seq<OrderId>, id: OrderId)
    requires
        !queue.contains(id),
    ensures
        queue.push(id).contains(id),
        queue.push(id).remove_value(id) == queue,
{
    let longer = queue.push(id);
    assert(longer[queue.len() as int] == id);
    longer.index_of_first_ensures(id);
    let i = longer.index_of_first(id).unwrap();
    if i < queue.len() {
        assert(queue[i] == id);
    }
    assert(longer.remove_value(id) =~= queue);
}

/// Entering an order that does not trade and stays open lets it rest or wait.
proof fn lemma_untraded_entry(book: BookModel, seq_no: SeqNo, order: OrderState)
    requires
        model::valid(book),
        !book.orders.contains_key(order.order_id),
        order.filled_qty == 0,
        order.original_qty > 0,
        ({
            let step = model::entered(book, seq_no, order);
            &&& forall|i: int| 0 <= i < step.events.len() ==> !(#[trigger] step.events[i] is Trade)
            &&& step.book.orders.contains_key(order.order_id)
            &&& step.book.orders[order.order_id].is_open
        }),
    ensures
        ({
            let step = model::entered(book, seq_no, order);
            &&& step.events.len() == 0
            &&& step.book == model::rested(book, order) || (step.book == model::held(book, order)
                && order.condition == OrderCondition::AON && model::short_across(book, order))
        }),
{
    let step = model::entered(book, seq_no, order);
    let matched = !((order.tif == TimeInForce::FOK || order.condition == OrderCondition::AON)
        && model::short_of(book, order));
    if matched {
        let out = model::sweep(book.side(order.side.other()), book.orders, order);
        if out.fills.len() > 0 {
            assert(step.events[0] == EngineEvent::Trade(out.fills[0]));
        }
        assert(model::swept(book, order) =~= book);
    }
}

/// A change of an order that is in no queue leaves what is available to any order.
proof fn lemma_available_unqueued(
    book: BookModel,
    next: BookModel,
    id: OrderId,
    state: OrderState,
    order: OrderState,
)
    requires
        model::valid(book),
        validity::off_book(book, id),
        next.bids == book.bids,
        next.asks == book.asks,
        next.orders == book.orders.insert(id, state),
    ensures
        model::available_to(next, order) == model::available_to(book, order),
{
    validity::lemma_off_book(book, id);
    liquidity::lemma_available_absent(
        book.side(order.side.other()),
        book.orders,
        id,
        state,
        model::reach_of(order.order_type, order.side, order.price),
    );
}

/// An order that comes to rest takes nothing from what is available to another.
proof fn lemma_rested_available(book: BookModel, state: OrderState, order: OrderState)
    requires
        model::valid(book),
        validity::off_book(book, state.order_id),
    ensures
        model::available_to(model::rested(book, state), order) >= model::available_to(book, order),
{
    let next = model::rested(book, state);
    let id = state.order_id;
    let key = book::rank(state.side, state.price);
    let other = order.side.other();
    let levels = book.side(other);
    let reach = model::reach_of(order.order_type, order.side, order.price);
    validity::lemma_off_book(book, id);
    if other == state.side {
        let after = next.side(other);
        assert(after.remove(key) =~= levels.remove(key));
        assert forall|k: u64| #[trigger]
            levels.contains_key(k) && k != key implies model::queued_qty(levels[k], next.orders)
            == model::queued_qty(levels[k], book.orders) by {
            quantities::lemma_qty_absent(levels[k], book.orders, id, next.orders[id]);
        }
        liquidity::lemma_one_level(levels, book.orders, after, next.orders, key, reach);
        let queue = model::queue_at(levels, key);
        quantities::lemma_qty_push(queue, next.orders, id);
        if levels.contains_key(key) {
            quantities::lemma_qty_absent(queue, book.orders, id, next.orders[id]);
        }
    } else {
        liquidity::lemma_available_absent(levels, book.orders, id, next.orders[id], reach);
    }
}

/// After an order came to rest or to wait in a book at rest, waiting orders enter only by trading.
proof fn lemma_entry_lets_nothing_in(book: BookModel, state: OrderState, step: Step, seq_no: SeqNo)
    requires
        at_rest(book),
        model::valid(step.book),
        validity::off_book(book, state.order_id),
        ({
            ||| step.book == model::rested(book, state)
            ||| {
                &&& step.book == model::held(book, state)
                &&& state.condition == OrderCondition::AON ==> model::short_across(book, state)
            }
        }),
        ({
            let last = model::cascaded(step, seq_no);
            forall|i: int| 0 <= i < last.events.len() ==> !(#[trigger] last.events[i] is Trade)
        }),
    ensures
        model::cascaded(step, seq_no) == step,
{
    let i = model::next_ready(step.book, step.events, 0);
    lemma_cascade_extends(step, seq_no);
    let last = model::cascaded(step, seq_no);
    validity::lemma_next_ready(step.book, step.events, 0);
    if i < step.book.waiting.len() {
        let id = step.book.waiting[i];
        let order = step.book.orders[id];
        validity::lemma_cascade_step(step, seq_no);
        assert(model::waits(step.book, id));
        validity::lemma_off_book(book, state.order_id);
        if order.condition == OrderCondition::Stop {
            let k = choose|k: int|
                0 <= k < step.events.len() && model::trips(order, #[trigger] step.events[k]);
            assert(last.events[k] == step.events[k]);
        } else {
            if step.book == model::rested(book, state) {
                assert(book.waiting.contains(book.waiting[i]));
                assert(model::short_across(book, book.orders[book.waiting[i]]));
                lemma_rested_available(book, state, order);
            } else {
                let recorded = step.book.orders[state.order_id];
                lemma_available_unqueued(book, step.book, state.order_id, recorded, order);
                if i < book.waiting.len() {
                    assert(book.waiting.contains(book.waiting[i]));
                    assert(model::short_across(book, book.orders[book.waiting[i]]));
                } else {
                    assert(id == state.order_id);
                }
            }
            assert(model::available_to(step.book, order) >= order.open());
            lemma_filled_entry(step, seq_no, i);
        }
    }
}

/// A waiting all-or-none order that can be filled enters by trading.
proof fn lemma_filled_entry(step: Step, seq_no: SeqNo, i: int)
    requires
        model::valid(step.book),
        i == model::next_ready(step.book, step.events, 0),
        0 <= i < step.book.waiting.len(),
        ({
            let order = step.book.orders[step.book.waiting[i]];
            &&& order.condition == OrderCondition::AON
            &&& model::available_to(step.book, order) >= order.open()
        }),
    ensures
        ({
            let last = model::cascaded(step, seq_no);
            exists|k: int| 0 <= k < last.events.len() && #[trigger] last.events[k] is Trade
        }),
{
    let id = step.book.waiting[i];
    let order = model::underlying(step.book.orders[id]);
    let released = model::released(step.book, i);
    let next = model::activated(step.book, seq_no, i);
    assert(model::waits(step.book, id));
    assert(model::order_valid(step.book, id));
    validity::lemma_cascade_step(step, seq_no);
    validity::lemma_released(step.book, i);
    assert(model::available_to(step.book, order) == model::available_to(
        step.book,
        step.book.orders[id],
    ));
    liquidity::lemma_sweep_fills(released, order);
    let out = model::sweep(released.side(order.side.other()), released.orders, order);
    assert(out.fills.len() > 0);
    assert(next.events[0] == EngineEvent::Trade(out.fills[0]));
    let then_step = Step { book: next.book, events: step.events + next.events };
    lemma_cascade_extends(then_step, seq_no);
    let k = step.events.len() as int;
    assert(then_step.events[k] == next.events[0]);
    assert(model::cascaded(step, seq_no).events[k] is Trade);
}

/// A new order that traded nothing and is open is undone by canceling it: both sides, the waiting
/// orders and every other order are as they were before it came, and the order is on record as
/// closed, with its whole quantity canceled.
#[verifier::spinoff_prover]
#[verifier::rlimit(40)]
pub proof fn law_cancel_undoes_new(
    book: BookModel,
    cmd: Command,
    order: NewOrder,
    then_cmd: Command,
    cancel: CancelOrder,
)
    requires
        at_rest(book),
        cmd.payload == CommandPayload::New(order),
        model::new_order_flaw(book, order) is None,
        then_cmd.payload == CommandPayload::Cancel(cancel),
        cancel.order_id == order.order_id,
        ({
            let first = model::processed(book, cmd);
            &&& forall|i: int|
                0 <= i < first.events.len() ==> !(#[trigger] first.events[i] is Trade)
            &&& first.book.orders.contains_key(order.order_id)
            &&& first.book.orders[order.order_id].is_open
        }),
    ensures
        ({
            let second = model::processed(model::processed(book, cmd).book, then_cmd);
            &&& second.book.bids == book.bids
            &&& second.book.asks == book.asks
            &&& second.book.waiting == book.waiting
            &&& second.book.orders == book.orders.insert(order.order_id, OrderState::of(order))
            &&& second.events == seq![
                EngineEvent::OrderCanceled {
                    seq_no: then_cmd.seq_no,
                    order_id: order.order_id,
                    remaining_qty: order.qty,
                },
                EngineEvent::BboChanged(model::bbo(second.book)),
            ]
            &&& model::cancel_flaw(second.book, cancel) == Some(RejectReason::NothingToCancel)
        }),
{
    let id = order.order_id;
    let start = BookModel { last_seq_no: cmd.seq_no, ..book };
    let state = OrderState::of(order);
    let step = model::applied(book, cmd);
    let last = model::cascaded(step, cmd.seq_no);
    let first = model::processed(book, cmd);
    lemma_renumbered_at_rest(book, cmd.seq_no);
    validity::lemma_applied(book, cmd);
    validity::lemma_processed(book, cmd);
    accounting::lemma_applied_closed(book, cmd);
    accounting::lemma_cascaded_closed(step, cmd.seq_no);
    accounting::lemma_cascaded_ids(step, cmd.seq_no);
    lemma_cascade_extends(step, cmd.seq_no);
    assert forall|i: int| 0 <= i < last.events.len() implies !(
    #[trigger] last.events[i] is Trade) by {
        assert(first.events[i] == last.events[i]);
    }
    assert(step.book.orders.contains_key(id));
    assert(step.book.orders[id].is_open);
    if order.condition != OrderCondition::Stop {
        let entered = model::entered(start, cmd.seq_no, state);
        assert forall|i: int| 0 <= i < entered.events.len() implies !(
        #[trigger] entered.events[i] is Trade) by {
            assert(step.events[i + 1] == entered.events[i]);
            assert(last.events[i + 1] == step.events[i + 1]);
        }
        lemma_untraded_entry(start, cmd.seq_no, state);
    }
    lemma_entry_lets_nothing_in(start, state, step, cmd.seq_no);
    assert(first.book == step.book);
    let middle = BookModel { last_seq_no: then_cmd.seq_no, ..first.book };
    let canceled = model::applied(first.book, then_cmd);
    validity::lemma_applied(first.book, then_cmd);
    law_withdrawal_undoes_entry(start, state);
    validity::lemma_off_book(start, id);
    lemma_push_remove(book.waiting, id);
    let resting = middle.orders[id];
    assert(resting == OrderState { is_open: true, ..state });
    assert(canceled.book.bids == book.bids);
    assert(canceled.book.asks == book.asks);
    assert(canceled.book.waiting == book.waiting);
    assert(canceled.book.orders =~= book.orders.insert(id, state));
    assert forall|i: int| 0 <= i < canceled.book.waiting.len() implies ({
        let waiting = canceled.book.orders[#[trigger] canceled.book.waiting[i]];
        waiting.condition == OrderCondition::AON ==> model::short_across(canceled.book, waiting)
    }) by {
        assert(book.waiting.contains(book.waiting[i]));
        let waiting = book.orders[book.waiting[i]];
        assert(waiting.condition == OrderCondition::AON ==> model::short_across(book, waiting));
        lemma_available_unqueued(book, canceled.book, id, state, waiting);
    }
    crossing::lemma_nothing_ready(canceled, then_cmd.seq_no);
    let second = model::processed(first.book, then_cmd);
    assert(second.events =~= seq![
        canceled.events[0],
        EngineEvent::BboChanged(model::bbo(second.book)),
    ]);
}

/// After a command no waiting order is one that may enter: no stop order is one that the command's
/// trades trigger, and every all-or-none order has some quantity within its limit, but not
/// enough.
pub proof fn law_ready_orders_enter(book: BookModel, cmd: Command)
    requires
        model::valid(book),
    ensures
        ({
            let done = model::processed(book, cmd);
            forall|i: int|
                0 <= i < done.book.waiting.len() ==> !model::ready(
                    done.book,
                    done.book.orders[#[trigger] done.book.waiting[i]],
                    done.events,
                )
        }),
{
    let step = model::applied(book, cmd);
    let last = model::cascaded(step, cmd.seq_no);
    let done = model::processed(book, cmd);
    lemma_cascade_ends(step, cmd.seq_no);
    validity::lemma_next_ready(last.book, last.events, 0);
    assert forall|i: int| 0 <= i < done.book.waiting.len() implies !model::ready(
        done.book,
        done.book.orders[#[trigger] done.book.waiting[i]],
        done.events,
    ) by {
        let order = done.book.orders[done.book.waiting[i]];
        assert(!model::ready(last.book, last.book.orders[last.book.waiting[i]], last.events));
        if model::triggered(order, done.events) {
            let j = choose|j: int|
                0 <= j < done.events.len() && model::trips(order, #[trigger] done.events[j]);
            assert(last.events[j] == done.events[j]);
        }
    }
}

/// A stop order stays pending through a command unless it is canceled or triggered: one that no
/// longer waits is canceled by the command or tripped by one of its trades.
pub proof fn law_stops_wait(book: BookModel, cmd: Command, id: OrderId)
    requires
        model::valid(book),
        book.waiting.contains(id),
        book.orders[id].condition == OrderCondition::Stop,
    ensures
        ({
            let done = model::processed(book, cmd);
            ||| done.book.waiting.contains(id) && done.book.orders[id] == book.orders[id]
            ||| cmd.payload matches CommandPayload::Cancel(cancel) && cancel.order_id == id
            ||| model::triggered(book.orders[id], done.events)
        }),
{
    let start = BookModel { last_seq_no: cmd.seq_no, ..book };
    let step = model::applied(book, cmd);
    let j = choose|j: int| 0 <= j < book.waiting.len() && book.waiting[j] == id;
    assert(model::waits(book, book.waiting[j]));
    validity::lemma_renumbered(book, cmd.seq_no);
    validity::lemma_applied(book, cmd);
    let canceled = cmd.payload matches CommandPayload::Cancel(cancel) && cancel.order_id == id;
    if !canceled {
        assert(step.book.waiting.contains(id) && step.book.orders[id] == book.orders[id]) by {
            match cmd.payload {
                CommandPayload::New(order) => {
                    if model::new_order_flaw(start, order) is None {
                        let state = OrderState::of(order);
                        if order.condition != OrderCondition::Stop {
                            validity::lemma_sweep(start, state);
                        }
                        if step.book.waiting != book.waiting {
                            assert(step.book.waiting == book.waiting.push(order.order_id));
                            assert(step.book.waiting[j] == id);
                        }
                    }
                },
                CommandPayload::Cancel(cancel) => {
                    if model::cancel_flaw(start, cancel) is None {
                        assert(model::order_valid(start, cancel.order_id));
                        if book.waiting.contains(cancel.order_id) {
                            quantities::lemma_remove_value(book.waiting, cancel.order_id);
                        }
                    }
                },
                CommandPayload::Replace(replace) => {
                    if model::replace_flaw(start, replace) is None {
                        assert(model::order_valid(start, replace.order_id));
                        if !book.waiting.contains(replace.order_id) {
                            validity::lemma_queued(start, replace.order_id);
                            validity::lemma_amended(start, replace);
                            let next = model::amended(start, replace);
                            assert(next.orders.contains_key(id));
                            validity::lemma_sweep(next, next.orders[replace.order_id]);
                        }
                    }
                },
            }
        }
        lemma_waits(step, cmd.seq_no, id);
        let last = model::cascaded(step, cmd.seq_no);
        let done = model::processed(book, cmd);
        if model::triggered(book.orders[id], last.events) {
            let k = choose|k: int|
                0 <= k < last.events.len() && model::trips(
                    book.orders[id],
                    #[trigger] last.events[k],
                );
            assert(done.events[k] == last.events[k]);
        }
    }
}

/// Through a cascade a stop order waits unless it is triggered.
proof fn lemma_waits(step: Step, seq_no: SeqNo, id: OrderId)
    requires
        model::valid(step.book),
        step.book.waiting.contains(id),
        step.book.orders[id].condition == OrderCondition::Stop,
    ensures
        ({
            let last = model::cascaded(step, seq_no);
            ||| last.book.waiting.contains(id) && last.book.orders[id] == step.book.orders[id]
            ||| model::triggered(step.book.orders[id], last.events)
        }),
    decreases step.book.waiting.len(),
{
    let i = model::next_ready(step.book, step.events, 0);
    if 0 <= i < step.book.waiting.len() {
        let start = step.book;
        let released = model::released(start, i);
        let order = model::underlying(start.orders[start.waiting[i]]);
        let next = model::activated(start, seq_no, i);
        validity::lemma_cascade_step(step, seq_no);
        validity::lemma_waiting(start);
        let then_step = Step { book: next.book, events: step.events + next.events };
        lemma_cascade_extends(then_step, seq_no);
        let last = model::cascaded(then_step, seq_no);
        if start.waiting[i] == id {
            let k = choose|k: int|
                0 <= k < step.events.len() && model::trips(
                    start.orders[id],
                    #[trigger] step.events[k],
                );
            assert(then_step.events[k] == step.events[k]);
            assert(last.events[k] == step.events[k]);
        } else {
            let j = choose|j: int| 0 <= j < start.waiting.len() && start.waiting[j] == id;
            let j2 = if j < i { j } else { j - 1 };
            assert(next.book.waiting[j2] == id);
            assert(released.waiting[j2] == id);
            assert(released.waiting.contains(id));
            assert(released.orders.contains_key(id));
            validity::lemma_sweep(released, order);
            assert(next.book.orders[id] == start.orders[id]);
            lemma_waits(then_step, seq_no, id);
        }
    }
}

/// A cascade adds events to those it starts from.
pub proof fn lemma_cascade_extends(step: Step, seq_no: SeqNo)
    ensures
        ({
            let last = model::cascaded(step, seq_no);
            &&& last.events.len() >= step.events.len()
            &&& forall|k: int|
                0 <= k < step.events.len() ==> #[trigger] last.events[k] == step.events[k]
        }),
    decreases step.book.waiting.len(),
{
    let i = model::next_ready(step.book, step.events, 0);
    if 0 <= i < step.book.waiting.len() {
        let next = model::activated(step.book, seq_no, i);
        let book = BookModel { waiting: step.book.waiting.remove(i), ..next.book };
        let then_step = Step { book, events: step.events + next.events };
        lemma_cascade_extends(then_step, seq_no);
        let last = model::cascaded(step, seq_no);
        assert forall|k: int| 0 <= k < step.events.len() implies #[trigger] last.events[k]
            == step.events[k] by {
            assert(then_step.events[k] == step.events[k]);
        }
    }
}

/// A cascade ends when no waiting order may enter.
proof fn lemma_cascade_ends(step: Step, seq_no: SeqNo)
    ensures
        ({
            let last = model::cascaded(step, seq_no);
            !(0 <= model::next_ready(last.book, last.events, 0) < last.book.waiting.len())
        }),
    decreases step.book.waiting.len(),
{
    let i = model::next_ready(step.book, step.events, 0);
    if 0 <= i < step.book.waiting.len() {
        let next = model::activated(step.book, seq_no, i);
        let book = BookModel { waiting: step.book.waiting.remove(i), ..next.book };
        lemma_cascade_ends(Step { book, events: step.events + next.events }, seq_no);
    }
}

/// A change at one level of a side that leaves something there, and no more than before, leaves
/// the waiting orders where they are. A change of the orders that touches no other queue is
/// allowed with it.
proof fn lemma_quiet_kept(
    book: BookModel,
    next: BookModel,
    side: Side,
    key: u64,
    id: OrderId,
    order: OrderState,
)
    requires
        at_rest(book),
        next.orders == book.orders.insert(id, order),
        !book.waiting.contains(id),
        next.waiting == book.waiting,
        next.bids == book.bids,
        next.asks == book.asks,
        model::rests_at(book.orders, id, side, key),
        book.side(side).contains_key(key),
        book.side(side)[key].contains(id),
        order.side == side,
        0 < order.open() <= book.orders[id].open(),
    ensures
        model::quiet(next),
{
    let queue = book.side(side)[key];
    assert(model::queue_valid(queue, book.orders, side, key));
    let at = choose|i: int| 0 <= i < queue.len() && queue[i] == id;
    quantities::lemma_qty_update(queue, book.orders, at, order);
    quantities::lemma_qty_member(queue, next.orders, at);
    assert forall|i: int| 0 <= i < next.waiting.len() implies ({
        let waiting = next.orders[#[trigger] next.waiting[i]];
        waiting.condition == OrderCondition::AON ==> model::short_across(next, waiting)
    }) by {
        assert(book.waiting.contains(book.waiting[i]));
        let waiting = book.orders[book.waiting[i]];
        if waiting.condition == OrderCondition::AON {
            let other = waiting.side.other();
            let levels = book.side(other);
            let reach = model::reach_of(waiting.order_type, waiting.side, waiting.price);
            assert(model::short_across(book, waiting));
            if other == side {
                assert forall|k: u64| #[trigger]
                    levels.contains_key(k) && k != key implies model::queued_qty(
                    levels[k],
                    next.orders,
                ) == model::queued_qty(levels[k], book.orders) by {
                    liquidity::lemma_other_levels(levels, book.orders, side, key, id, order, k);
                }
                liquidity::lemma_one_level(
                    levels,
                    book.orders,
                    levels,
                    next.orders,
                    key,
                    reach,
                );
            } else {
                assert forall|k: u64| #[trigger] levels.contains_key(k) implies !levels[k].contains(
                    id,
                ) by {
                    assert(model::queue_valid(levels[k], book.orders, other, k));
                }
                liquidity::lemma_available_absent(levels, book.orders, id, order, reach);
            }
        }
    }
}

/// A quantity reduction at the same price keeps a resting order's place in the queue: an
/// uncrossed book keeps both of its sides and its waiting orders, and nothing trades.
pub proof fn law_reduction_keeps_place(book: BookModel, cmd: Command, replace: ReplaceOrder)
    requires
        at_rest(book),
        model::uncrossed(book),
        cmd.payload == CommandPayload::Replace(replace),
        model::replace_flaw(book, replace) is None,
        !book.waiting.contains(replace.order_id),
        replace.new_price == book.orders[replace.order_id].price,
    ensures
        ({
            let done = model::processed(book, cmd);
            let order = book.orders[replace.order_id];
            &&& done.book.bids == book.bids
            &&& done.book.asks == book.asks
            &&& done.book.waiting == book.waiting
            &&& done.book.orders == book.orders.insert(
                replace.order_id,
                OrderState { original_qty: replace.new_qty, ..order },
            )
            &&& done.events.len() == 2
        }),
{
    let start = BookModel { last_seq_no: cmd.seq_no, ..book };
    let id = replace.order_id;
    lemma_renumbered_at_rest(book, cmd.seq_no);
    validity::lemma_queued(start, id);
    validity::lemma_amended(start, replace);
    let next = model::amended(start, replace);
    let order = next.orders[id];
    crossing::lemma_apart(book);
    crossing::lemma_apart(next);
    lemma_uncrossed_untraded(next, order);
    let step = model::applied(book, cmd);
    let replaced = EngineEvent::OrderReplaced {
        seq_no: cmd.seq_no,
        order_id: id,
        new_price: replace.new_price,
        new_qty: replace.new_qty,
    };
    assert(step.events =~= seq![replaced]);
    assert(step.book.orders =~= next.orders);
    assert(step.book == next);
    lemma_quiet_kept(
        start,
        next,
        order.side,
        book::rank(order.side, order.price),
        id,
        order,
    );
    crossing::lemma_nothing_ready(step, cmd.seq_no);
}

/// A resting order of an uncrossed book cannot trade.
proof fn lemma_uncrossed_untraded(book: BookModel, order: OrderState)
    requires
        model::valid(book),
        crossing::apart(book),
        order.order_type == OrderType::Limit,
        book.side(order.side).contains_key(book::rank(order.side, order.price)),
    ensures
        ({
            let levels = book.side(order.side.other());
            model::sweep(levels, book.orders, order) == (model::Sweep {
                levels,
                orders: book.orders,
                taker: order,
                fills: Seq::empty(),
            })
        }),
{
    let levels = book.side(order.side.other());
    let key = book::rank(order.side, order.price);
    if model::can_trade(levels, book.orders, order) {
        let best = ranking::least(levels);
        assert(levels.contains_key(best));
        assert(book.side(order.side).contains_key(key));
        assert(key + best > u64::MAX);
    }
}

/// A resting order moved to another price goes to the back of the queue there, and leaves the queue
/// it was in.
pub proof fn law_moved_to_the_back(book: BookModel, replace: ReplaceOrder)
    requires
        model::valid(book),
        model::replace_flaw(book, replace) is None,
        !book.waiting.contains(replace.order_id),
        replace.new_price != book.orders[replace.order_id].price,
    ensures
        ({
            let id = replace.order_id;
            let order = book.orders[id];
            let next = model::amended(book, replace);
            &&& fifo::queue_of(next, order.side, replace.new_price) == fifo::queue_of(
                book,
                order.side,
                replace.new_price,
            ).push(id)
            &&& !fifo::queue_of(next, order.side, order.price).contains(id)
        }),
{
    let id = replace.order_id;
    let order = book.orders[id];
    let next = model::amended(book, replace);
    validity::lemma_queued(book, id);
    quantities::lemma_remove_value(fifo::queue_of(book, order.side, order.price), id);
}

/// An immediate-or-cancel limit order without further condition is filled by what is available
/// within its limit, up to its quantity, and the rest of it is canceled; it does not rest.
pub proof fn law_immediate_or_cancel(book: BookModel, seq_no: SeqNo, order: OrderState)
    requires
        model::valid(book),
        validity::off_book(book, order.order_id),
        accounting::filled_of(book, order.order_id) == 0,
        order.filled_qty == 0,
        order.order_type == OrderType::Limit,
        order.tif == TimeInForce::IOC,
        order.condition == OrderCondition::Unconditional,
    ensures
        ({
            let step = model::entered(book, seq_no, order);
            let id = order.order_id;
            let possible = model::available_to(book, order);
            let qty = accounting::traded(step.events, id);
            &&& qty == (if possible < order.original_qty {
                possible
            } else {
                order.original_qty as nat
            })
            &&& !step.book.orders[id].is_open
            &&& qty < order.original_qty ==> step.events.last() == EngineEvent::OrderCanceled {
                seq_no,
                order_id: id,
                remaining_qty: (order.original_qty - qty) as u64,
            }
        }),
{
    accounting::lemma_entered_traded(book, seq_no, order, order.order_id);
    liquidity::lemma_sweep_fills(book, order);
    validity::lemma_sweep(book, order);
}

/// A market order without further condition, not fill-or-kill, is filled by what the opposite
/// side has, up to its quantity. The rest is canceled, or the order rejected if there was
/// nothing; it does not rest.
pub proof fn law_market(book: BookModel, seq_no: SeqNo, order: OrderState)
    requires
        model::valid(book),
        validity::off_book(book, order.order_id),
        accounting::filled_of(book, order.order_id) == 0,
        order.filled_qty == 0,
        order.original_qty > 0,
        order.order_type == OrderType::Market,
        order.tif != TimeInForce::FOK,
        order.condition == OrderCondition::Unconditional,
    ensures
        ({
            let step = model::entered(book, seq_no, order);
            let id = order.order_id;
            let possible = model::available(
                book.side(order.side.other()),
                book.orders,
                u64::MAX,
            );
            let qty = accounting::traded(step.events, id);
            &&& qty == (if possible < order.original_qty {
                possible
            } else {
                order.original_qty as nat
            })
            &&& !step.book.orders[id].is_open
            &&& qty == 0 ==> step.events.last() == EngineEvent::OrderRejected {
                seq_no,
                order_id: id,
                reason: RejectReason::NoLiquidity,
            }
            &&& 0 < qty < order.original_qty ==> step.events.last() == EngineEvent::OrderCanceled {
                seq_no,
                order_id: id,
                remaining_qty: (order.original_qty - qty) as u64,
            }
        }),
{
    accounting::lemma_entered_traded(book, seq_no, order, order.order_id);
    liquidity::lemma_sweep_fills(book, order);
    validity::lemma_sweep(book, order);
}

} // verus!
