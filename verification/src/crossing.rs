//! Every command leaves the book uncrossed.
use crate::book;
use crate::liquidity;
use crate::model;
use crate::model::{BookModel, Step};
use crate::ranking;
use crate::types::{
    Command, CommandPayload, OrderCondition, OrderState, OrderType, ReplaceOrder, SeqNo,
    TimeInForce,
};
use crate::validity;
use vstd::prelude::*;

verus! {

/// Every bid is below every ask. The keys of a bid and an ask at the same price add up to the
/// largest key.
pub open spec fn apart(book: BookModel) -> bool {
    forall|bid: u64, ask: u64| #[trigger]
        book.bids.contains_key(bid) && #[trigger] book.asks.contains_key(ask) ==> bid + ask
            > u64::MAX
}

/// The best bid is below the best ask exactly if every bid is below every ask.
pub proof fn lemma_apart(book: BookModel)
    requires
        model::valid(book),
    ensures
        model::uncrossed(book) <==> apart(book),
{
    if book.bids.dom().len() > 0 {
        ranking::lemma_least_exists(book.bids);
    } else {
        assert(forall|key: u64| !book.bids.dom().contains(key));
    }
    if book.asks.dom().len() > 0 {
        ranking::lemma_least_exists(book.asks);
    } else {
        assert(forall|key: u64| !book.asks.dom().contains(key));
    }
}

/// A sweep opens no level.
proof fn lemma_sweep_levels(book: BookModel, taker: OrderState)
    requires
        model::valid(book),
        taker.filled_qty <= taker.original_qty,
    ensures
        ({
            let levels = book.side(taker.side.other());
            let out = model::sweep(levels, book.orders, taker);
            forall|key: u64| #[trigger] out.levels.contains_key(key) ==> levels.contains_key(key)
        }),
    decreases taker.open(),
{
    let side = taker.side.other();
    let levels = book.side(side);
    if model::can_trade(levels, book.orders, taker) {
        let next = model::after_fill(book, taker);
        let next_taker = model::next_taker(levels, book.orders, taker);
        validity::lemma_front(levels, book.orders, side);
        validity::lemma_fill_valid(book, taker);
        lemma_sweep_levels(next, next_taker);
        assert(next.side(side) == model::next_levels(levels, book.orders, taker));
    }
}

/// After a sweep, a taker with quantity left is below every level of the swept side.
proof fn lemma_swept_apart(book: BookModel, taker: OrderState, key: u64)
    requires
        model::valid(book),
        taker.filled_qty <= taker.original_qty,
        taker.order_type == OrderType::Limit,
        ({
            let out = model::sweep(book.side(taker.side.other()), book.orders, taker);
            &&& out.taker.open() > 0
            &&& out.levels.contains_key(key)
        }),
    ensures
        key + book::rank(taker.side, taker.price) > u64::MAX,
{
    let side = taker.side.other();
    let after = model::swept(book, taker);
    let out = model::sweep(book.side(side), book.orders, taker);
    validity::lemma_sweep(book, taker);
    assert(after.side(side) == out.levels);
    assert(out.levels.dom().contains(key));
    ranking::lemma_least_exists(out.levels);
    validity::lemma_front(out.levels, out.orders, side);
    assert(model::order_valid(after, model::front(out.levels)));
}

/// Entering an order leaves the book uncrossed: it rests only where nothing of the opposite side
/// is within its limit.
proof fn lemma_entered_apart(book: BookModel, seq_no: SeqNo, order: OrderState)
    requires
        model::valid(book),
        apart(book),
        validity::off_book(book, order.order_id),
        order.filled_qty == 0,
        order.original_qty > 0,
    ensures
        apart(model::entered(book, seq_no, order).book),
{
    let side = order.side.other();
    let levels = book.side(side);
    let key = book::rank(order.side, order.price);
    if order.tif == TimeInForce::FOK && model::short_of(book, order) {
    } else if order.condition == OrderCondition::AON && model::short_of(book, order) {
        if order.tif == TimeInForce::GTC && order.order_type == OrderType::Limit
            && !model::short_across(book, order) {
            liquidity::lemma_sweep_fills(book, order);
            lemma_untraded(book, order);
            assert forall|other: u64| #[trigger] levels.contains_key(other) implies other + key
                > u64::MAX by {
                lemma_swept_apart(book, order, other);
            }
        }
    } else {
        let out = model::sweep(levels, book.orders, order);
        validity::lemma_sweep(book, order);
        lemma_sweep_levels(book, order);
        liquidity::lemma_sweep_fills(book, order);
        if out.taker.open() > 0 && order.order_type == OrderType::Limit {
            assert forall|other: u64| #[trigger] out.levels.contains_key(other) implies other + key
                > u64::MAX by {
                lemma_swept_apart(book, order, other);
            }
        }
    }
}

/// A sweep that fills nothing changes nothing.
pub proof fn lemma_untraded(book: BookModel, taker: OrderState)
    requires
        model::valid(book),
        taker.filled_qty <= taker.original_qty,
        ({
            let out = model::sweep(book.side(taker.side.other()), book.orders, taker);
            out.taker.filled_qty == taker.filled_qty
        }),
    ensures
        ({
            let levels = book.side(taker.side.other());
            let out = model::sweep(levels, book.orders, taker);
            &&& out.levels == levels
            &&& out.orders == book.orders
            &&& out.taker == taker
            &&& out.fills.len() == 0
        }),
{
    let side = taker.side.other();
    let levels = book.side(side);
    if model::can_trade(levels, book.orders, taker) {
        let next = model::after_fill(book, taker);
        let next_taker = model::next_taker(levels, book.orders, taker);
        validity::lemma_front(levels, book.orders, side);
        assert(model::order_valid(book, model::front(levels)));
        validity::lemma_fill_valid(book, taker);
        validity::lemma_sweep(next, next_taker);
        assert(next.side(side) == model::next_levels(levels, book.orders, taker));
    }
}

/// A replace request leaves the book uncrossed.
proof fn lemma_replace_apart(book: BookModel, seq_no: SeqNo, replace: ReplaceOrder)
    requires
        model::valid(book),
        apart(book),
    ensures
        apart(model::replace_order(book, seq_no, replace).book),
{
    if model::replace_flaw(book, replace) is None && !book.waiting.contains(replace.order_id) {
        let id = replace.order_id;
        validity::lemma_queued(book, id);
        validity::lemma_amended(book, replace);
        let next = model::amended(book, replace);
        let order = next.orders[id];
        let side = order.side.other();
        let out = model::sweep(next.side(side), next.orders, order);
        let key = book::rank(order.side, order.price);
        let after = model::swept(next, order);
        let last = model::rematched(after, out.taker);
        validity::lemma_sweep(next, order);
        lemma_sweep_levels(next, order);
        if out.taker.open() > 0 {
            assert forall|other: u64| #[trigger] out.levels.contains_key(other) implies other + key
                > u64::MAX by {
                lemma_swept_apart(next, order, other);
            }
        } else if replace.new_price != book.orders[id].price {
            lemma_only_member(book, replace);
        }
    }
}

/// An order moved to a price of its own stands alone there.
proof fn lemma_only_member(book: BookModel, replace: ReplaceOrder)
    requires
        model::valid(book),
        model::replace_flaw(book, replace) is None,
        !book.waiting.contains(replace.order_id),
        replace.new_price != book.orders[replace.order_id].price,
    ensures
        ({
            let order = book.orders[replace.order_id];
            let key = book::rank(order.side, replace.new_price);
            let levels = model::amended(book, replace).side(order.side);
            !book.side(order.side).contains_key(key) ==> model::dequeue(
                levels,
                key,
                replace.order_id,
            ) == levels.remove(key)
        }),
{
    let id = replace.order_id;
    let order = book.orders[id];
    let key = book::rank(order.side, replace.new_price);
    validity::lemma_queued(book, id);
    let levels = model::amended(book, replace).side(order.side);
    if !book.side(order.side).contains_key(key) {
        let queue = levels[key];
        assert(queue =~= seq![id]);
        assert(queue[0] == id);
        queue.index_of_first_ensures(id);
    }
}

/// Letting waiting orders enter leaves the book uncrossed.
proof fn lemma_cascaded_apart(step: Step, seq_no: SeqNo)
    requires
        model::valid(step.book),
        apart(step.book),
    ensures
        apart(model::cascaded(step, seq_no).book),
    decreases step.book.waiting.len(),
{
    let i = model::next_ready(step.book, step.events, 0);
    if 0 <= i < step.book.waiting.len() {
        let next = model::activated(step.book, seq_no, i);
        validity::lemma_cascade_step(step, seq_no);
        lemma_entered_apart(
            model::released(step.book, i),
            seq_no,
            model::underlying(step.book.orders[step.book.waiting[i]]),
        );
        let book = BookModel { waiting: step.book.waiting.remove(i), ..next.book };
        assert(book == next.book);
        lemma_cascaded_apart(Step { book, events: step.events + next.events }, seq_no);
    }
}

/// Where no waiting all-or-none order may enter, events without a trade let no order in.
pub proof fn lemma_nothing_ready(step: Step, seq_no: SeqNo)
    requires
        model::valid(step.book),
        model::quiet(step.book),
        forall|i: int| 0 <= i < step.events.len() ==> !(#[trigger] step.events[i] is Trade),
    ensures
        model::cascaded(step, seq_no) == step,
{
    validity::lemma_next_ready(step.book, step.events, 0);
    let i = model::next_ready(step.book, step.events, 0);
    if i < step.book.waiting.len() {
        assert(model::waits(step.book, step.book.waiting[i]));
    }
}

/// A command keeps an uncrossed book uncrossed.
pub proof fn law_uncrossed(book: BookModel, cmd: Command)
    requires
        model::valid(book),
        model::uncrossed(book),
    ensures
        model::uncrossed(model::processed(book, cmd).book),
{
    let start = BookModel { last_seq_no: cmd.seq_no, ..book };
    let step = model::applied(book, cmd);
    validity::lemma_renumbered(book, cmd.seq_no);
    validity::lemma_applied(book, cmd);
    validity::lemma_processed(book, cmd);
    lemma_apart(book);
    lemma_apart(model::processed(book, cmd).book);
    match cmd.payload {
        CommandPayload::New(order) => {
            if model::new_order_flaw(start, order) is None && order.condition
                != OrderCondition::Stop {
                lemma_entered_apart(start, cmd.seq_no, OrderState::of(order));
            }
        },
        CommandPayload::Cancel(_) => {},
        CommandPayload::Replace(replace) => {
            lemma_replace_apart(start, cmd.seq_no, replace);
        },
    }
    lemma_cascaded_apart(step, cmd.seq_no);
}

} // verus!
