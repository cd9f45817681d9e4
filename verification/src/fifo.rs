//! First in, first out: no command lets an order overtake another within a price level.
use crate::accounting;
use crate::book;
use crate::model;
use crate::model::{BookModel, Step};
use crate::outcome;
use crate::quantities;
use crate::ranking;
use crate::standing;
use crate::types::{
    CancelOrder, Command, CommandPayload, NewOrder, OrderCondition, OrderId, OrderState,
    ReplaceOrder, SeqNo, Side, TimeInForce,
};
use crate::validity;
use crate::volume;
use vstd::prelude::*;

verus! {

/// `a` stands before `b` in the queue.
pub open spec fn ahead(queue: Seq<OrderId>, a: OrderId, b: OrderId) -> bool {
    exists|i: int, j: int|
        0 <= i < j < queue.len() && #[trigger] queue[i] == a && #[trigger] queue[j] == b
}

/// The queue of a price level.
pub open spec fn queue_of(book: BookModel, side: Side, price: u64) -> Seq<OrderId> {
    model::queue_at(book.side(side), book::rank(side, price))
}

/// The order neither stands in the queue nor waits.
pub open spec fn gone(book: BookModel, side: Side, key: u64, id: OrderId) -> bool {
    &&& !model::queue_at(book.side(side), key).contains(id)
    &&& !book.waiting.contains(id)
}

/// `a` stands before `b`, or one of them left the queue.
pub open spec fn in_order(book: BookModel, side: Side, key: u64, a: OrderId, b: OrderId) -> bool {
    ||| ahead(model::queue_at(book.side(side), key), a, b)
    ||| gone(book, side, key, a)
    ||| gone(book, side, key, b)
}

/// The orders in a queue are distinct, rest there and do not wait.
pub proof fn lemma_queue_distinct(book: BookModel, side: Side, key: u64)
    requires
        model::valid(book),
    ensures
        model::queue_at(book.side(side), key).no_duplicates(),
        forall|x: OrderId| #[trigger]
            model::queue_at(book.side(side), key).contains(x) ==> {
                &&& model::rests_at(book.orders, x, side, key)
                &&& !book.waiting.contains(x)
            },
{
    let queue = model::queue_at(book.side(side), key);
    if book.side(side).contains_key(key) {
        assert(model::queue_valid(queue, book.orders, side, key));
        assert forall|x: OrderId| #[trigger] queue.contains(x) implies model::rests_at(
            book.orders,
            x,
            side,
            key,
        ) && !book.waiting.contains(x) by {
            let i = choose|i: int| 0 <= i < queue.len() && queue[i] == x;
            assert(model::rests_at(book.orders, queue[i], side, key));
            if book.waiting.contains(x) {
                let j = choose|j: int| 0 <= j < book.waiting.len() && book.waiting[j] == x;
                assert(book.orders[book.waiting[j]].condition == OrderCondition::Stop);
            }
        }
    }
}

/// A queue that lost orders at its head keeps the others in order.
proof fn lemma_ahead_skip(queue: Seq<OrderId>, n: int, a: OrderId, b: OrderId)
    requires
        0 <= n <= queue.len(),
        queue.no_duplicates(),
        ahead(queue, a, b),
    ensures
        ahead(queue.skip(n), a, b) || !queue.skip(n).contains(a) || !queue.skip(n).contains(b),
        forall|x: OrderId| #[trigger] queue.skip(n).contains(x) ==> queue.contains(x),
{
    let rest = queue.skip(n);
    let (i, j) = choose|i: int, j: int|
        0 <= i < j < queue.len() && #[trigger] queue[i] == a && #[trigger] queue[j] == b;
    if rest.contains(a) {
        let k = choose|k: int| 0 <= k < rest.len() && rest[k] == a;
        assert(queue[k + n] == a);
        assert(rest[i - n] == a && rest[j - n] == b);
    }
    lemma_skip_members(queue, n);
}

proof fn lemma_skip_members(queue: Seq<OrderId>, n: int)
    requires
        0 <= n <= queue.len(),
    ensures
        forall|x: OrderId| #[trigger] queue.skip(n).contains(x) ==> queue.contains(x),
{
    let rest = queue.skip(n);
    assert forall|x: OrderId| #[trigger] rest.contains(x) implies queue.contains(x) by {
        let k = choose|k: int| 0 <= k < rest.len() && rest[k] == x;
        assert(queue[k + n] == x);
    }
}

/// A queue that gained an order at its back keeps the others in order.
proof fn lemma_ahead_push(queue: Seq<OrderId>, id: OrderId, a: OrderId, b: OrderId)
    requires
        ahead(queue, a, b),
    ensures
        ahead(queue.push(id), a, b),
{
    let (i, j) = choose|i: int, j: int|
        0 <= i < j < queue.len() && #[trigger] queue[i] == a && #[trigger] queue[j] == b;
    assert(queue.push(id)[i] == a && queue.push(id)[j] == b);
}

/// A queue that lost one order keeps the others in order.
pub proof fn lemma_ahead_remove(queue: Seq<OrderId>, id: OrderId, a: OrderId, b: OrderId)
    requires
        queue.no_duplicates(),
        queue.contains(id),
        ahead(queue, a, b),
        a != id,
        b != id,
    ensures
        ahead(queue.remove_value(id), a, b),
{
    quantities::lemma_remove_value(queue, id);
    let k = choose|k: int|
        0 <= k < queue.len() && queue[k] == id && queue.remove_value(id) == queue.remove(k);
    let (i, j) = choose|i: int, j: int|
        0 <= i < j < queue.len() && #[trigger] queue[i] == a && #[trigger] queue[j] == b;
    let i2 = if i < k { i } else { i - 1 };
    let j2 = if j < k { j } else { j - 1 };
    assert(queue.remove(k)[i2] == a && queue.remove(k)[j2] == b);
}

/// A sweep takes orders from the head of a queue only.
proof fn lemma_sweep_queue(book: BookModel, taker: OrderState, key: u64) -> (n: int)
    requires
        model::valid(book),
        taker.filled_qty <= taker.original_qty,
    ensures
        ({
            let levels = book.side(taker.side.other());
            let queue = model::queue_at(levels, key);
            let out = model::sweep(levels, book.orders, taker);
            &&& 0 <= n <= queue.len()
            &&& model::queue_at(out.levels, key) == queue.skip(n)
        }),
    decreases taker.open(),
{
    let side = taker.side.other();
    let levels = book.side(side);
    let queue = model::queue_at(levels, key);
    if model::can_trade(levels, book.orders, taker) {
        let next = model::after_fill(book, taker);
        let next_taker = model::next_taker(levels, book.orders, taker);
        validity::lemma_front(levels, book.orders, side);
        validity::lemma_fill_valid(book, taker);
        let n = lemma_sweep_queue(next, next_taker, key);
        assert(next.side(side) == model::next_levels(levels, book.orders, taker));
        let rest = model::queue_at(next.side(side), key);
        if key == ranking::least(levels) && model::next_fill(
            levels,
            book.orders,
            taker,
        ).maker_filled_completely {
            assert(rest =~= queue.drop_first());
            assert(rest.skip(n) =~= queue.skip(n + 1));
            n + 1
        } else {
            assert(rest == queue);
            n
        }
    } else {
        assert(queue.skip(0) =~= queue);
        0
    }
}

/// Entering an order takes orders from the head of a queue and adds the order itself, if at all,
/// at the back.
pub proof fn lemma_entered_queue(
    book: BookModel,
    seq_no: SeqNo,
    order: OrderState,
    side: Side,
    key: u64,
) -> (n: int)
    requires
        model::valid(book),
        order.filled_qty <= order.original_qty,
    ensures
        ({
            let queue = model::queue_at(book.side(side), key);
            let after = model::queue_at(model::entered(book, seq_no, order).book.side(side), key);
            &&& 0 <= n <= queue.len()
            &&& after == queue.skip(n) || after == queue.skip(n).push(order.order_id)
        }),
{
    let queue = model::queue_at(book.side(side), key);
    let matched = !((order.tif == TimeInForce::FOK || order.condition == OrderCondition::AON)
        && model::short_of(book, order));
    assert(queue.skip(0) =~= queue);
    if matched {
        validity::lemma_sweep(book, order);
        if side == order.side.other() {
            lemma_sweep_queue(book, order, key)
        } else {
            0
        }
    } else {
        0
    }
}

/// Entering an order keeps the other orders of a queue in order.
pub proof fn lemma_entered_in_order(
    book: BookModel,
    seq_no: SeqNo,
    order: OrderState,
    side: Side,
    key: u64,
    a: OrderId,
    b: OrderId,
)
    requires
        model::valid(book),
        validity::off_book(book, order.order_id),
        order.filled_qty == 0,
        order.original_qty > 0,
        order.condition != OrderCondition::Stop,
        in_order(book, side, key, a, b),
        gone(book, side, key, a) ==> a != order.order_id || ahead(
            model::queue_at(book.side(side), key),
            a,
            b,
        ) || (gone(book, side, key, b) && b != order.order_id),
        gone(book, side, key, b) ==> b != order.order_id || ahead(
            model::queue_at(book.side(side), key),
            a,
            b,
        ) || (gone(book, side, key, a) && a != order.order_id),
    ensures
        in_order(model::entered(book, seq_no, order).book, side, key, a, b),
{
    let queue = model::queue_at(book.side(side), key);
    let step = model::entered(book, seq_no, order);
    let after = model::queue_at(step.book.side(side), key);
    let n = lemma_entered_queue(book, seq_no, order, side, key);
    let rest = queue.skip(n);
    validity::lemma_entered(book, seq_no, order);
    lemma_queue_distinct(book, side, key);
    lemma_skip_members(queue, n);
    assert forall|x: OrderId| #[trigger] rest.push(order.order_id).contains(x) implies rest.contains(
        x,
    ) || x == order.order_id by {
        let k = choose|k: int|
            0 <= k < rest.push(order.order_id).len() && rest.push(order.order_id)[k] == x;
        if k < rest.len() {
            assert(rest[k] == x);
        }
    }
    if ahead(queue, a, b) {
        let (i, j) = choose|i: int, j: int|
            0 <= i < j < queue.len() && #[trigger] queue[i] == a && #[trigger] queue[j] == b;
        assert(queue.contains(a) && queue.contains(b));
        lemma_ahead_skip(queue, n, a, b);
        if ahead(rest, a, b) {
            lemma_ahead_push(rest, order.order_id, a, b);
        }
    }
}

/// Letting waiting orders enter keeps the orders of a queue in order.
pub proof fn lemma_cascaded_in_order(
    step: Step,
    seq_no: SeqNo,
    side: Side,
    key: u64,
    a: OrderId,
    b: OrderId,
)
    requires
        model::valid(step.book),
        in_order(step.book, side, key, a, b),
    ensures
        in_order(model::cascaded(step, seq_no).book, side, key, a, b),
    decreases step.book.waiting.len(),
{
    let i = model::next_ready(step.book, step.events, 0);
    if 0 <= i < step.book.waiting.len() {
        let id = step.book.waiting[i];
        let released = model::released(step.book, i);
        let order = model::underlying(step.book.orders[id]);
        let next = model::activated(step.book, seq_no, i);
        validity::lemma_cascade_step(step, seq_no);
        assert(step.book.waiting.contains(id));
        quantities::lemma_remove_value(step.book.waiting, id);
        assert forall|x: OrderId| gone(step.book, side, key, x) implies #[trigger] gone(
            released,
            side,
            key,
            x,
        ) && x != id by {
            if released.waiting.contains(x) {
                let k = choose|k: int| 0 <= k < released.waiting.len() && released.waiting[k] == x;
                let k2 = if k < i { k } else { k + 1 };
                assert(step.book.waiting[k2] == x);
            }
        }
        assert(in_order(released, side, key, a, b)) by {
            assert(gone(step.book, side, key, a) ==> gone(released, side, key, a));
            assert(gone(step.book, side, key, b) ==> gone(released, side, key, b));
        }
        assert(gone(step.book, side, key, a) ==> gone(released, side, key, a) && a != id);
        assert(gone(step.book, side, key, b) ==> gone(released, side, key, b) && b != id);
        lemma_entered_in_order(released, seq_no, order, side, key, a, b);
        let book = BookModel { waiting: step.book.waiting.remove(i), ..next.book };
        assert(book == next.book);
        lemma_cascaded_in_order(
            Step { book, events: step.events + next.events },
            seq_no,
            side,
            key,
            a,
            b,
        );
    }
}

/// A cancel request keeps the orders of a queue in order.
pub proof fn lemma_cancel_in_order(
    book: BookModel,
    seq_no: SeqNo,
    cancel: CancelOrder,
    side: Side,
    key: u64,
    a: OrderId,
    b: OrderId,
)
    requires
        model::valid(book),
        ahead(model::queue_at(book.side(side), key), a, b),
    ensures
        in_order(model::cancel_order(book, seq_no, cancel).book, side, key, a, b),
{
    let queue = model::queue_at(book.side(side), key);
    lemma_queue_distinct(book, side, key);
    lemma_members(queue, a, b);
    if model::cancel_flaw(book, cancel) is None {
        let id = cancel.order_id;
        let order = book.orders[id];
        let after = model::cancel_order(book, seq_no, cancel).book;
        assert(model::order_valid(book, id));
        if !book.waiting.contains(id) {
            validity::lemma_queued(book, id);
            if order.side == side && book::rank(order.side, order.price) == key {
                quantities::lemma_remove_value(queue, id);
                assert(model::queue_at(after.side(side), key) =~= queue.remove_value(id));
                if a != id && b != id {
                    lemma_ahead_remove(queue, id, a, b);
                }
            } else {
                assert(model::queue_at(after.side(side), key) == queue);
            }
        } else {
            assert(model::queue_at(after.side(side), key) == queue);
        }
    }
}

/// Orders of which one stands before the other are in the queue.
pub proof fn lemma_members(queue: Seq<OrderId>, a: OrderId, b: OrderId)
    requires
        ahead(queue, a, b),
    ensures
        queue.contains(a),
        queue.contains(b),
{
    let (i, j) = choose|i: int, j: int|
        0 <= i < j < queue.len() && #[trigger] queue[i] == a && #[trigger] queue[j] == b;
    assert(queue[i] == a && queue[j] == b);
}

/// A replace request keeps the orders of a queue in order.
pub proof fn lemma_replace_in_order(
    book: BookModel,
    seq_no: SeqNo,
    replace: ReplaceOrder,
    side: Side,
    key: u64,
    a: OrderId,
    b: OrderId,
)
    requires
        model::valid(book),
        ahead(model::queue_at(book.side(side), key), a, b),
    ensures
        in_order(model::replace_order(book, seq_no, replace).book, side, key, a, b),
{
    let queue = model::queue_at(book.side(side), key);
    lemma_queue_distinct(book, side, key);
    lemma_members(queue, a, b);
    if model::replace_flaw(book, replace) is None && book.waiting.contains(replace.order_id) {
        assert(model::queue_at(model::amended(book, replace).side(side), key) == queue);
    } else if model::replace_flaw(book, replace) is None {
        let id = replace.order_id;
        let old_order = book.orders[id];
        validity::lemma_queued(book, id);
        validity::lemma_amended(book, replace);
        let next = model::amended(book, replace);
        let order = next.orders[id];
        let out = model::sweep(next.side(order.side.other()), next.orders, order);
        let after = model::swept(next, order);
        let last = model::rematched(after, out.taker);
        validity::lemma_sweep(next, order);
        let moved = model::queue_at(next.side(side), key);
        if side != order.side {
            let n = lemma_sweep_queue(next, order, key);
            assert(moved == queue);
            assert(model::queue_at(last.side(side), key) == queue.skip(n));
            lemma_ahead_skip(queue, n, a, b);
        } else {
            let old_key = book::rank(old_order.side, old_order.price);
            let new_key = book::rank(order.side, order.price);
            assert(after.side(side) == next.side(side));
            if new_key == old_key {
                assert(moved == queue);
                lemma_leaves_in_order(after, out.taker, queue, side, key, a, b);
            } else if key == old_key {
                quantities::lemma_remove_value(queue, id);
                assert(moved =~= queue.remove_value(id));
                if a != id && b != id {
                    lemma_ahead_remove(queue, id, a, b);
                }
                assert(model::queue_at(last.side(side), key) == moved);
            } else if key == new_key {
                assert(moved == queue.push(id));
                assert(moved[queue.len() as int] == id);
                lemma_ahead_push(queue, id, a, b);
                lemma_leaves_in_order(after, out.taker, moved, side, key, a, b);
            } else {
                assert(moved == queue);
                assert(model::queue_at(last.side(side), key) == queue);
            }
        }
    }
}

/// A resting order that leaves after a match, or stays, keeps the others in order.
proof fn lemma_leaves_in_order(
    book: BookModel,
    taker: OrderState,
    queue: Seq<OrderId>,
    side: Side,
    key: u64,
    a: OrderId,
    b: OrderId,
)
    requires
        model::valid(book),
        taker.side == side,
        !book.waiting.contains(taker.order_id),
        queue == model::queue_at(book.side(side), key),
        ahead(queue, a, b),
        book::rank(side, taker.price) == key ==> queue.contains(taker.order_id),
    ensures
        in_order(model::rematched(book, taker), side, key, a, b),
{
    let id = taker.order_id;
    let last = model::rematched(book, taker);
    lemma_queue_distinct(book, side, key);
    lemma_members(queue, a, b);
    if taker.open() == 0 && book::rank(side, taker.price) == key {
        quantities::lemma_remove_value(queue, id);
        assert(model::queue_at(last.side(side), key) =~= queue.remove_value(id));
        if a != id && b != id {
            lemma_ahead_remove(queue, id, a, b);
        }
    } else {
        assert(model::queue_at(last.side(side), key) == queue);
    }
}

/// First in, first out: of two orders in the queue of a price, a command that leaves both in it
/// leaves them in the same order.
pub proof fn law_no_overtaking(
    book: BookModel,
    cmd: Command,
    side: Side,
    price: u64,
    a: OrderId,
    b: OrderId,
)
    requires
        model::valid(book),
        ahead(queue_of(book, side, price), a, b),
        queue_of(model::processed(book, cmd).book, side, price).contains(a),
        queue_of(model::processed(book, cmd).book, side, price).contains(b),
    ensures
        ahead(queue_of(model::processed(book, cmd).book, side, price), a, b),
{
    let key = book::rank(side, price);
    let start = BookModel { last_seq_no: cmd.seq_no, ..book };
    let step = model::applied(book, cmd);
    let queue = model::queue_at(start.side(side), key);
    validity::lemma_renumbered(book, cmd.seq_no);
    validity::lemma_applied(book, cmd);
    assert(start.side(side) == book.side(side));
    lemma_queue_distinct(start, side, key);
    lemma_members(queue, a, b);
    assert(in_order(step.book, side, key, a, b)) by {
        match cmd.payload {
            CommandPayload::New(order) => {
                if model::new_order_flaw(start, order) is None {
                    if order.condition == OrderCondition::Stop {
                        assert(step.book.side(side) == start.side(side));
                    } else {
                        let state = OrderState::of(order);
                        lemma_entered_in_order(start, cmd.seq_no, state, side, key, a, b);
                    }
                }
            },
            CommandPayload::Cancel(cancel) => {
                lemma_cancel_in_order(start, cmd.seq_no, cancel, side, key, a, b);
            },
            CommandPayload::Replace(replace) => {
                lemma_replace_in_order(start, cmd.seq_no, replace, side, key, a, b);
            },
        }
    }
    lemma_cascaded_in_order(step, cmd.seq_no, side, key, a, b);
}

/// A limit order that rests does so at the back of the queue of its price.
pub proof fn law_rests_at_the_back(book: BookModel, order: OrderState)
    ensures
        ({
            let queue = queue_of(book, order.side, order.price);
            let after = queue_of(model::rested(book, order), order.side, order.price);
            after == queue.push(order.order_id)
        }),
{
}

/// A resting order is in the queue of its price.
pub proof fn lemma_rests_queued(book: BookModel, id: OrderId)
    requires
        model::valid(book),
        standing::rests(book, id),
    ensures
        queue_of(book, book.orders[id].side, book.orders[id].price).contains(id),
{
    assert(model::order_valid(book, id));
}

/// A new order that comes to rest stands behind every order that rested at its price before it
/// came and still does.
pub proof fn law_new_orders_queue_last(book: BookModel, cmd: Command, order: NewOrder, x: OrderId)
    requires
        model::valid(book),
        standing::still(book),
        cmd.payload == CommandPayload::New(order),
        outcome::acceptable(book, order),
        standing::resting(book, order.side, order.price).contains(x),
        standing::rests(model::processed(book, cmd).book, x),
        standing::rests(model::processed(book, cmd).book, order.order_id),
    ensures
        ahead(
            queue_of(model::processed(book, cmd).book, order.side, order.price),
            x,
            order.order_id,
        ),
{
    let start = BookModel { last_seq_no: cmd.seq_no, ..book };
    let id = order.order_id;
    let side = order.side;
    let key = book::rank(side, order.price);
    let step = model::applied(book, cmd);
    let state = OrderState::of(order);
    let done = model::processed(book, cmd).book;
    validity::lemma_renumbered(book, cmd.seq_no);
    validity::lemma_applied(book, cmd);
    validity::lemma_processed(book, cmd);
    lemma_rests_queued(book, x);
    if order.condition == OrderCondition::Stop {
        volume::law_stop_orders_start_to_wait(book, cmd, order);
        assert(done.waiting.last() == id);
        assert(false);
    }
    volume::lemma_new_order(book, cmd, order);
    outcome::lemma_entered_other(start, cmd.seq_no, state, x);
    let queue = model::queue_at(start.side(side), key);
    let after = model::queue_at(step.book.side(side), key);
    lemma_queue_distinct(step.book, side, key);
    validity::lemma_off_book(start, id);
    validity::lemma_sweep(start, state);
    assert(in_order(step.book, side, key, x, id)) by {
        assert(after == queue || after == queue.push(id));
        if after == queue.push(id) {
            let i = choose|i: int| 0 <= i < queue.len() && queue[i] == x;
            assert(after[i] == x && after[queue.len() as int] == id);
        } else {
            assert(start.side(side).contains_key(key) ==> !queue.contains(id)) by {
                match side {
                    Side::Buy => assert(start.bids.contains_key(key)
                        ==> !start.bids[key].contains(id)),
                    Side::Sell => assert(start.asks.contains_key(key)
                        ==> !start.asks[key].contains(id)),
                }
            }
        }
    }
    lemma_cascaded_in_order(step, cmd.seq_no, side, key, x, id);
    outcome::law_orders_after(book, cmd, id);
    accounting::law_orders_keep_their_terms(book, cmd);
    assert(book.orders.contains_key(x));
    lemma_rests_queued(done, id);
    lemma_rests_queued(done, x);
}

/// A resting order that a replace request moves to another price and that rests there stands
/// behind every order that rested at that price before and still does.
pub proof fn law_repriced_orders_queue_last(
    book: BookModel,
    cmd: Command,
    replace: ReplaceOrder,
    x: OrderId,
)
    requires
        model::valid(book),
        cmd.payload == CommandPayload::Replace(replace),
        outcome::replaceable(book, replace),
        standing::rests(book, replace.order_id),
        replace.new_price != book.orders[replace.order_id].price,
        standing::resting(
            book,
            book.orders[replace.order_id].side,
            replace.new_price,
        ).contains(x),
        standing::rests(model::processed(book, cmd).book, x),
        standing::rests(model::processed(book, cmd).book, replace.order_id),
    ensures
        ahead(
            queue_of(
                model::processed(book, cmd).book,
                book.orders[replace.order_id].side,
                replace.new_price,
            ),
            x,
            replace.order_id,
        ),
{
    let start = BookModel { last_seq_no: cmd.seq_no, ..book };
    let id = replace.order_id;
    let side = book.orders[id].side;
    let key = book::rank(side, replace.new_price);
    let step = model::applied(book, cmd);
    let done = model::processed(book, cmd).book;
    validity::lemma_renumbered(book, cmd.seq_no);
    validity::lemma_applied(book, cmd);
    validity::lemma_processed(book, cmd);
    assert(model::order_valid(start, id));
    validity::lemma_queued(start, id);
    validity::lemma_amended(start, replace);
    lemma_rests_queued(book, x);
    let next = model::amended(start, replace);
    let order = next.orders[id];
    let queue = model::queue_at(start.side(side), key);
    let moved = model::queue_at(next.side(side), key);
    let out = model::sweep(next.side(order.side.other()), next.orders, order);
    let after = model::swept(next, order);
    validity::lemma_sweep(next, order);
    assert(moved == queue.push(id));
    let i = choose|i: int| 0 <= i < queue.len() && queue[i] == x;
    assert(moved[i] == x && moved[queue.len() as int] == id);
    assert(ahead(moved, x, id));
    assert(model::queue_at(after.side(side), key) == moved);
    lemma_leaves_in_order(after, out.taker, moved, side, key, x, id);
    lemma_cascaded_in_order(step, cmd.seq_no, side, key, x, id);
    outcome::law_orders_after(book, cmd, id);
    accounting::law_orders_keep_their_terms(book, cmd);
    assert(book.orders.contains_key(x));
    lemma_rests_queued(done, id);
    lemma_rests_queued(done, x);
}

} // verus!
