//! Mathematical model of the order book and of every command's effect on it.
//!
//! The model of a side is a map from sort key to FIFO queue. Level quantities are not part of
//! it: they are the sums of the queued orders' open quantities. Each command is a function from
//! a model to the next model and the events it emits.
use crate::book;
use crate::ranking;
use crate::types::{
    Bbo, CancelOrder, Command, CommandPayload, EngineEvent, Fill, NewOrder, OrderCondition, OrderId,
    OrderState, OrderType, Price, RejectReason, ReplaceOrder, SeqNo, Side, Symbol, TimeInForce,
    MARKET_PRICE,
};
use vstd::prelude::*;

verus! {

/// The queues of one side by sort key.
pub type Queues = Map<u64, Seq<OrderId>>;

/// Model of an order book.
#[verifier::ext_equal]
pub struct BookModel {
    pub symbol: Symbol,
    pub bids: Queues,
    pub asks: Queues,
    /// Every order known by ID, open or closed.
    pub orders: Map<OrderId, OrderState>,
    /// Orders that wait off both sides, oldest first: stop orders for their trigger, and
    /// all-or-none orders for enough quantity to be filled.
    pub waiting: Seq<OrderId>,
    pub last_seq_no: SeqNo,
}

/// A model and the events emitted on the way to it.
#[verifier::ext_equal]
pub struct Step {
    pub book: BookModel,
    pub events: Seq<EngineEvent>,
}

/// What a matching sweep leaves behind.
#[verifier::ext_equal]
pub struct Sweep {
    /// The swept side.
    pub levels: Queues,
    pub orders: Map<OrderId, OrderState>,
    pub taker: OrderState,
    pub fills: Seq<Fill>,
}

impl BookModel {
    /// The side on which orders of side `side` rest.
    pub open spec fn side(self, side: Side) -> Queues {
        match side {
            Side::Buy => self.bids,
            Side::Sell => self.asks,
        }
    }

    /// The model with one side exchanged.
    pub open spec fn with_side(self, side: Side, levels: Queues) -> BookModel {
        match side {
            Side::Buy => BookModel { bids: levels, ..self },
            Side::Sell => BookModel { asks: levels, ..self },
        }
    }

    /// The model of an empty book.
    pub open spec fn fresh(symbol: Symbol) -> BookModel {
        BookModel {
            symbol,
            bids: Map::empty(),
            asks: Map::empty(),
            orders: Map::empty(),
            waiting: Seq::empty(),
            last_seq_no: 0,
        }
    }
}

// ---------------------------------------------------------------------------
// Queues
// ---------------------------------------------------------------------------

/// Sum of the open quantities of the queued orders.
pub open spec fn queued_qty(queue: Seq<OrderId>, orders: Map<OrderId, OrderState>) -> nat
    decreases queue.len(),
{
    if queue.len() == 0 {
        0
    } else {
        orders[queue[0]].open() + queued_qty(queue.drop_first(), orders)
    }
}

/// The queue under a key, empty where there is none.
pub open spec fn queue_at(levels: Queues, key: u64) -> Seq<OrderId> {
    if levels.contains_key(key) {
        levels[key]
    } else {
        Seq::empty()
    }
}

/// The side after `queue` was stored under `key`, or the level dropped if `queue` is empty.
pub open spec fn with_queue(levels: Queues, key: u64, queue: Seq<OrderId>) -> Queues {
    if queue.len() == 0 {
        levels.remove(key)
    } else {
        levels.insert(key, queue)
    }
}

/// The side with an order added at the back of a level.
pub open spec fn enqueue(levels: Queues, key: u64, id: OrderId) -> Queues {
    levels.insert(key, queue_at(levels, key).push(id))
}

/// The side with an order taken out of a level.
pub open spec fn dequeue(levels: Queues, key: u64, id: OrderId) -> Queues {
    with_queue(levels, key, queue_at(levels, key).remove_value(id))
}

/// Quantity queued under those of the ascending `keys` that do not exceed `reach`.
pub open spec fn qty_within(
    keys: Seq<u64>,
    levels: Queues,
    orders: Map<OrderId, OrderState>,
    reach: u64,
) -> nat
    decreases keys.len(),
{
    if keys.len() == 0 || keys[0] > reach {
        0
    } else {
        queued_qty(levels[keys[0]], orders) + qty_within(keys.drop_first(), levels, orders, reach)
    }
}

/// Quantity resting on a side at keys up to `reach`.
pub open spec fn available(levels: Queues, orders: Map<OrderId, OrderState>, reach: u64) -> nat {
    qty_within(ranking::ascending(levels), levels, orders, reach)
}

// ---------------------------------------------------------------------------
// Matching
// ---------------------------------------------------------------------------

/// The worst key on the opposite side at which an order may trade: any key for a market order,
/// the key of its own price for a limit order.
pub open spec fn reach_of(order_type: OrderType, side: Side, price: Price) -> u64 {
    match order_type {
        OrderType::Market => u64::MAX,
        OrderType::Limit => book::rank(side.other(), price),
    }
}

/// The order first in price-time priority: the front of the best level.
pub open spec fn front(levels: Queues) -> OrderId {
    levels[ranking::least(levels)][0]
}

/// The taker has quantity left and the front order is within its reach.
pub open spec fn can_trade(
    levels: Queues,
    orders: Map<OrderId, OrderState>,
    taker: OrderState,
) -> bool {
    &&& taker.open() > 0
    &&& ranking::is_least(levels, ranking::least(levels))
    &&& ranking::least(levels) <= reach_of(taker.order_type, taker.side, taker.price)
    &&& orders[front(levels)].open() > 0
}

/// An order after a fill of `qty`; it closes once nothing is left open.
pub open spec fn filled(order: OrderState, qty: nat) -> OrderState {
    OrderState {
        filled_qty: (order.filled_qty + qty) as u64,
        is_open: order.is_open && order.open() > qty,
        ..order
    }
}

/// The taker after a fill of `qty`.
pub open spec fn taken(taker: OrderState, qty: nat) -> OrderState {
    OrderState { filled_qty: (taker.filled_qty + qty) as u64, ..taker }
}

/// Quantity of the trade between a taker and the front order.
pub open spec fn trade_qty(taker: OrderState, maker: OrderState) -> nat {
    if taker.open() <= maker.open() {
        taker.open()
    } else {
        maker.open()
    }
}

/// The fill between a taker and the front order, at the front order's price.
pub open spec fn next_fill(
    levels: Queues,
    orders: Map<OrderId, OrderState>,
    taker: OrderState,
) -> Fill {
    let maker = orders[front(levels)];
    let qty = trade_qty(taker, maker);
    Fill {
        maker_order_id: front(levels),
        taker_order_id: taker.order_id,
        price: book::rank(taker.side.other(), ranking::least(levels)),
        qty: qty as u64,
        maker_filled_completely: maker.open() == qty,
        taker_filled_completely: taker.open() == qty,
    }
}

/// The swept side after that fill: the front order leaves it if it was filled completely.
pub open spec fn next_levels(
    levels: Queues,
    orders: Map<OrderId, OrderState>,
    taker: OrderState,
) -> Queues {
    let key = ranking::least(levels);
    if next_fill(levels, orders, taker).maker_filled_completely {
        with_queue(levels, key, levels[key].drop_first())
    } else {
        levels
    }
}

/// The orders after that fill.
pub open spec fn next_orders(
    levels: Queues,
    orders: Map<OrderId, OrderState>,
    taker: OrderState,
) -> Map<OrderId, OrderState> {
    let maker = orders[front(levels)];
    orders.insert(front(levels), filled(maker, trade_qty(taker, maker)))
}

/// The taker after that fill.
pub open spec fn next_taker(
    levels: Queues,
    orders: Map<OrderId, OrderState>,
    taker: OrderState,
) -> OrderState {
    taken(taker, trade_qty(taker, orders[front(levels)]))
}

/// Matches a taker against a side in price-time priority: the front order trades at its own
/// price until the taker is filled or nothing is within its reach.
pub open spec fn sweep(
    levels: Queues,
    orders: Map<OrderId, OrderState>,
    taker: OrderState,
) -> Sweep
    decreases taker.open(),
{
    if !can_trade(levels, orders, taker) {
        Sweep { levels, orders, taker, fills: Seq::empty() }
    } else {
        let rest = sweep(
            next_levels(levels, orders, taker),
            next_orders(levels, orders, taker),
            next_taker(levels, orders, taker),
        );
        Sweep { fills: seq![next_fill(levels, orders, taker)] + rest.fills, ..rest }
    }
}

/// The book after the fill between a taker and the front order of the opposite side.
pub open spec fn after_fill(book: BookModel, taker: OrderState) -> BookModel {
    let levels = book.side(taker.side.other());
    BookModel {
        orders: next_orders(levels, book.orders, taker),
        ..book.with_side(taker.side.other(), next_levels(levels, book.orders, taker))
    }
}

/// The trade events of a sequence of fills.
pub open spec fn trades(fills: Seq<Fill>) -> Seq<EngineEvent> {
    fills.map_values(|fill: Fill| EngineEvent::Trade(fill))
}

/// The book after `taker` was matched against the opposite side, without the taker itself.
pub open spec fn swept(book: BookModel, taker: OrderState) -> BookModel {
    let out = sweep(book.side(taker.side.other()), book.orders, taker);
    BookModel { orders: out.orders, ..book.with_side(taker.side.other(), out.levels) }
}

// ---------------------------------------------------------------------------
// New orders
// ---------------------------------------------------------------------------

/// The book with `order` resting, open, at the back of its level.
pub open spec fn rested(book: BookModel, order: OrderState) -> BookModel {
    recorded(
        book.with_side(
            order.side,
            enqueue(book.side(order.side), book::rank(order.side, order.price), order.order_id),
        ),
        order,
        true,
    )
}

/// The book with `order` on record as open or closed.
pub open spec fn recorded(book: BookModel, order: OrderState, is_open: bool) -> BookModel {
    BookModel {
        orders: book.orders.insert(order.order_id, OrderState { is_open, ..order }),
        ..book
    }
}

/// Quantity available to an order on the side opposite to it.
pub open spec fn available_to(book: BookModel, order: OrderState) -> nat {
    available(
        book.side(order.side.other()),
        book.orders,
        reach_of(order.order_type, order.side, order.price),
    )
}

/// The opposite side cannot fill the order entirely.
pub open spec fn short_of(book: BookModel, order: OrderState) -> bool {
    available_to(book, order) < order.open()
}

/// The opposite side can fill some of the order, but not all of it.
pub open spec fn short_across(book: BookModel, order: OrderState) -> bool {
    0 < available_to(book, order) < order.open()
}

/// The book with `order` waiting, open, off both sides.
pub open spec fn held(book: BookModel, order: OrderState) -> BookModel {
    BookModel {
        waiting: book.waiting.push(order.order_id),
        ..recorded(book, order, true)
    }
}

/// What becomes of the unfilled remainder of a matched order.
pub open spec fn remainder(book: BookModel, seq_no: SeqNo, order: OrderState) -> Step {
    let order_id = order.order_id;
    if order.open() == 0 {
        Step { book: recorded(book, order, false), events: Seq::empty() }
    } else if order.order_type == OrderType::Market && order.filled_qty == 0 {
        Step {
            book: recorded(book, order, false),
            events: seq![
                EngineEvent::OrderRejected { seq_no, order_id, reason: RejectReason::NoLiquidity },
            ],
        }
    } else if order.order_type == OrderType::Market || order.tif == TimeInForce::IOC {
        Step {
            book: recorded(book, order, false),
            events: seq![
                EngineEvent::OrderCanceled { seq_no, order_id, remaining_qty: order.open() as u64 },
            ],
        }
    } else {
        Step { book: rested(book, order), events: Seq::empty() }
    }
}

/// Enters an accepted order: it is refused, rests, or is matched.
///
/// A fill-or-kill order that cannot be filled entirely is refused. So is such an all-or-none
/// order if it may not rest, being immediate-or-cancel or a market order; otherwise it rests
/// unmatched if nothing is within its limit, and waits off both sides if something is, so that
/// the book is not crossed.
pub open spec fn entered(book: BookModel, seq_no: SeqNo, order: OrderState) -> Step {
    let order_id = order.order_id;
    if order.tif == TimeInForce::FOK && short_of(book, order) {
        Step {
            book,
            events: seq![
                EngineEvent::OrderRejected {
                    seq_no,
                    order_id,
                    reason: RejectReason::FOKNotFillable,
                },
            ],
        }
    } else if order.condition == OrderCondition::AON && short_of(book, order) {
        if order.tif == TimeInForce::IOC || order.order_type == OrderType::Market {
            Step {
                book,
                events: seq![
                    EngineEvent::OrderRejected {
                        seq_no,
                        order_id,
                        reason: RejectReason::AONNotFillable,
                    },
                ],
            }
        } else if short_across(book, order) {
            Step { book: held(book, order), events: Seq::empty() }
        } else {
            Step { book: rested(book, order), events: Seq::empty() }
        }
    } else {
        let out = sweep(book.side(order.side.other()), book.orders, order);
        let rest = remainder(swept(book, order), seq_no, out.taker);
        Step { book: rest.book, events: trades(out.fills) + rest.events }
    }
}

/// Why a new order fails validation, if it does.
pub open spec fn new_order_flaw(book: BookModel, order: NewOrder) -> Option<RejectReason> {
    if order.qty == 0 {
        Some(RejectReason::InvalidQuantity)
    } else if order.order_type == OrderType::Limit && order.price == MARKET_PRICE {
        Some(RejectReason::InvalidPrice)
    } else if book.orders.contains_key(order.order_id) {
        Some(RejectReason::DuplicateOrderId)
    } else {
        None
    }
}

/// Effect of a new order before waiting orders enter.
pub open spec fn new_order(book: BookModel, seq_no: SeqNo, order: NewOrder) -> Step {
    let order_id = order.order_id;
    match new_order_flaw(book, order) {
        Some(reason) => Step {
            book,
            events: seq![EngineEvent::OrderRejected { seq_no, order_id, reason }],
        },
        None => {
            let accepted = seq![EngineEvent::OrderAccepted { seq_no, order_id }];
            if order.condition == OrderCondition::Stop {
                Step { book: held(book, OrderState::of(order)), events: accepted }
            } else {
                let step = entered(book, seq_no, OrderState::of(order));
                Step { book: step.book, events: accepted + step.events }
            }
        },
    }
}

// ---------------------------------------------------------------------------
// Cancel and replace
// ---------------------------------------------------------------------------

/// Why an order cannot be canceled, if it cannot.
pub open spec fn cancel_flaw(book: BookModel, cancel: CancelOrder) -> Option<RejectReason> {
    if !book.orders.contains_key(cancel.order_id) {
        Some(RejectReason::UnknownOrder)
    } else if !book.orders[cancel.order_id].is_open {
        Some(RejectReason::NothingToCancel)
    } else {
        None
    }
}

/// The book without an open order on its side or among the waiting orders.
pub open spec fn withdrawn(book: BookModel, order: OrderState) -> BookModel {
    if book.waiting.contains(order.order_id) {
        BookModel { waiting: book.waiting.remove_value(order.order_id), ..book }
    } else {
        book.with_side(
            order.side,
            dequeue(book.side(order.side), book::rank(order.side, order.price), order.order_id),
        )
    }
}

/// Effect of a cancel request.
pub open spec fn cancel_order(book: BookModel, seq_no: SeqNo, cancel: CancelOrder) -> Step {
    let order_id = cancel.order_id;
    match cancel_flaw(book, cancel) {
        Some(reason) => Step {
            book,
            events: seq![EngineEvent::CancelRejected { seq_no, order_id, reason }],
        },
        None => {
            let order = book.orders[order_id];
            Step {
                book: recorded(withdrawn(book, order), order, false),
                events: seq![
                    EngineEvent::OrderCanceled {
                        seq_no,
                        order_id,
                        remaining_qty: order.open() as u64,
                    },
                ],
            }
        },
    }
}

/// Why an order cannot be replaced, if it cannot. A stop order that waits has no resting
/// quantity to amend.
pub open spec fn replace_flaw(book: BookModel, replace: ReplaceOrder) -> Option<RejectReason> {
    if !book.orders.contains_key(replace.order_id) {
        Some(RejectReason::UnknownOrder)
    } else {
        let order = book.orders[replace.order_id];
        if !order.is_open || order.condition == OrderCondition::Stop {
            Some(RejectReason::NothingToCancel)
        } else if replace.new_qty == 0 {
            Some(RejectReason::InvalidQuantity)
        } else if replace.new_qty > order.original_qty {
            Some(RejectReason::ReplaceQtyIncrease)
        } else if replace.new_price == MARKET_PRICE {
            Some(RejectReason::InvalidPrice)
        } else if replace.new_qty <= order.filled_qty {
            Some(RejectReason::InvalidQuantity)
        } else {
            None
        }
    }
}

/// The book with a resting order's price and quantity amended: it keeps its place in the queue
/// if the price stays, and goes to the back of the new level if the price changes. An
/// all-or-none order that waits off both sides keeps its place among the waiting orders.
pub open spec fn amended(book: BookModel, replace: ReplaceOrder) -> BookModel {
    let order = book.orders[replace.order_id];
    let moved = if replace.new_price == order.price || book.waiting.contains(replace.order_id) {
        book
    } else {
        book.with_side(
            order.side,
            enqueue(
                dequeue(book.side(order.side), book::rank(order.side, order.price), order.order_id),
                book::rank(order.side, replace.new_price),
                order.order_id,
            ),
        )
    };
    recorded(
        moved,
        OrderState { original_qty: replace.new_qty, price: replace.new_price, ..order },
        true,
    )
}

/// The book once a resting order was matched as `taker`: it leaves the book if it was filled.
pub open spec fn rematched(book: BookModel, taker: OrderState) -> BookModel {
    if taker.open() == 0 {
        recorded(withdrawn(book, taker), taker, false)
    } else {
        recorded(book, taker, true)
    }
}

/// Effect of a replace request before waiting orders enter.
pub open spec fn replace_order(book: BookModel, seq_no: SeqNo, replace: ReplaceOrder) -> Step {
    let order_id = replace.order_id;
    match replace_flaw(book, replace) {
        Some(reason) => Step {
            book,
            events: seq![EngineEvent::ReplaceRejected { seq_no, order_id, reason }],
        },
        None => {
            let next = amended(book, replace);
            let order = next.orders[order_id];
            let replaced = seq![
                EngineEvent::OrderReplaced {
                    seq_no,
                    order_id,
                    new_price: replace.new_price,
                    new_qty: replace.new_qty,
                },
            ];
            if book.waiting.contains(order_id) {
                Step { book: next, events: replaced }
            } else {
                let out = sweep(next.side(order.side.other()), next.orders, order);
                Step {
                    book: rematched(swept(next, order), out.taker),
                    events: replaced + trades(out.fills),
                }
            }
        },
    }
}

// ---------------------------------------------------------------------------
// Waiting orders
// ---------------------------------------------------------------------------

/// A trade at or through the stop price: at or above it for a buy stop, at or below it for a
/// sell stop.
pub open spec fn trips(order: OrderState, event: EngineEvent) -> bool {
    match event {
        EngineEvent::Trade(fill) => match order.side {
            Side::Buy => fill.price >= order.stop_price,
            Side::Sell => fill.price <= order.stop_price,
        },
        _ => false,
    }
}

/// One of the events trips the stop order.
pub open spec fn triggered(order: OrderState, events: Seq<EngineEvent>) -> bool {
    exists|i: int| 0 <= i < events.len() && trips(order, #[trigger] events[i])
}

/// A waiting order may enter the book: a stop order if one of the events trips it, an all-or-none
/// order if it can be filled entirely or no longer crosses the opposite side.
pub open spec fn ready(book: BookModel, order: OrderState, events: Seq<EngineEvent>) -> bool {
    match order.condition {
        OrderCondition::Stop => triggered(order, events),
        OrderCondition::AON => !short_across(book, order),
        OrderCondition::Unconditional => false,
    }
}

/// Position from `from` on of the first waiting order that may enter, or the number of waiting
/// orders if none may.
pub open spec fn next_ready(book: BookModel, events: Seq<EngineEvent>, from: int) -> int
    decreases book.waiting.len() - from,
{
    if from >= book.waiting.len() {
        book.waiting.len() as int
    } else if ready(book, book.orders[book.waiting[from]], events) {
        from
    } else {
        next_ready(book, events, from + 1)
    }
}

/// A waiting order as it enters the book: a stop order enters as its underlying type, without the
/// condition.
pub open spec fn underlying(order: OrderState) -> OrderState {
    OrderState {
        condition: if order.condition == OrderCondition::Stop {
            OrderCondition::Unconditional
        } else {
            order.condition
        },
        is_open: false,
        ..order
    }
}

/// The book with the waiting order at position `i` no longer waiting.
pub open spec fn released(book: BookModel, i: int) -> BookModel {
    BookModel {
        waiting: book.waiting.remove(i),
        ..recorded(book, underlying(book.orders[book.waiting[i]]), false)
    }
}

/// Lets the waiting order at position `i` enter.
pub open spec fn activated(book: BookModel, seq_no: SeqNo, i: int) -> Step {
    entered(released(book, i), seq_no, underlying(book.orders[book.waiting[i]]))
}

/// Lets waiting orders enter, oldest first, until none of them may.
pub open spec fn cascaded(step: Step, seq_no: SeqNo) -> Step
    decreases step.book.waiting.len(),
{
    let i = next_ready(step.book, step.events, 0);
    if 0 <= i < step.book.waiting.len() {
        let next = activated(step.book, seq_no, i);
        cascaded(
            Step {
                book: BookModel { waiting: step.book.waiting.remove(i), ..next.book },
                events: step.events + next.events,
            },
            seq_no,
        )
    } else {
        step
    }
}

/// No waiting all-or-none order may enter.
pub open spec fn quiet(book: BookModel) -> bool {
    forall|i: int|
        0 <= i < book.waiting.len() ==> {
            let order = book.orders[#[trigger] book.waiting[i]];
            order.condition == OrderCondition::AON ==> short_across(book, order)
        }
}

// ---------------------------------------------------------------------------
// Commands
// ---------------------------------------------------------------------------

/// Price of the best level of a side, if there is one.
pub open spec fn best_price(book: BookModel, side: Side) -> Option<Price> {
    let levels = book.side(side);
    if ranking::is_least(levels, ranking::least(levels)) {
        Some(book::rank(side, ranking::least(levels)))
    } else {
        None
    }
}

/// Quantity resting at the best price of a side.
pub open spec fn best_qty(book: BookModel, side: Side) -> nat {
    let levels = book.side(side);
    if ranking::is_least(levels, ranking::least(levels)) {
        queued_qty(levels[ranking::least(levels)], book.orders)
    } else {
        0
    }
}

/// Best bid and offer of a book.
pub open spec fn bbo(book: BookModel) -> Bbo {
    Bbo {
        bid_price: best_price(book, Side::Buy),
        bid_qty: best_qty(book, Side::Buy) as u64,
        ask_price: best_price(book, Side::Sell),
        ask_qty: best_qty(book, Side::Sell) as u64,
    }
}

/// The best bid is below the best ask, if there are both.
pub open spec fn uncrossed(book: BookModel) -> bool {
    match (best_price(book, Side::Buy), best_price(book, Side::Sell)) {
        (Some(bid), Some(ask)) => bid < ask,
        _ => true,
    }
}

/// Effect of a command before waiting orders enter.
pub open spec fn applied(book: BookModel, cmd: Command) -> Step {
    let book = BookModel { last_seq_no: cmd.seq_no, ..book };
    match cmd.payload {
        CommandPayload::New(order) => new_order(book, cmd.seq_no, order),
        CommandPayload::Cancel(cancel) => cancel_order(book, cmd.seq_no, cancel),
        CommandPayload::Replace(replace) => replace_order(book, cmd.seq_no, replace),
    }
}

/// Effect of a command: its own, that of the waiting orders that may then enter, and a closing
/// best bid and offer event.
pub open spec fn processed(book: BookModel, cmd: Command) -> Step {
    let step = cascaded(applied(book, cmd), cmd.seq_no);
    Step { book: step.book, events: step.events.push(EngineEvent::BboChanged(bbo(step.book))) }
}

// ---------------------------------------------------------------------------
// Machine limits
// ---------------------------------------------------------------------------

/// Every level's quantity fits in a `Qty`.
pub open spec fn levels_fit(levels: Queues, orders: Map<OrderId, OrderState>) -> bool {
    forall|key: u64| #[trigger]
        levels.contains_key(key) ==> queued_qty(levels[key], orders) <= u64::MAX
}

/// Every level's quantity on both sides fits in a `Qty`.
pub open spec fn fits(book: BookModel) -> bool {
    levels_fit(book.bids, book.orders) && levels_fit(book.asks, book.orders)
}

/// Every waiting order that enters after `step` leaves a book that fits.
pub open spec fn cascade_fits(step: Step, seq_no: SeqNo) -> bool
    decreases step.book.waiting.len(),
{
    let i = next_ready(step.book, step.events, 0);
    if 0 <= i < step.book.waiting.len() {
        let next = activated(step.book, seq_no, i);
        &&& fits(next.book)
        &&& cascade_fits(
            Step {
                book: BookModel { waiting: step.book.waiting.remove(i), ..next.book },
                events: step.events + next.events,
            },
            seq_no,
        )
    } else {
        true
    }
}

/// No level's quantity exceeds a `Qty` while the command is processed.
pub open spec fn command_fits(book: BookModel, cmd: Command) -> bool {
    &&& (match cmd.payload {
        CommandPayload::Replace(replace) => replace_flaw(book, replace) is None ==> fits(
            amended(book, replace),
        ),
        _ => true,
    })
    &&& fits(applied(book, cmd).book)
    &&& cascade_fits(applied(book, cmd), cmd.seq_no)
}

// ---------------------------------------------------------------------------
// Validity
// ---------------------------------------------------------------------------

/// `id` is an open good-til-cancel limit order of this side and key.
pub open spec fn rests_at(
    orders: Map<OrderId, OrderState>,
    id: OrderId,
    side: Side,
    key: u64,
) -> bool {
    &&& orders.contains_key(id)
    &&& orders[id].is_open
    &&& orders[id].side == side
    &&& book::rank(side, orders[id].price) == key
    &&& orders[id].order_type == OrderType::Limit
    &&& orders[id].tif == TimeInForce::GTC
    &&& orders[id].condition != OrderCondition::Stop
}

/// A level's queue is not empty, names no order twice, and names only orders that rest there.
pub open spec fn queue_valid(
    queue: Seq<OrderId>,
    orders: Map<OrderId, OrderState>,
    side: Side,
    key: u64,
) -> bool {
    &&& queue.len() > 0
    &&& queue.no_duplicates()
    &&& forall|i: int| 0 <= i < queue.len() ==> rests_at(orders, #[trigger] queue[i], side, key)
}

/// Every level of a side is valid.
pub open spec fn side_valid(levels: Queues, orders: Map<OrderId, OrderState>, side: Side) -> bool {
    &&& levels.dom().finite()
    &&& forall|key: u64| #[trigger]
        levels.contains_key(key) ==> queue_valid(levels[key], orders, side, key)
}

/// An order on record is filed under its ID and not overfilled; while open it has open quantity
/// and waits or is queued at its price.
pub open spec fn order_valid(book: BookModel, id: OrderId) -> bool {
    let order = book.orders[id];
    &&& order.order_id == id
    &&& order.filled_qty <= order.original_qty
    &&& order.is_open ==> order.open() > 0
    &&& order.is_open && !book.waiting.contains(id) ==> queue_at(
        book.side(order.side),
        book::rank(order.side, order.price),
    ).contains(id)
}

/// `id` is an open and unfilled stop order or good-til-cancel all-or-none limit order, and is not
/// queued.
pub open spec fn waits(book: BookModel, id: OrderId) -> bool {
    let order = book.orders[id];
    &&& book.orders.contains_key(id)
    &&& order.is_open
    &&& order.condition != OrderCondition::Unconditional
    &&& order.condition == OrderCondition::AON ==> order.order_type == OrderType::Limit
        && order.tif == TimeInForce::GTC
    &&& order.filled_qty == 0
    &&& !queue_at(book.side(order.side), book::rank(order.side, order.price)).contains(id)
}

/// Waiting orders are distinct, and each of them waits.
pub open spec fn waiting_valid(book: BookModel) -> bool {
    &&& book.waiting.no_duplicates()
    &&& forall|i: int| 0 <= i < book.waiting.len() ==> waits(book, #[trigger] book.waiting[i])
}

/// The book's invariant.
pub open spec fn valid(book: BookModel) -> bool {
    &&& side_valid(book.bids, book.orders, Side::Buy)
    &&& side_valid(book.asks, book.orders, Side::Sell)
    &&& forall|id: OrderId| #[trigger] book.orders.contains_key(id) ==> order_valid(book, id)
    &&& waiting_valid(book)
}

} // verus!
