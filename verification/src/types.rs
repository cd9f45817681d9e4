//! Domain types of the matching engine.
//!
//! All prices are integer ticks and all quantities integer lots.
use vstd::prelude::*;

verus! {

/// Price in integer ticks. Zero is reserved for "no price limit".
pub type Price = u64;

/// Quantity in integer lots.
pub type Qty = u64;

/// Order identifier, unique per partition.
pub type OrderId = u64;

/// Sequence number stamped on every inbound command.
pub type SeqNo = u64;

/// Symbol identifier.
pub type Symbol = u32;

/// Nanoseconds since the epoch. Carried for audit, never read by the matching.
pub type Timestamp = u64;

/// Sentinel price meaning "no price limit".
pub const MARKET_PRICE: Price = 0;

/// Default number of depth levels tracked for market data.
pub const MAX_DEPTH_LEVELS: usize = 10;

/// Order side.
#[derive(Debug, Clone, Copy, PartialEq, Eq, Hash, Structural)]
pub enum Side {
    Buy,
    Sell,
}

/// Time-in-force qualifier.
#[derive(Debug, Clone, Copy, PartialEq, Eq, Hash, Structural)]
pub enum TimeInForce {
    /// Good-til-cancel: rests on the book until filled or canceled.
    GTC,
    /// Immediate-or-cancel: fill what is available, cancel the rest.
    IOC,
    /// Fill-or-kill: fill entirely or reject.
    FOK,
}

/// Order type.
#[derive(Debug, Clone, Copy, PartialEq, Eq, Hash, Structural)]
pub enum OrderType {
    /// Limit order with an explicit price.
    Limit,
    /// Market order: matches at any price and never rests on the book.
    Market,
}

/// Execution condition.
#[derive(Debug, Clone, Copy, PartialEq, Eq, Hash, Structural)]
pub enum OrderCondition {
    /// No special condition.
    Unconditional,
    /// All-or-none: on entry the order is filled entirely in a single sweep or not at all. An
    /// order that is not filled is rejected if it may not rest; otherwise it rests, or waits off
    /// the book while it would cross the opposite side. The condition governs entry alone: once
    /// the order rests on the book it is filled, also in part, and amended like any other.
    AON,
    /// Stop order: activated when the market trades at or through the stop price.
    Stop,
}

/// A new order submission.
#[derive(Debug, Clone, Copy, PartialEq, Eq, Structural)]
pub struct NewOrder {
    pub order_id: OrderId,
    pub symbol: Symbol,
    pub side: Side,
    pub order_type: OrderType,
    pub tif: TimeInForce,
    pub condition: OrderCondition,
    pub price: Price,
    pub qty: Qty,
    /// For stop orders: the trigger price.
    pub stop_price: Price,
}

/// Cancel request.
#[derive(Debug, Clone, Copy, PartialEq, Eq, Structural)]
pub struct CancelOrder {
    pub order_id: OrderId,
    pub symbol: Symbol,
}

/// Replace request: changes the price, reduces the quantity, or both.
#[derive(Debug, Clone, Copy, PartialEq, Eq, Structural)]
pub struct ReplaceOrder {
    pub order_id: OrderId,
    pub symbol: Symbol,
    pub new_price: Price,
    pub new_qty: Qty,
}

/// What a command asks for.
#[derive(Debug, Clone, Copy, PartialEq, Eq, Structural)]
pub enum CommandPayload {
    New(NewOrder),
    Cancel(CancelOrder),
    Replace(ReplaceOrder),
}

/// Envelope of an inbound command, stamped with a sequence number.
#[derive(Debug, Clone, Copy, PartialEq, Eq, Structural)]
pub struct Command {
    pub seq_no: SeqNo,
    pub timestamp: Timestamp,
    pub payload: CommandPayload,
}

/// One fill between an incoming and a resting order.
#[derive(Debug, Clone, Copy, PartialEq, Eq, Structural)]
pub struct Fill {
    pub maker_order_id: OrderId,
    pub taker_order_id: OrderId,
    pub price: Price,
    pub qty: Qty,
    pub maker_filled_completely: bool,
    pub taker_filled_completely: bool,
}

/// Reason an order or action was rejected.
#[derive(Debug, Clone, Copy, PartialEq, Eq, Structural)]
pub enum RejectReason {
    /// Order ID not found.
    UnknownOrder,
    /// Duplicate order ID.
    DuplicateOrderId,
    /// Invalid price (zero on a limit order).
    InvalidPrice,
    /// Invalid quantity.
    InvalidQuantity,
    /// A fill-or-kill order could not be filled entirely.
    FOKNotFillable,
    /// An all-or-none order could not be filled entirely.
    AONNotFillable,
    /// A replace would increase the quantity.
    ReplaceQtyIncrease,
    /// No resting quantity to cancel or amend.
    NothingToCancel,
    /// Market order with no liquidity on the opposite side.
    NoLiquidity,
    /// Symbol not found.
    UnknownSymbol,
    /// The book is in an invalid state.
    InternalError,
}

/// Best bid and offer snapshot.
#[derive(Debug, Clone, Copy, PartialEq, Eq, Structural)]
pub struct Bbo {
    pub bid_price: Option<Price>,
    pub bid_qty: Qty,
    pub ask_price: Option<Price>,
    pub ask_qty: Qty,
}

/// One price level of the depth.
#[derive(Debug, Clone, Copy, PartialEq, Eq, Structural)]
pub struct DepthLevel {
    pub price: Price,
    pub qty: Qty,
    pub order_count: u32,
}

/// Events emitted by the engine and the market data tracker.
#[derive(Debug, Clone, PartialEq, Eq)]
pub enum EngineEvent {
    OrderAccepted { seq_no: SeqNo, order_id: OrderId },
    OrderRejected { seq_no: SeqNo, order_id: OrderId, reason: RejectReason },
    OrderCanceled { seq_no: SeqNo, order_id: OrderId, remaining_qty: Qty },
    CancelRejected { seq_no: SeqNo, order_id: OrderId, reason: RejectReason },
    OrderReplaced { seq_no: SeqNo, order_id: OrderId, new_price: Price, new_qty: Qty },
    ReplaceRejected { seq_no: SeqNo, order_id: OrderId, reason: RejectReason },
    Trade(Fill),
    BboChanged(Bbo),
    DepthChanged { side: Side, levels: Vec<DepthLevel> },
}

/// Lifecycle state of an order.
#[derive(Debug, Clone, Copy, PartialEq, Eq, Structural)]
pub struct OrderState {
    pub order_id: OrderId,
    pub symbol: Symbol,
    pub side: Side,
    pub order_type: OrderType,
    pub tif: TimeInForce,
    pub condition: OrderCondition,
    pub price: Price,
    pub original_qty: Qty,
    pub filled_qty: Qty,
    pub stop_price: Price,
    /// True while the order rests on the book or waits off it.
    pub is_open: bool,
}

impl Side {
    /// The other side.
    pub open spec fn other(self) -> Side {
        match self {
            Side::Buy => Side::Sell,
            Side::Sell => Side::Buy,
        }
    }

    /// Returns the other side.
    #[inline]
    pub fn opposite(self) -> (other: Side)
        ensures
            other == self.other(),
    {
        match self {
            Side::Buy => Side::Sell,
            Side::Sell => Side::Buy,
        }
    }

    /// The side's display name.
    pub fn name(self) -> (name: &'static str)
        ensures
            name@ == (match self {
                Side::Buy => "Buy"@,
                Side::Sell => "Sell"@,
            }),
    {
        match self {
            Side::Buy => "Buy",
            Side::Sell => "Sell",
        }
    }
}

impl OrderState {
    /// Quantity still to be filled, zero for an overfilled order.
    pub open spec fn open(self) -> nat {
        if self.filled_qty <= self.original_qty {
            (self.original_qty - self.filled_qty) as nat
        } else {
            0
        }
    }

    /// Remaining quantity available for matching.
    #[inline]
    pub fn open_qty(&self) -> (qty: Qty)
        ensures
            qty == self.open(),
    {
        self.original_qty.saturating_sub(self.filled_qty)
    }

    /// The state in which a new order enters the engine: nothing filled, not open.
    pub open spec fn of(order: NewOrder) -> OrderState {
        OrderState {
            order_id: order.order_id,
            symbol: order.symbol,
            side: order.side,
            order_type: order.order_type,
            tif: order.tif,
            condition: order.condition,
            price: order.price,
            original_qty: order.qty,
            filled_qty: 0,
            stop_price: order.stop_price,
            is_open: false,
        }
    }

    /// Creates the initial state of a new order.
    pub fn from_new_order(order: &NewOrder) -> (state: OrderState)
        ensures
            state == OrderState::of(*order),
    {
        OrderState {
            order_id: order.order_id,
            symbol: order.symbol,
            side: order.side,
            order_type: order.order_type,
            tif: order.tif,
            condition: order.condition,
            price: order.price,
            original_qty: order.qty,
            filled_qty: 0,
            stop_price: order.stop_price,
            is_open: false,
        }
    }
}

/// What is open of an order is its quantity without what is filled, and never less than nothing.
pub proof fn law_open_quantity(order: OrderState)
    ensures
        order.filled_qty <= order.original_qty ==> order.open() == order.original_qty
            - order.filled_qty,
        order.filled_qty >= order.original_qty ==> order.open() == 0,
{
}

/// A new order starts with its terms as submitted, nothing filled and not open.
pub proof fn law_initial_state(order: NewOrder)
    ensures
        ({
            let state = OrderState::of(order);
            &&& state.order_id == order.order_id
            &&& state.symbol == order.symbol
            &&& state.side == order.side
            &&& state.order_type == order.order_type
            &&& state.tif == order.tif
            &&& state.condition == order.condition
            &&& state.price == order.price
            &&& state.original_qty == order.qty
            &&& state.filled_qty == 0
            &&& state.stop_price == order.stop_price
            &&& !state.is_open
        }),
{
}

} // verus!
