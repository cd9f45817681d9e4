//! Simulated order flow, and statistics of what became of it.
use crate::book::OrderBook;
use crate::report;
use crate::types::{
    Command, CommandPayload, NewOrder, OrderCondition, OrderId, OrderState, OrderType, Price, Qty,
    SeqNo, Side, Symbol, TimeInForce, MARKET_PRICE,
};
use vstd::prelude::*;

verus! {

/// Nanoseconds between two simulated commands.
pub const TICK: u64 = 1_000_000;

/// Type and time in force for a draw from 0 to 4: a market order, an immediate-or-cancel or a
/// fill-or-kill limit order for the first three, and a good-til-cancel limit order else.
pub open spec fn style_of(draw: u32) -> (OrderType, TimeInForce) {
    if draw == 0 {
        (OrderType::Market, TimeInForce::GTC)
    } else if draw == 1 {
        (OrderType::Limit, TimeInForce::IOC)
    } else if draw == 2 {
        (OrderType::Limit, TimeInForce::FOK)
    } else {
        (OrderType::Limit, TimeInForce::GTC)
    }
}

/// A simulated order numbered like its command. A market order has no price.
pub open spec fn simulated(
    seq_no: SeqNo,
    symbol: Symbol,
    side: Side,
    price: Price,
    qty: Qty,
    draw: u32,
) -> NewOrder {
    let (order_type, tif) = style_of(draw);
    NewOrder {
        order_id: seq_no,
        symbol,
        side,
        order_type,
        tif,
        condition: OrderCondition::Unconditional,
        price: if order_type == OrderType::Market {
            MARKET_PRICE
        } else {
            price
        },
        qty,
        stop_price: 0,
    }
}

/// Makes a simulated order of what was drawn for it.
pub fn simulated_order(
    seq_no: SeqNo,
    symbol: Symbol,
    side: Side,
    price: Price,
    qty: Qty,
    draw: u32,
) -> (order: NewOrder)
    ensures
        order == simulated(seq_no, symbol, side, price, qty, draw),
{
    let (order_type, tif) = match draw {
        0 => (OrderType::Market, TimeInForce::GTC),
        1 => (OrderType::Limit, TimeInForce::IOC),
        2 => (OrderType::Limit, TimeInForce::FOK),
        _ => (OrderType::Limit, TimeInForce::GTC),
    };
    let effective_price = if order_type == OrderType::Market {
        MARKET_PRICE
    } else {
        price
    };
    NewOrder {
        order_id: seq_no,
        symbol,
        side,
        order_type,
        tif,
        condition: OrderCondition::Unconditional,
        price: effective_price,
        qty,
        stop_price: 0,
    }
}

/// The random number generator of the current thread, from the `rand` crate.
#[verifier::external_type_specification]
#[verifier::external_body]
pub struct ExThreadRng(rand::rngs::ThreadRng);

/// `Rng::gen_range` of the `rand` crate on an inclusive range: some number of the range. Which
/// one is left to chance. It panics on an empty range.
#[verifier::external_body]
fn draw_between(rng: &mut rand::rngs::ThreadRng, low: u64, high: u64) -> (drawn: u64)
    requires
        low <= high,
    ensures
        low <= drawn <= high,
{
    rand::Rng::gen_range(rng, low..=high)
}

/// The order is one that can be drawn for a side: at a price from 96 to 104, of a quantity from
/// 5 to 30, and of any style.
pub open spec fn drawable(order: NewOrder, seq_no: SeqNo, symbol: Symbol, side: Side) -> bool {
    exists|price: Price, qty: Qty, draw: u32|
        96 <= price <= 104 && 5 <= qty <= 30 && draw < 5 && order == #[trigger] simulated(
            seq_no,
            symbol,
            side,
            price,
            qty,
            draw,
        )
}

/// Draws price, quantity and style of an order.
pub fn draw_order(
    rng: &mut rand::rngs::ThreadRng,
    seq_no: SeqNo,
    symbol: Symbol,
    side: Side,
) -> (order: NewOrder)
    ensures
        drawable(order, seq_no, symbol, side),
{
    let price = draw_between(rng, 96, 104);
    let qty = draw_between(rng, 5, 30);
    let draw = draw_between(rng, 0, 4);
    simulated_order(seq_no, symbol, side, price, qty, draw as u32)
}

/// The command with a number, stamped by that number.
pub open spec fn stamped_by_number(seq_no: SeqNo, payload: CommandPayload) -> Command {
    Command { seq_no, timestamp: (seq_no * TICK) as u64, payload }
}

/// A simulated command, stamped by its number.
pub fn simulated_command(seq_no: SeqNo, payload: CommandPayload) -> (cmd: Command)
    requires
        seq_no * TICK <= u64::MAX,
    ensures
        cmd == (Command { seq_no, timestamp: (seq_no * TICK) as u64, payload }),
        cmd == stamped_by_number(seq_no, payload),
{
    Command { seq_no, timestamp: seq_no * TICK, payload }
}

/// The name of a time in force.
pub open spec fn tif_text(tif: TimeInForce) -> Seq<char> {
    match tif {
        TimeInForce::GTC => "GTC"@,
        TimeInForce::IOC => "IOC"@,
        TimeInForce::FOK => "FOK"@,
    }
}

/// The name of a condition.
pub open spec fn condition_text(condition: OrderCondition) -> Seq<char> {
    match condition {
        OrderCondition::Unconditional => "None"@,
        OrderCondition::AON => "AON"@,
        OrderCondition::Stop => "Stop"@,
    }
}

/// The abbreviation of an order type.
pub open spec fn type_text(order_type: OrderType) -> Seq<char> {
    match order_type {
        OrderType::Market => "MKT"@,
        OrderType::Limit => "LMT"@,
    }
}

/// The line that announces a simulated order.
pub open spec fn submission_line(seq_no: SeqNo, order: NewOrder) -> Seq<char> {
    "\n>> Submit: seq="@ + report::digits(seq_no as nat) + " "@ + report::side_text(order.side)
        + " "@ + type_text(order.order_type) + " "@ + tif_text(order.tif) + " "@ + condition_text(
        order.condition,
    ) + " price="@ + report::digits(order.price as nat) + " qty="@ + report::digits(
        order.qty as nat,
    )
}

/// Announces a simulated order.
pub fn describe_submission(seq_no: SeqNo, order: &NewOrder) -> (line: String)
    ensures
        line@ == submission_line(seq_no, *order),
{
    let mut line = "\n>> Submit: seq=".to_owned();
    line.append(report::decimal(seq_no).as_str());
    line.append(" ");
    line.append(order.side.name());
    line.append(" ");
    match order.order_type {
        OrderType::Market => line.append("MKT"),
        OrderType::Limit => line.append("LMT"),
    }
    line.append(" ");
    match order.tif {
        TimeInForce::GTC => line.append("GTC"),
        TimeInForce::IOC => line.append("IOC"),
        TimeInForce::FOK => line.append("FOK"),
    }
    line.append(" ");
    match order.condition {
        OrderCondition::Unconditional => line.append("None"),
        OrderCondition::AON => line.append("AON"),
        OrderCondition::Stop => line.append("Stop"),
    }
    line.append(" price=");
    line.append(report::decimal(order.price).as_str());
    line.append(" qty=");
    line.append(report::decimal(order.qty).as_str());
    line
}

/// The IDs of the orders on record.
pub open spec fn all_ids(orders: Map<OrderId, OrderState>) -> Set<OrderId> {
    orders.dom()
}

/// The IDs of the orders on record that are open.
pub open spec fn open_ids(orders: Map<OrderId, OrderState>) -> Set<OrderId> {
    orders.dom().filter(|id: OrderId| orders[id].is_open)
}

/// The IDs of the orders on record that are closed and were filled, entirely or in part.
pub open spec fn filled_ids(orders: Map<OrderId, OrderState>) -> Set<OrderId> {
    orders.dom().filter(|id: OrderId| !orders[id].is_open && orders[id].filled_qty > 0)
}

/// What became of the orders.
#[derive(Debug, Clone, Copy, PartialEq, Eq, Structural)]
pub struct Statistics {
    /// Orders on record.
    pub total_orders: usize,
    /// Orders that are open.
    pub open_orders: usize,
    /// Orders that are closed and were filled, entirely or in part.
    pub filled_orders: usize,
}

/// The keys that iterating over the orders yields: each once.
proof fn lemma_keys_distinct(
    orders: Map<OrderId, OrderState>,
    seq: Seq<(&OrderId, &OrderState)>,
    keys: Seq<OrderId>,
)
    requires
        seq.no_duplicates(),
        keys == seq.map_values(|entry: (&OrderId, &OrderState)| *entry.0),
        forall|j: int| 0 <= j < seq.len() ==> orders[*(#[trigger] seq[j]).0] == *seq[j].1,
    ensures
        keys.no_duplicates(),
{
    assert forall|i: int, j: int| 0 <= i < keys.len() && 0 <= j < keys.len() && i != j implies keys[i]
        != keys[j] by {
        if keys[i] == keys[j] {
            assert(orders[*seq[i].0] == *seq[i].1 && orders[*seq[j].0] == *seq[j].1);
            assert(seq[i] == seq[j]);
        }
    }
}

impl OrderBook {
    /// The IDs of the orders that are open, or of those that are closed and were filled, in no
    /// particular order.
    fn select(&self, open: bool) -> (ids: Vec<OrderId>)
        ensures
            ids@.no_duplicates(),
            ids@.to_set() == if open {
                open_ids(self@.orders)
            } else {
                filled_ids(self@.orders)
            },
    {
        broadcast use vstd::std_specs::hash::group_hash_axioms;

        let ghost orders = self.orders@;
        let source = self.orders.iter();
        let ghost seq = vstd::std_specs::iter::IteratorSpec::remaining(&source);
        let ghost keys = seq.map_values(|entry: (&OrderId, &OrderState)| *entry.0);
        proof {
            lemma_keys_distinct(orders, seq, keys);
        }
        let mut ids: Vec<OrderId> = Vec::new();
        for entry in iter: source
            invariant
                iter.seq() == seq,
                orders == self.orders@,
                keys == seq.map_values(|entry: (&OrderId, &OrderState)| *entry.0),
                keys.no_duplicates(),
                forall|j: int|
                    0 <= j < seq.len() ==> orders.contains_key(*(#[trigger] seq[j]).0)
                        && orders[*seq[j].0] == *seq[j].1,
                ids@.no_duplicates(),
                forall|id: OrderId| #[trigger]
                    ids@.contains(id) <==> keys.take(iter.index() as int).contains(id) && (if open {
                        orders[id].is_open
                    } else {
                        !orders[id].is_open && orders[id].filled_qty > 0
                    }),
        {
            let id = *entry.0;
            let order = entry.1;
            let chosen = if open {
                order.is_open
            } else {
                !order.is_open && order.filled_qty > 0
            };
            let ghost n = iter.index() as int;
            let ghost before = ids@;
            proof {
                assert(keys[n] == id);
                assert(orders[id] == *order);
                assert(!keys.take(n).contains(id)) by {
                    if keys.take(n).contains(id) {
                        let j = choose|j: int| 0 <= j < n && keys.take(n)[j] == id;
                        assert(keys[j] == keys[n]);
                    }
                }
                assert(keys.take(n + 1) =~= keys.take(n).push(id));
                assert forall|x: OrderId| #[trigger] keys.take(n + 1).contains(x) <==> keys.take(
                    n,
                ).contains(x) || x == id by {
                    lemma_push_contains(keys.take(n), id, x);
                }
                assert(!before.contains(id));
            }
            if chosen {
                ids.push(id);
                proof {
                    assert forall|x: OrderId| #[trigger] ids@.contains(x) <==> before.contains(x) || x
                        == id by {
                        lemma_push_contains(before, id, x);
                    }
                    assert(ids@.no_duplicates()) by {
                        assert forall|i: int, j: int|
                            0 <= i < ids@.len() && 0 <= j < ids@.len() && i != j implies ids@[i]
                            != ids@[j] by {
                            if i < before.len() {
                                assert(before.contains(before[i]));
                            }
                            if j < before.len() {
                                assert(before.contains(before[j]));
                            }
                        }
                    }
                }
            }
        }
        proof {
            assert(keys.take(keys.len() as int) =~= keys);
            assert forall|id: OrderId| #[trigger] keys.contains(id) <==> orders.contains_key(id) by {
                if orders.contains_key(id) {
                    assert(seq.contains((&id, &orders[id])));
                    let j = choose|j: int| 0 <= j < seq.len() && seq[j] == (&id, &orders[id]);
                    assert(keys[j] == id);
                }
                if keys.contains(id) {
                    let j = choose|j: int| 0 <= j < keys.len() && keys[j] == id;
                    assert(orders.contains_key(*seq[j].0));
                }
            }
            if open {
                assert(ids@.to_set() =~= open_ids(orders));
            } else {
                assert(ids@.to_set() =~= filled_ids(orders));
            }
        }
        ids
    }

    /// The IDs of the open orders, in no particular order.
    pub fn open_order_ids(&self) -> (ids: Vec<OrderId>)
        ensures
            ids@.no_duplicates(),
            ids@.to_set() == open_ids(self@.orders),
    {
        self.select(true)
    }

    /// Counts the orders on record.
    pub fn statistics(&self) -> (statistics: Statistics)
        ensures
            statistics.total_orders == self@.orders.dom().len(),
            statistics.total_orders == all_ids(self@.orders).len(),
            statistics.open_orders == open_ids(self@.orders).len(),
            statistics.filled_orders == filled_ids(self@.orders).len(),
    {
        let open = self.select(true);
        let filled = self.select(false);
        proof {
            open@.unique_seq_to_set();
            filled@.unique_seq_to_set();
        }
        Statistics {
            total_orders: self.orders.len(),
            open_orders: open.len(),
            filled_orders: filled.len(),
        }
    }
}

/// What a sequence with one more ID contains.
pub proof fn lemma_push_contains(s: Seq<OrderId>, id: OrderId, x: OrderId)
    ensures
        s.push(id).contains(x) <==> s.contains(x) || x == id,
{
    let longer = s.push(id);
    if longer.contains(x) {
        let i = choose|i: int| 0 <= i < longer.len() && longer[i] == x;
        if i < s.len() {
            assert(s[i] == x);
        }
    }
    if s.contains(x) {
        let i = choose|i: int| 0 <= i < s.len() && s[i] == x;
        assert(longer[i] == x);
    }
    assert(longer[s.len() as int] == id);
}

/// A simulated order has what was drawn for it: its number as ID, the given symbol, side and
/// quantity, and no condition. Draw 0 makes it a market order without a price; any other a limit
/// order at the price, immediate-or-cancel for 1, fill-or-kill for 2 and good-til-cancel else.
pub proof fn law_simulated_orders(
    seq_no: SeqNo,
    symbol: Symbol,
    side: Side,
    price: Price,
    qty: Qty,
    draw: u32,
)
    ensures
        ({
            let order = simulated(seq_no, symbol, side, price, qty, draw);
            &&& order.order_id == seq_no
            &&& order.symbol == symbol
            &&& order.side == side
            &&& order.qty == qty
            &&& order.condition == OrderCondition::Unconditional
            &&& order.stop_price == 0
            &&& order.order_type == OrderType::Market <==> draw == 0
            &&& order.price == if draw == 0 {
                0
            } else {
                price
            }
            &&& order.tif == TimeInForce::IOC <==> draw == 1
            &&& order.tif == TimeInForce::FOK <==> draw == 2
        }),
{
}

/// Every order on record is counted, once. Those counted as open are the ones that are open; those
/// counted as filled are closed and were filled at least in part. No order is counted as both.
pub proof fn law_statistics_count_orders(orders: Map<OrderId, OrderState>, id: OrderId)
    requires
        orders.dom().finite(),
    ensures
        all_ids(orders).contains(id) <==> orders.contains_key(id),
        open_ids(orders).contains(id) <==> orders.contains_key(id) && orders[id].is_open,
        filled_ids(orders).contains(id) <==> orders.contains_key(id) && !orders[id].is_open
            && orders[id].filled_qty > 0,
        open_ids(orders).len() + filled_ids(orders).len() <= all_ids(orders).len(),
{
    let open = open_ids(orders);
    let filled = filled_ids(orders);
    assert(open.disjoint(filled));
    vstd::set_lib::lemma_set_disjoint_lens(open, filled);
    assert((open + filled).subset_of(orders.dom()));
    vstd::set_lib::lemma_len_subset(open + filled, orders.dom());
}

/// The line that announces an order names its number, side, type, time in force, condition, price
/// and quantity.
pub proof fn law_submission_lines(seq_no: SeqNo, order: NewOrder)
    ensures
        submission_line(seq_no, order) == "\n>> Submit: seq="@ + report::digits(seq_no as nat)
            + " "@ + (match order.side {
            Side::Buy => "Buy"@,
            Side::Sell => "Sell"@,
        }) + " "@ + (match order.order_type {
            OrderType::Market => "MKT"@,
            OrderType::Limit => "LMT"@,
        }) + " "@ + (match order.tif {
            TimeInForce::GTC => "GTC"@,
            TimeInForce::IOC => "IOC"@,
            TimeInForce::FOK => "FOK"@,
        }) + " "@ + (match order.condition {
            OrderCondition::Unconditional => "None"@,
            OrderCondition::AON => "AON"@,
            OrderCondition::Stop => "Stop"@,
        }) + " price="@ + report::digits(order.price as nat) + " qty="@ + report::digits(
            order.qty as nat,
        ),
{
}

/// Simulated commands carry their number and their payload, and the time between two of them is a
/// thousandth of a second, in nanoseconds, for every number between them. The clock starts at zero.
pub proof fn law_simulated_time(a: SeqNo, b: SeqNo, payload: CommandPayload, other: CommandPayload)
    requires
        b * 1_000_000 <= u64::MAX,
        a <= b,
    ensures
        ({
            let first = stamped_by_number(a, payload);
            let second = stamped_by_number(b, other);
            &&& first.seq_no == a
            &&& first.payload == payload
            &&& second.timestamp - first.timestamp == (b - a) * 1_000_000
            &&& a == 0 ==> first.timestamp == 0
        }),
{
}

/// A drawn order is unconditional and of the given side and symbol, of 5 to 30 units, and if it
/// has a limit, then from 96 to 104. A market order has no price.
pub proof fn law_drawn_orders(order: NewOrder, seq_no: SeqNo, symbol: Symbol, side: Side)
    requires
        drawable(order, seq_no, symbol, side),
    ensures
        order.order_id == seq_no,
        order.symbol == symbol,
        order.side == side,
        order.condition == OrderCondition::Unconditional,
        5 <= order.qty <= 30,
        order.order_type == OrderType::Limit ==> 96 <= order.price <= 104,
        order.order_type == OrderType::Market ==> order.price == 0,
{
}

/// Every style, price and quantity in these bounds can be drawn.
pub proof fn law_all_can_be_drawn(
    seq_no: SeqNo,
    symbol: Symbol,
    side: Side,
    price: Price,
    qty: Qty,
    draw: u32,
)
    requires
        96 <= price <= 104,
        5 <= qty <= 30,
        draw < 5,
    ensures
        drawable(simulated(seq_no, symbol, side, price, qty, draw), seq_no, symbol, side),
{
}

} // verus!
