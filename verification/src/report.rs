//! Text for people: one line per event, a summary of the book, and statistics.
use crate::book;
use crate::book::{BookSide, OrderBook};
use crate::feed::MarketDataTracker;
use crate::types::{Bbo, DepthLevel, EngineEvent, Fill, OrderId, Price, RejectReason, Side};
use vstd::prelude::*;

verus! {

// ---------------------------------------------------------------------------
// Words
// ---------------------------------------------------------------------------

/// The texts of strings.
pub open spec fn texts(strings: Seq<String>) -> Seq<Seq<char>> {
    strings.map_values(|string: String| string@)
}

/// A decimal digit.
pub open spec fn digit(n: nat) -> char {
    ('0' as nat + n) as char
}

/// A number in decimal.
pub open spec fn digits(n: nat) -> Seq<char>
    decreases n,
{
    if n < 10 {
        seq![digit(n)]
    } else {
        digits(n / 10).push(digit(n % 10))
    }
}

/// Writes a number in decimal.
pub fn decimal(n: u64) -> (text: String)
    ensures
        text@ == digits(n as nat),
    decreases n,
{
    let mut text = if n < 10 {
        String::new()
    } else {
        decimal(n / 10)
    };
    let ghost before = text@;
    text.append(numeral(n % 10));
    assert(text@ =~= before.push(digit((n % 10) as nat)));
    assert(n < 10 ==> text@ =~= seq![digit(n as nat)]);
    text
}

/// Writes a decimal digit.
fn numeral(n: u64) -> (text: &'static str)
    requires
        n < 10,
    ensures
        text@ == seq![digit(n as nat)],
{
    proof {
        reveal_strlit("0");
        reveal_strlit("1");
        reveal_strlit("2");
        reveal_strlit("3");
        reveal_strlit("4");
        reveal_strlit("5");
        reveal_strlit("6");
        reveal_strlit("7");
        reveal_strlit("8");
        reveal_strlit("9");
    }
    let text = match n {
        0 => "0",
        1 => "1",
        2 => "2",
        3 => "3",
        4 => "4",
        5 => "5",
        6 => "6",
        7 => "7",
        8 => "8",
        _ => "9",
    };
    assert(text@ =~= seq![digit(n as nat)]);
    text
}

/// The name of a truth value.
pub open spec fn truth(b: bool) -> Seq<char> {
    if b {
        "true"@
    } else {
        "false"@
    }
}

/// A price, or dashes where there is none.
pub open spec fn price_text(price: Option<Price>) -> Seq<char> {
    match price {
        Some(price) => digits(price as nat),
        None => "--"@,
    }
}

/// The name of a side.
pub open spec fn side_text(side: Side) -> Seq<char> {
    match side {
        Side::Buy => "Buy"@,
        Side::Sell => "Sell"@,
    }
}

/// The words for a reason.
pub open spec fn reason_text(reason: RejectReason) -> Seq<char> {
    match reason {
        RejectReason::UnknownOrder => "UnknownOrder"@,
        RejectReason::DuplicateOrderId => "DuplicateOrderId"@,
        RejectReason::InvalidPrice => "InvalidPrice"@,
        RejectReason::InvalidQuantity => "InvalidQuantity"@,
        RejectReason::FOKNotFillable => "FOKNotFillable"@,
        RejectReason::AONNotFillable => "AONNotFillable"@,
        RejectReason::ReplaceQtyIncrease => "ReplaceQtyIncrease"@,
        RejectReason::NothingToCancel => "NothingToCancel"@,
        RejectReason::NoLiquidity => "NoLiquidity"@,
        RejectReason::UnknownSymbol => "UnknownSymbol"@,
        RejectReason::InternalError => "InternalError"@,
    }
}

impl RejectReason {
    /// The reason's display name.
    pub fn name(self) -> (name: &'static str)
        ensures
            name@ == reason_text(self),
    {
        match self {
            RejectReason::UnknownOrder => "UnknownOrder",
            RejectReason::DuplicateOrderId => "DuplicateOrderId",
            RejectReason::InvalidPrice => "InvalidPrice",
            RejectReason::InvalidQuantity => "InvalidQuantity",
            RejectReason::FOKNotFillable => "FOKNotFillable",
            RejectReason::AONNotFillable => "AONNotFillable",
            RejectReason::ReplaceQtyIncrease => "ReplaceQtyIncrease",
            RejectReason::NothingToCancel => "NothingToCancel",
            RejectReason::NoLiquidity => "NoLiquidity",
            RejectReason::UnknownSymbol => "UnknownSymbol",
            RejectReason::InternalError => "InternalError",
        }
    }
}

/// Adds a label and a value to a line.
fn put(line: &mut String, label: &str, value: &str)
    ensures
        final(line)@ == old(line)@ + label@ + value@,
{
    line.append(label);
    line.append(value);
}

/// Adds a label and a number to a line.
fn put_number(line: &mut String, label: &str, value: u64)
    ensures
        final(line)@ == old(line)@ + label@ + digits(value as nat),
{
    put(line, label, decimal(value).as_str());
}

/// Adds a label and a truth value to a line.
fn put_truth(line: &mut String, label: &str, value: bool)
    ensures
        final(line)@ == old(line)@ + label@ + truth(value),
{
    if value {
        put(line, label, "true");
    } else {
        put(line, label, "false");
    }
}

/// Adds a label and a price to a line.
fn put_price(line: &mut String, label: &str, price: Option<Price>)
    ensures
        final(line)@ == old(line)@ + label@ + price_text(price),
{
    match price {
        Some(price) => put_number(line, label, price),
        None => put(line, label, "--"),
    }
}

// ---------------------------------------------------------------------------
// Events
// ---------------------------------------------------------------------------

/// A line that names an order.
pub open spec fn order_line(label: Seq<char>, order_id: OrderId) -> Seq<char> {
    label + " order_id="@ + digits(order_id as nat)
}

/// A line that names an order and a reason.
pub open spec fn reason_line(
    label: Seq<char>,
    order_id: OrderId,
    reason: RejectReason,
) -> Seq<char> {
    order_line(label, order_id) + " reason="@ + reason_text(reason)
}

/// The line of a row of a depth change.
pub open spec fn row_line(row: DepthLevel) -> Seq<char> {
    ""@ + "    price="@ + digits(row.price as nat) + " qty="@ + digits(row.qty as nat) + " orders="@
        + digits(row.order_count as nat)
}

/// The line of a best bid and offer.
pub open spec fn bbo_line(label: Seq<char>, bbo: Bbo, between: Seq<char>) -> Seq<char> {
    label + " bid="@ + digits(bbo.bid_qty as nat) + "@"@ + price_text(bbo.bid_price) + between
        + digits(bbo.ask_qty as nat) + "@"@ + price_text(bbo.ask_price)
}

/// The lines of an event.
pub open spec fn event_lines(event: EngineEvent) -> Seq<Seq<char>> {
    match event {
        EngineEvent::OrderAccepted { order_id, .. } => seq![order_line("  [ACCEPTED]"@, order_id)],
        EngineEvent::OrderRejected { order_id, reason, .. } => seq![
            reason_line("  [REJECTED]"@, order_id, reason),
        ],
        EngineEvent::Trade(fill) => seq![
            "  [TRADE]"@ + " maker="@ + digits(fill.maker_order_id as nat) + " taker="@ + digits(
                fill.taker_order_id as nat,
            ) + " price="@ + digits(fill.price as nat) + " qty="@ + digits(fill.qty as nat)
                + " maker_done="@ + truth(fill.maker_filled_completely) + " taker_done="@ + truth(
                fill.taker_filled_completely,
            ),
        ],
        EngineEvent::OrderCanceled { order_id, remaining_qty, .. } => seq![
            order_line("  [CANCELED]"@, order_id) + " remaining="@ + digits(remaining_qty as nat),
        ],
        EngineEvent::CancelRejected { order_id, reason, .. } => seq![
            reason_line("  [CANCEL_REJECTED]"@, order_id, reason),
        ],
        EngineEvent::OrderReplaced { order_id, new_price, new_qty, .. } => seq![
            order_line("  [REPLACED]"@, order_id) + " new_price="@ + digits(new_price as nat)
                + " new_qty="@ + digits(new_qty as nat),
        ],
        EngineEvent::ReplaceRejected { order_id, reason, .. } => seq![
            reason_line("  [REPLACE_REJECTED]"@, order_id, reason),
        ],
        EngineEvent::BboChanged(bbo) => seq![bbo_line("  [BBO]"@, bbo, " ask="@)],
        EngineEvent::DepthChanged { side, levels } => seq![
            ""@ + "  [DEPTH:"@ + side_text(side) + "]"@,
        ] + levels@.map_values(|row: DepthLevel| row_line(row)),
    }
}

/// The lines of the events, and the last best bid and offer shown. A best bid and offer is shown
/// only if it differs from the last one.
pub open spec fn shown(events: Seq<EngineEvent>, last: Option<Bbo>) -> (
    Seq<Seq<char>>,
    Option<Bbo>,
)
    decreases events.len(),
{
    if events.len() == 0 {
        (Seq::empty(), last)
    } else {
        let (lines, bbo) = shown(events.drop_last(), last);
        match events.last() {
            EngineEvent::BboChanged(new) => if bbo == Some(new) {
                (lines, bbo)
            } else {
                (lines + event_lines(events.last()), Some(new))
            },
            _ => (lines + event_lines(events.last()), bbo),
        }
    }
}

/// A line that names an order.
fn order_text(label: &str, order_id: OrderId) -> (line: String)
    ensures
        line@ == order_line(label@, order_id),
{
    let mut line = label.to_owned();
    put_number(&mut line, " order_id=", order_id);
    line
}

/// A line that names an order and a reason.
fn rejection_text(label: &str, order_id: OrderId, reason: RejectReason) -> (line: String)
    ensures
        line@ == reason_line(label@, order_id, reason),
{
    let mut line = order_text(label, order_id);
    put(&mut line, " reason=", reason.name());
    line
}

/// A line that shows a best bid and offer.
fn bbo_text(label: &str, bbo: &Bbo, between: &str) -> (line: String)
    ensures
        line@ == bbo_line(label@, *bbo, between@),
{
    let mut line = label.to_owned();
    put_number(&mut line, " bid=", bbo.bid_qty);
    put_price(&mut line, "@", bbo.bid_price);
    put_number(&mut line, between, bbo.ask_qty);
    put_price(&mut line, "@", bbo.ask_price);
    line
}

/// Adds a line.
fn push_line(lines: &mut Vec<String>, line: String)
    ensures
        texts(final(lines)@) == texts(old(lines)@).push(line@),
{
    let ghost before = lines@;
    lines.push(line);
    assert(texts(lines@) =~= texts(before).push(line@));
}

/// Adds the lines of an event.
fn push_event(lines: &mut Vec<String>, event: &EngineEvent)
    ensures
        texts(final(lines)@) == texts(old(lines)@) + event_lines(*event),
{
    let ghost before = texts(lines@);
    match event {
        EngineEvent::OrderAccepted { order_id, .. } => {
            push_line(lines, order_text("  [ACCEPTED]", *order_id));
        },
        EngineEvent::OrderRejected { order_id, reason, .. } => {
            push_line(lines, rejection_text("  [REJECTED]", *order_id, *reason));
        },
        EngineEvent::Trade(fill) => {
            let mut line = "  [TRADE]".to_owned();
            put_number(&mut line, " maker=", fill.maker_order_id);
            put_number(&mut line, " taker=", fill.taker_order_id);
            put_number(&mut line, " price=", fill.price);
            put_number(&mut line, " qty=", fill.qty);
            put_truth(&mut line, " maker_done=", fill.maker_filled_completely);
            put_truth(&mut line, " taker_done=", fill.taker_filled_completely);
            push_line(lines, line);
        },
        EngineEvent::OrderCanceled { order_id, remaining_qty, .. } => {
            let mut line = order_text("  [CANCELED]", *order_id);
            put_number(&mut line, " remaining=", *remaining_qty);
            push_line(lines, line);
        },
        EngineEvent::CancelRejected { order_id, reason, .. } => {
            push_line(lines, rejection_text("  [CANCEL_REJECTED]", *order_id, *reason));
        },
        EngineEvent::OrderReplaced { order_id, new_price, new_qty, .. } => {
            let mut line = order_text("  [REPLACED]", *order_id);
            put_number(&mut line, " new_price=", *new_price);
            put_number(&mut line, " new_qty=", *new_qty);
            push_line(lines, line);
        },
        EngineEvent::ReplaceRejected { order_id, reason, .. } => {
            push_line(lines, rejection_text("  [REPLACE_REJECTED]", *order_id, *reason));
        },
        EngineEvent::BboChanged(bbo) => {
            push_line(lines, bbo_text("  [BBO]", bbo, " ask="));
        },
        EngineEvent::DepthChanged { side, levels } => {
            push_depth_change(lines, *side, levels);
        },
    }
    assert(texts(lines@) =~= before + event_lines(*event));
}

/// Adds the lines of a depth change.
fn push_depth_change(lines: &mut Vec<String>, side: Side, levels: &Vec<DepthLevel>)
    ensures
        texts(final(lines)@) == texts(old(lines)@) + (seq![
            ""@ + "  [DEPTH:"@ + side_text(side) + "]"@,
        ] + levels@.map_values(|row: DepthLevel| row_line(row))),
{
    let ghost before = texts(lines@);
    let ghost rows = levels@.map_values(|row: DepthLevel| row_line(row));
    let mut line = "".to_owned();
    put(&mut line, "  [DEPTH:", side.name());
    line.append("]");
    let ghost head = line@;
    push_line(lines, line);
    let mut i: usize = 0;
    assert(rows.take(0) =~= Seq::empty());
    assert(texts(lines@) =~= before.push(head) + rows.take(0));
    while i < levels.len()
        invariant
            i <= levels@.len() == rows.len(),
            rows == levels@.map_values(|row: DepthLevel| row_line(row)),
            texts(lines@) == before.push(head) + rows.take(i as int),
        decreases levels@.len() - i,
    {
        let row = levels[i];
        let mut line = "".to_owned();
        put_number(&mut line, "    price=", row.price);
        put_number(&mut line, " qty=", row.qty);
        put_number(&mut line, " orders=", row.order_count as u64);
        push_line(lines, line);
        assert(rows.take(i + 1) =~= rows.take(i as int).push(rows[i as int]));
        assert(texts(lines@) =~= before.push(head) + rows.take(i + 1));
        i = i + 1;
    }
    assert(rows.take(i as int) =~= rows);
    assert(texts(lines@) =~= before + (seq![head] + rows));
}

/// The lines of a command's events. The tracker decides whether its best bid and offer is news.
pub fn describe_events(events: &Vec<EngineEvent>, md: &mut MarketDataTracker) -> (lines: Vec<
    String,
>)
    ensures
        texts(lines@) == shown(events@, old(md).bbo()).0,
        final(md).bbo() == shown(events@, old(md).bbo()).1,
        final(md).symbol == old(md).symbol,
        forall|side: Side| final(md).depth(side) == old(md).depth(side),
{
    let mut lines: Vec<String> = Vec::new();
    let mut i: usize = 0;
    assert(events@.take(0) =~= Seq::empty());
    assert(texts(lines@) =~= Seq::empty());
    while i < events.len()
        invariant
            i <= events@.len(),
            texts(lines@) == shown(events@.take(i as int), old(md).bbo()).0,
            md.bbo() == shown(events@.take(i as int), old(md).bbo()).1,
            md.symbol == old(md).symbol,
            forall|side: Side| md.depth(side) == old(md).depth(side),
        decreases events@.len() - i,
    {
        let event = &events[i];
        assert(events@.take(i + 1).drop_last() =~= events@.take(i as int));
        assert(events@.take(i + 1).last() == *event);
        let is_news = match event {
            EngineEvent::BboChanged(bbo) => md.update_bbo(*bbo).is_some(),
            _ => true,
        };
        if is_news {
            push_event(&mut lines, event);
        }
        i = i + 1;
    }
    assert(events@.take(i as int) =~= events@);
    lines
}

// ---------------------------------------------------------------------------
// The book
// ---------------------------------------------------------------------------

/// The line of a row of the book's depth.
pub open spec fn level_line(row: DepthLevel) -> Seq<char> {
    ""@ + "  "@ + digits(row.price as nat) + " x "@ + digits(row.qty as nat) + " ("@ + digits(
        row.order_count as nat,
    ) + " orders)"@
}

/// The lines of a side: the number of its levels, and its five best levels.
pub open spec fn side_lines(label: Seq<char>, side: BookSide) -> Seq<Seq<char>> {
    seq![""@ + label + digits(side@.dom().len()) + " levels):"@] + book::depth_rows(
        side.side.order_side(),
        side@,
        5,
    ).map_values(|row: DepthLevel| level_line(row))
}

/// The lines of the book's summary.
pub open spec fn summary_lines(book: OrderBook) -> Seq<Seq<char>> {
    let bbo = Bbo {
        bid_price: book.bids.best_price(),
        bid_qty: book.bids.best_qty(),
        ask_price: book.asks.best_price(),
        ask_qty: book.asks.best_qty(),
    };
    let uncrossed = match (bbo.bid_price, bbo.ask_price) {
        (Some(bid), Some(ask)) => bid < ask,
        _ => true,
    };
    seq!["\n--- Book Summary ---"@, bbo_line("BBO:"@, bbo, " | ask="@)] + side_lines(
        "Bid depth ("@,
        book.bids,
    ) + side_lines("Ask depth ("@, book.asks) + seq![""@ + "Uncrossed: "@ + truth(uncrossed)]
}

/// Adds the lines of a side.
fn push_side(lines: &mut Vec<String>, label: &str, side: &BookSide)
    ensures
        texts(final(lines)@) == texts(old(lines)@) + side_lines(label@, *side),
{
    let ghost before = texts(lines@);
    let depth = side.depth(5);
    let ghost rows = depth@.map_values(|row: DepthLevel| level_line(row));
    let mut line = "".to_owned();
    put_number(&mut line, label, side.level_count() as u64);
    line.append(" levels):");
    let ghost head = line@;
    push_line(lines, line);
    let mut i: usize = 0;
    assert(rows.take(0) =~= Seq::empty());
    assert(texts(lines@) =~= before.push(head) + rows.take(0));
    while i < depth.len()
        invariant
            i <= depth@.len() == rows.len(),
            rows == depth@.map_values(|row: DepthLevel| level_line(row)),
            texts(lines@) == before.push(head) + rows.take(i as int),
        decreases depth@.len() - i,
    {
        let row = depth[i];
        let mut line = "".to_owned();
        put_number(&mut line, "  ", row.price);
        put_number(&mut line, " x ", row.qty);
        put_number(&mut line, " (", row.order_count as u64);
        line.append(" orders)");
        push_line(lines, line);
        assert(rows.take(i + 1) =~= rows.take(i as int).push(rows[i as int]));
        assert(texts(lines@) =~= before.push(head) + rows.take(i + 1));
        i = i + 1;
    }
    assert(rows.take(i as int) =~= rows);
    assert(texts(lines@) =~= before + (seq![head] + rows));
}

/// The lines of the book's summary: best bid and offer, depth, and whether it is uncrossed.
pub fn book_summary(book: &OrderBook) -> (lines: Vec<String>)
    ensures
        texts(lines@) == summary_lines(*book),
{
    let mut lines: Vec<String> = Vec::new();
    let bbo = book.bbo();
    assert(texts(lines@) =~= Seq::empty());
    push_line(&mut lines, "\n--- Book Summary ---".to_owned());
    push_line(&mut lines, bbo_text("BBO:", &bbo, " | ask="));
    assert(texts(lines@) =~= seq!["\n--- Book Summary ---"@, bbo_line("BBO:"@, bbo, " | ask="@)]);
    push_side(&mut lines, "Bid depth (", &book.bids);
    push_side(&mut lines, "Ask depth (", &book.asks);
    let mut line = "".to_owned();
    put_truth(&mut line, "Uncrossed: ", book.is_uncrossed());
    push_line(&mut lines, line);
    assert(texts(lines@) =~= summary_lines(*book));
    lines
}

// ---------------------------------------------------------------------------
// What the lines say
// ---------------------------------------------------------------------------

/// The number that a text of decimal digits stands for.
pub open spec fn value_of(text: Seq<char>) -> int
    decreases text.len(),
{
    if text.len() == 0 {
        0
    } else {
        10 * value_of(text.drop_last()) + (text.last() as int - '0' as int)
    }
}

/// A number in decimal stands for that number. It consists of digits, and the first of several is
/// not zero. So different numbers have different texts.
pub proof fn law_decimals_read_back(n: nat)
    ensures
        value_of(digits(n)) == n,
        digits(n).len() > 0,
        forall|i: int| 0 <= i < digits(n).len() ==> '0' <= #[trigger] digits(n)[i] <= '9',
        digits(n).len() > 1 ==> digits(n)[0] != '0',
        n > 0 ==> digits(n)[0] != '0',
    decreases n,
{
    let text = digits(n);
    if n < 10 {
        assert(text.drop_last() =~= Seq::empty());
        assert(value_of(text.drop_last()) == 0);
    } else {
        law_decimals_read_back(n / 10);
        assert(text.drop_last() =~= digits(n / 10));
        assert forall|i: int| 0 <= i < text.len() implies '0' <= #[trigger] text[i] <= '9' by {
            if i < text.len() - 1 {
                assert(text[i] == digits(n / 10)[i]);
            }
        }
        assert(text[0] == digits(n / 10)[0]);
    }
}

/// Each kind of event about an order has its line, which names the order and what the event says
/// of it.
pub proof fn law_order_lines(event: EngineEvent)
    ensures
        ({
            let lines = event_lines(event);
            match event {
                EngineEvent::OrderAccepted { order_id, .. } => lines == seq![
                    "  [ACCEPTED]"@ + " order_id="@ + digits(order_id as nat),
                ],
                EngineEvent::OrderRejected { order_id, reason, .. } => lines == seq![
                    "  [REJECTED]"@ + " order_id="@ + digits(order_id as nat) + " reason="@
                        + reason_text(reason),
                ],
                EngineEvent::OrderCanceled { order_id, remaining_qty, .. } => lines == seq![
                    "  [CANCELED]"@ + " order_id="@ + digits(order_id as nat) + " remaining="@
                        + digits(remaining_qty as nat),
                ],
                EngineEvent::CancelRejected { order_id, reason, .. } => lines == seq![
                    "  [CANCEL_REJECTED]"@ + " order_id="@ + digits(order_id as nat) + " reason="@
                        + reason_text(reason),
                ],
                EngineEvent::OrderReplaced { order_id, new_price, new_qty, .. } => lines == seq![
                    "  [REPLACED]"@ + " order_id="@ + digits(order_id as nat) + " new_price="@
                        + digits(new_price as nat) + " new_qty="@ + digits(new_qty as nat),
                ],
                EngineEvent::ReplaceRejected { order_id, reason, .. } => lines == seq![
                    "  [REPLACE_REJECTED]"@ + " order_id="@ + digits(order_id as nat) + " reason="@
                        + reason_text(reason),
                ],
                _ => true,
            }
        }),
{
}

/// A trade's line names maker, taker, price and quantity, and whether each of them is done.
pub proof fn law_trade_lines(fill: Fill)
    ensures
        event_lines(EngineEvent::Trade(fill)) == seq![
            "  [TRADE]"@ + " maker="@ + digits(fill.maker_order_id as nat) + " taker="@ + digits(
                fill.taker_order_id as nat,
            ) + " price="@ + digits(fill.price as nat) + " qty="@ + digits(fill.qty as nat)
                + " maker_done="@ + (if fill.maker_filled_completely {
                "true"@
            } else {
                "false"@
            }) + " taker_done="@ + (if fill.taker_filled_completely {
                "true"@
            } else {
                "false"@
            }),
        ],
{
}

/// A best bid and offer has one line with quantity and price of each side, dashes for a price that
/// there is not. A depth has a line for its side and one for each of its rows, in their order.
pub proof fn law_market_lines(bbo: Bbo, side: Side, levels: Vec<DepthLevel>)
    ensures
        event_lines(EngineEvent::BboChanged(bbo)) == seq![
            "  [BBO]"@ + " bid="@ + digits(bbo.bid_qty as nat) + "@"@ + (match bbo.bid_price {
                Some(price) => digits(price as nat),
                None => "--"@,
            }) + " ask="@ + digits(bbo.ask_qty as nat) + "@"@ + (match bbo.ask_price {
                Some(price) => digits(price as nat),
                None => "--"@,
            }),
        ],
        ({
            let lines = event_lines(EngineEvent::DepthChanged { side, levels });
            &&& lines.len() == levels@.len() + 1
            &&& lines[0] == ""@ + "  [DEPTH:"@ + (match side {
                Side::Buy => "Buy"@,
                Side::Sell => "Sell"@,
            }) + "]"@
            &&& forall|i: int|
                0 <= i < levels@.len() ==> #[trigger] lines[i + 1] == ""@ + "    price="@ + digits(
                    levels@[i].price as nat,
                ) + " qty="@ + digits(levels@[i].qty as nat) + " orders="@ + digits(
                    levels@[i].order_count as nat,
                )
        }),
{
}

/// Events are shown one after the other, each with its lines. Only a best bid and offer that is
/// the last one shown is left out, and only a best bid and offer takes that one's place.
pub proof fn law_events_are_shown(events: Seq<EngineEvent>, event: EngineEvent, last: Option<Bbo>)
    ensures
        shown(Seq::empty(), last) == (Seq::<Seq<char>>::empty(), last),
        ({
            let before = shown(events, last);
            let after = shown(events.push(event), last);
            match event {
                EngineEvent::BboChanged(bbo) => {
                    &&& after.1 == Some(bbo)
                    &&& before.1 == Some(bbo) ==> after.0 == before.0
                    &&& before.1 != Some(bbo) ==> after.0 == before.0 + event_lines(event)
                },
                _ => after.1 == before.1 && after.0 == before.0 + event_lines(event),
            }
        }),
{
    assert(events.push(event).drop_last() =~= events);
}

/// The summary starts with a heading and the best bid and offer, goes on with the bid side and then
/// the ask side, and ends with whether every bid is below every ask.
pub proof fn law_summary_frame(book: OrderBook)
    ensures
        ({
            let lines = summary_lines(book);
            let crossed = book.bids.best_price() is Some && book.asks.best_price() is Some
                && book.bids.best_price()->0 >= book.asks.best_price()->0;
            &&& lines.len() >= 5
            &&& lines[0] == "\n--- Book Summary ---"@
            &&& lines[1] == "BBO:"@ + " bid="@ + digits(book.bids.best_qty() as nat) + "@"@ + (
            match book.bids.best_price() {
                Some(price) => digits(price as nat),
                None => "--"@,
            }) + " | ask="@ + digits(book.asks.best_qty() as nat) + "@"@ + (
            match book.asks.best_price() {
                Some(price) => digits(price as nat),
                None => "--"@,
            })
            &&& lines.subrange(2, lines.len() - 1) == side_lines("Bid depth ("@, book.bids)
                + side_lines("Ask depth ("@, book.asks)
            &&& lines.last() == ""@ + "Uncrossed: "@ + (if crossed {
                "false"@
            } else {
                "true"@
            })
        }),
{
    let lines = summary_lines(book);
    assert(lines.subrange(2, lines.len() - 1) =~= side_lines("Bid depth ("@, book.bids)
        + side_lines("Ask depth ("@, book.asks));
}

/// Between, each side has a line with the number of its levels and one for each of its five best
/// levels: price, quantity and number of orders.
pub proof fn law_summary_depth(label: Seq<char>, side: BookSide)
    ensures
        ({
            let lines = side_lines(label, side);
            let rows = book::depth_rows(side.side.order_side(), side@, 5);
            &&& lines.len() == rows.len() + 1
            &&& lines[0] == ""@ + label + digits(side@.dom().len()) + " levels):"@
            &&& forall|i: int|
                0 <= i < rows.len() ==> #[trigger] lines[i + 1] == ""@ + "  "@ + digits(
                    rows[i].price as nat,
                ) + " x "@ + digits(rows[i].qty as nat) + " ("@ + digits(rows[i].order_count as nat)
                    + " orders)"@
        }),
{
}

/// Every reason is called by its name.
pub proof fn law_reason_names()
    ensures
        reason_text(RejectReason::UnknownOrder) == "UnknownOrder"@,
        reason_text(RejectReason::DuplicateOrderId) == "DuplicateOrderId"@,
        reason_text(RejectReason::InvalidPrice) == "InvalidPrice"@,
        reason_text(RejectReason::InvalidQuantity) == "InvalidQuantity"@,
        reason_text(RejectReason::FOKNotFillable) == "FOKNotFillable"@,
        reason_text(RejectReason::AONNotFillable) == "AONNotFillable"@,
        reason_text(RejectReason::ReplaceQtyIncrease) == "ReplaceQtyIncrease"@,
        reason_text(RejectReason::NothingToCancel) == "NothingToCancel"@,
        reason_text(RejectReason::NoLiquidity) == "NoLiquidity"@,
        reason_text(RejectReason::UnknownSymbol) == "UnknownSymbol"@,
        reason_text(RejectReason::InternalError) == "InternalError"@,
{
}

} // verus!
