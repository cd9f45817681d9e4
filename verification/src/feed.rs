//! Market data feed: tells which best bid and offer and which depth are news.
use crate::types::{Bbo, DepthLevel, EngineEvent, Side, Symbol};
use vstd::prelude::*;

verus! {

/// Tracks the last market data seen and detects changes.
#[derive(Debug, Clone)]
pub struct MarketDataTracker {
    pub symbol: Symbol,
    /// The last best bid and offer seen.
    pub last_bbo: Option<Bbo>,
    /// The last depth of the bids seen.
    pub last_bid_depth: Vec<DepthLevel>,
    /// The last depth of the asks seen.
    pub last_ask_depth: Vec<DepthLevel>,
}

/// The event says that a side's depth is now `rows`.
pub open spec fn reports_depth(event: EngineEvent, side: Side, rows: Seq<DepthLevel>) -> bool {
    event matches EngineEvent::DepthChanged { side: changed, levels } && changed == side
        && levels@ == rows
}

/// The events report each side's depth that changed, bids first, and nothing else.
pub open spec fn reports_changes(
    events: Seq<EngineEvent>,
    bids_before: Seq<DepthLevel>,
    asks_before: Seq<DepthLevel>,
    bids: Seq<DepthLevel>,
    asks: Seq<DepthLevel>,
) -> bool {
    if bids != bids_before && asks != asks_before {
        &&& events.len() == 2
        &&& reports_depth(events[0], Side::Buy, bids)
        &&& reports_depth(events[1], Side::Sell, asks)
    } else if bids != bids_before {
        &&& events.len() == 1
        &&& reports_depth(events[0], Side::Buy, bids)
    } else if asks != asks_before {
        &&& events.len() == 1
        &&& reports_depth(events[0], Side::Sell, asks)
    } else {
        events.len() == 0
    }
}

/// Whether two depths have the same rows.
fn same_rows(a: &Vec<DepthLevel>, b: &Vec<DepthLevel>) -> (same: bool)
    ensures
        same == (a@ == b@),
{
    if a.len() != b.len() {
        return false;
    }
    let mut i: usize = 0;
    while i < a.len()
        invariant
            i <= a@.len() == b@.len(),
            forall|j: int| 0 <= j < i ==> a@[j] == b@[j],
        decreases a@.len() - i,
    {
        if a[i] != b[i] {
            return false;
        }
        i = i + 1;
    }
    assert(a@ =~= b@);
    true
}

/// A copy of a depth.
fn copied(rows: &Vec<DepthLevel>) -> (copy: Vec<DepthLevel>)
    ensures
        copy@ == rows@,
{
    let mut copy: Vec<DepthLevel> = Vec::new();
    let mut i: usize = 0;
    while i < rows.len()
        invariant
            i <= rows@.len(),
            copy@ == rows@.take(i as int),
        decreases rows@.len() - i,
    {
        copy.push(rows[i]);
        assert(copy@ =~= rows@.take(i + 1));
        i = i + 1;
    }
    assert(rows@.take(i as int) =~= rows@);
    copy
}

impl MarketDataTracker {
    /// The last best bid and offer seen.
    pub open spec fn bbo(&self) -> Option<Bbo> {
        self.last_bbo
    }

    /// The last depth seen of a side.
    pub open spec fn depth(&self, side: Side) -> Seq<DepthLevel> {
        match side {
            Side::Buy => self.last_bid_depth@,
            Side::Sell => self.last_ask_depth@,
        }
    }

    /// Creates a tracker that has seen nothing.
    pub fn new(symbol: Symbol) -> (tracker: MarketDataTracker)
        ensures
            tracker.symbol == symbol,
            tracker.bbo() is None,
            tracker.depth(Side::Buy) == Seq::<DepthLevel>::empty(),
            tracker.depth(Side::Sell) == Seq::<DepthLevel>::empty(),
    {
        MarketDataTracker {
            symbol,
            last_bbo: None,
            last_bid_depth: Vec::new(),
            last_ask_depth: Vec::new(),
        }
    }

    /// Takes note of a best bid and offer. Returns the event if it changed.
    pub fn update_bbo(&mut self, bbo: Bbo) -> (event: Option<EngineEvent>)
        ensures
            final(self).bbo() == Some(bbo),
            event == (if old(self).bbo() == Some(bbo) {
                None
            } else {
                Some(EngineEvent::BboChanged(bbo))
            }),
            final(self).symbol == old(self).symbol,
            forall|side: Side| final(self).depth(side) == old(self).depth(side),
    {
        let known = match &self.last_bbo {
            Some(last) => *last == bbo,
            None => false,
        };
        if known {
            None
        } else {
            self.last_bbo = Some(bbo);
            Some(EngineEvent::BboChanged(bbo))
        }
    }

    /// Takes note of the depth of both sides. Returns an event for each side that changed.
    pub fn update_depth(
        &mut self,
        bid_depth: Vec<DepthLevel>,
        ask_depth: Vec<DepthLevel>,
    ) -> (events: Vec<EngineEvent>)
        ensures
            final(self).depth(Side::Buy) == bid_depth@,
            final(self).depth(Side::Sell) == ask_depth@,
            reports_changes(
                events@,
                old(self).depth(Side::Buy),
                old(self).depth(Side::Sell),
                bid_depth@,
                ask_depth@,
            ),
            final(self).symbol == old(self).symbol,
            final(self).bbo() == old(self).bbo(),
    {
        let mut events: Vec<EngineEvent> = Vec::new();
        if !same_rows(&bid_depth, &self.last_bid_depth) {
            self.last_bid_depth = copied(&bid_depth);
            events.push(EngineEvent::DepthChanged { side: Side::Buy, levels: bid_depth });
        }
        if !same_rows(&ask_depth, &self.last_ask_depth) {
            self.last_ask_depth = copied(&ask_depth);
            events.push(EngineEvent::DepthChanged { side: Side::Sell, levels: ask_depth });
        }
        events
    }

    /// The last best bid and offer seen.
    pub fn last_bbo(&self) -> (bbo: Option<&Bbo>)
        ensures
            bbo == (match self.bbo() {
                Some(last) => Some(&last),
                None => None,
            }),
    {
        self.last_bbo.as_ref()
    }
}

/// What was just reported is no news: the same depth again gives no event.
pub proof fn law_same_depth_is_no_news(
    events: Seq<EngineEvent>,
    bids: Seq<DepthLevel>,
    asks: Seq<DepthLevel>,
)
    requires
        reports_changes(events, bids, asks, bids, asks),
    ensures
        events.len() == 0,
{
}

/// Whatever was seen before, a depth that changed is reported once, as it now is, and one that did
/// not change is not reported; bids come before asks, and nothing else is reported.
pub proof fn law_changes_are_reported(
    events: Seq<EngineEvent>,
    bids_before: Seq<DepthLevel>,
    asks_before: Seq<DepthLevel>,
    bids: Seq<DepthLevel>,
    asks: Seq<DepthLevel>,
)
    requires
        reports_changes(events, bids_before, asks_before, bids, asks),
    ensures
        forall|k: int|
            0 <= k < events.len() ==> match #[trigger] events[k] {
                EngineEvent::DepthChanged { side: Side::Buy, levels } => {
                    &&& levels@ == bids
                    &&& bids != bids_before
                    &&& k == 0
                },
                EngineEvent::DepthChanged { side: Side::Sell, levels } => {
                    &&& levels@ == asks
                    &&& asks != asks_before
                    &&& k == events.len() - 1
                },
                _ => false,
            },
        bids != bids_before ==> events.len() > 0 && (events[0] matches EngineEvent::DepthChanged {
            side: Side::Buy,
            ..
        }),
        asks != asks_before ==> events.len() > 0 && (events.last()
            matches EngineEvent::DepthChanged { side: Side::Sell, .. }),
        events.len() <= 2,
{
}

} // verus!
