//! Order book: price levels, their FIFO queues, and the state of every order.
//!
//! Each side is a map of price levels whose keys sort from best to worst price. Each level is a
//! FIFO queue of order IDs with the cached sum of their open quantities. Order states are kept
//! in a flat map by order ID.
use crate::model;
use crate::model::{BookModel, Queues};
use crate::ranking;
use crate::standing;
use crate::types::{Bbo, DepthLevel, OrderId, OrderState, Price, Qty, SeqNo, Side, Symbol};
use std::collections::{BTreeMap, HashMap, VecDeque};
use vstd::prelude::*;

verus! {

/// A price level: a FIFO queue of order IDs and their aggregate quantity.
#[derive(Debug, Clone)]
pub struct PriceLevel {
    pub orders: VecDeque<OrderId>,
    pub total_qty: Qty,
}

/// Which side of the book a `BookSide` is.
#[derive(Debug, Clone, Copy, PartialEq, Eq, Structural)]
pub enum SideTag {
    Bid,
    Ask,
}

/// One side of the order book.
///
/// The keys of `levels` sort from best to worst price: `u64::MAX - price` for bids, the price
/// itself for asks.
#[derive(Debug, Clone)]
pub struct BookSide {
    pub levels: BTreeMap<u64, PriceLevel>,
    pub side: SideTag,
}

/// What a price level holds.
pub struct LevelView {
    pub orders: Seq<OrderId>,
    pub total_qty: Qty,
}

impl View for PriceLevel {
    type V = LevelView;

    open spec fn view(&self) -> LevelView {
        LevelView { orders: self.orders@, total_qty: self.total_qty }
    }
}

impl View for BookSide {
    type V = Map<u64, LevelView>;

    open spec fn view(&self) -> Map<u64, LevelView> {
        self.levels@.map_values(|level: PriceLevel| level@)
    }
}

/// Sort key of a price among bids (`Buy`) or asks (`Sell`). The better price has the smaller key.
pub open spec fn rank(side: Side, price: Price) -> u64 {
    match side {
        Side::Buy => (u64::MAX - price) as u64,
        Side::Sell => price,
    }
}

/// The level under a key, empty where there is none.
pub open spec fn level_at(levels: Map<u64, LevelView>, key: u64) -> LevelView {
    if levels.contains_key(key) {
        levels[key]
    } else {
        LevelView { orders: Seq::empty(), total_qty: 0 }
    }
}

/// The levels after `level` was stored under `key`, or dropped if its queue is empty.
pub open spec fn with_level(levels: Map<u64, LevelView>, key: u64, level: LevelView) -> Map<
    u64,
    LevelView,
> {
    if level.orders.len() == 0 {
        levels.remove(key)
    } else {
        levels.insert(key, level)
    }
}

/// The levels with an order of quantity `qty` added at the back of a level.
pub open spec fn inserted(
    levels: Map<u64, LevelView>,
    key: u64,
    order_id: OrderId,
    qty: Qty,
) -> Map<u64, LevelView> {
    let level = level_at(levels, key);
    levels.insert(
        key,
        LevelView {
            orders: level.orders.push(order_id),
            total_qty: (level.total_qty + qty) as u64,
        },
    )
}

/// The levels with an order of quantity `qty` taken out of a level that holds it.
pub open spec fn removed(
    levels: Map<u64, LevelView>,
    key: u64,
    order_id: OrderId,
    qty: Qty,
) -> Map<u64, LevelView> {
    let level = levels[key];
    with_level(
        levels,
        key,
        LevelView {
            orders: level.orders.remove_value(order_id),
            total_qty: monus(level.total_qty, qty),
        },
    )
}

/// The levels with the quantity of a level reduced.
pub open spec fn reduced(levels: Map<u64, LevelView>, key: u64, delta: Qty) -> Map<
    u64,
    LevelView,
> {
    if levels.contains_key(key) {
        levels.insert(
            key,
            LevelView {
                orders: levels[key].orders,
                total_qty: monus(levels[key].total_qty, delta),
            },
        )
    } else {
        levels
    }
}

/// The levels with the front order of a level taken off.
pub open spec fn popped(levels: Map<u64, LevelView>, key: u64) -> Map<u64, LevelView> {
    with_level(
        levels,
        key,
        LevelView {
            orders: levels[key].orders.drop_first(),
            total_qty: levels[key].total_qty,
        },
    )
}

/// `a - b`, or zero where `b` is larger.
pub open spec fn monus(a: Qty, b: Qty) -> Qty {
    if a >= b {
        (a - b) as u64
    } else {
        0
    }
}

/// Sum of the levels' cached quantities over the keys in `keys`.
pub open spec fn cached_sum(levels: Map<u64, LevelView>, keys: Seq<u64>) -> nat
    decreases keys.len(),
{
    if keys.len() == 0 {
        0
    } else {
        cached_sum(levels, keys.drop_last()) + levels[keys.last()].total_qty as nat
    }
}

impl SideTag {
    /// The order side whose orders rest on this book side.
    pub open spec fn order_side(self) -> Side {
        match self {
            SideTag::Bid => Side::Buy,
            SideTag::Ask => Side::Sell,
        }
    }
}

impl PriceLevel {
    /// An empty price level.
    fn empty() -> (level: PriceLevel)
        ensures
            level@ == (LevelView { orders: Seq::empty(), total_qty: 0 }),
    {
        PriceLevel { orders: VecDeque::new(), total_qty: 0 }
    }

    /// Position of an order in the queue.
    fn position(&self, order_id: OrderId) -> (pos: Option<usize>)
        ensures
            match pos {
                Some(i) => i < self.orders@.len() && self.orders@[i as int] == order_id && !(
                self.orders@.take(i as int).contains(order_id)),
                None => !self.orders@.contains(order_id),
            },
    {
        let mut i: usize = 0;
        while i < self.orders.len()
            invariant
                i <= self.orders@.len(),
                forall|j: int| 0 <= j < i ==> self.orders@[j] != order_id,
            decreases self.orders@.len() - i,
        {
            if self.orders[i] == order_id {
                return Some(i);
            }
            i = i + 1;
        }
        None
    }
}

impl Default for PriceLevel {
    fn default() -> (level: PriceLevel)
        ensures
            level@ == (LevelView { orders: Seq::empty(), total_qty: 0 }),
    {
        PriceLevel::empty()
    }
}

impl Default for SideTag {
    fn default() -> (tag: SideTag)
        ensures
            tag == SideTag::Bid,
    {
        SideTag::Bid
    }
}

impl Default for BookSide {
    fn default() -> (side: BookSide)
        ensures
            side@ == Map::<u64, LevelView>::empty(),
            side.side == SideTag::Bid,
    {
        BookSide::new_bids()
    }
}

impl BookSide {
    /// Creates an empty bid side.
    pub fn new_bids() -> (side: BookSide)
        ensures
            side@ == Map::<u64, LevelView>::empty(),
            side.side == SideTag::Bid,
    {
        let side = BookSide { levels: BTreeMap::new(), side: SideTag::Bid };
        assert(side@ =~= Map::<u64, LevelView>::empty());
        side
    }

    /// Creates an empty ask side.
    pub fn new_asks() -> (side: BookSide)
        ensures
            side@ == Map::<u64, LevelView>::empty(),
            side.side == SideTag::Ask,
    {
        let side = BookSide { levels: BTreeMap::new(), side: SideTag::Ask };
        assert(side@ =~= Map::<u64, LevelView>::empty());
        side
    }

    /// The sort key of a price on this side.
    pub open spec fn rank(&self, price: Price) -> u64 {
        rank(self.side.order_side(), price)
    }

    /// Encodes a price into the sort key of this side.
    #[inline]
    pub fn key(&self, price: Price) -> (key: u64)
        ensures
            key == self.rank(price),
    {
        match self.side {
            SideTag::Bid => u64::MAX - price,
            SideTag::Ask => price,
        }
    }

    /// Decodes a sort key back to the price.
    #[inline]
    pub fn price_from_key(&self, key: u64) -> (price: Price)
        ensures
            price == self.rank(key),
            self.rank(price) == key,
    {
        match self.side {
            SideTag::Bid => u64::MAX - key,
            SideTag::Ask => key,
        }
    }

    /// Inserts an order at the back of its price level.
    pub fn insert(&mut self, price: Price, order_id: OrderId, qty: Qty)
        requires
            level_at(old(self)@, old(self).rank(price)).total_qty + qty <= u64::MAX,
        ensures
            final(self).side == old(self).side,
            final(self)@ == old(self)@.insert(
                old(self).rank(price),
                (LevelView {
                    orders: level_at(old(self)@, old(self).rank(price)).orders.push(order_id),
                    total_qty: (level_at(old(self)@, old(self).rank(price)).total_qty + qty) as u64,
                }),
            ),
            final(self)@ == inserted(old(self)@, old(self).rank(price), order_id, qty),
    {
        let key = self.key(price);
        let mut level = match self.levels.remove(&key) {
            Some(level) => level,
            None => PriceLevel::empty(),
        };
        level.orders.push_back(order_id);
        level.total_qty = level.total_qty + qty;
        self.levels.insert(key, level);
        assert(self@ =~= old(self)@.insert(key, level@));
    }

    /// Removes an order from a price level, with the quantity it had there, and drops the level
    /// if that empties it. Returns whether the order was found.
    pub fn remove(&mut self, price: Price, order_id: OrderId, qty: Qty) -> (found: bool)
        ensures
            final(self).side == old(self).side,
            found == level_at(old(self)@, old(self).rank(price)).orders.contains(order_id),
            !found ==> final(self)@ == old(self)@,
            found ==> ({
                let key = old(self).rank(price);
                let level = old(self)@[key];
                final(self)@ == with_level(
                    old(self)@,
                    key,
                    LevelView {
                        orders: level.orders.remove_value(order_id),
                        total_qty: monus(level.total_qty, qty),
                    },
                )
            }),
            found ==> final(self)@ == removed(old(self)@, old(self).rank(price), order_id, qty),
    {
        let key = self.key(price);
        let pos = match self.levels.get(&key) {
            Some(level) => level.position(order_id),
            None => None,
        };
        match pos {
            Some(i) => {
                let mut level = self.levels.remove(&key).unwrap();
                level.orders.remove(i);
                level.total_qty = level.total_qty.saturating_sub(qty);
                let ghost stored = level@;
                proof {
                    lemma_remove_value(old(self)@[key].orders, order_id, i as int);
                }
                if level.orders.len() > 0 {
                    self.levels.insert(key, level);
                }
                assert(self@ =~= with_level(old(self)@, key, stored));
                true
            },
            None => {
                assert(self@ =~= old(self)@);
                false
            },
        }
    }

    /// Reduces the aggregate quantity of a price level.
    pub fn reduce_qty(&mut self, price: Price, delta: Qty)
        ensures
            final(self).side == old(self).side,
            final(self)@ == (if old(self)@.contains_key(old(self).rank(price)) {
                let level = old(self)@[old(self).rank(price)];
                old(self)@.insert(
                    old(self).rank(price),
                    LevelView { orders: level.orders, total_qty: monus(level.total_qty, delta) },
                )
            } else {
                old(self)@
            }),
            final(self)@ == reduced(old(self)@, old(self).rank(price), delta),
    {
        let key = self.key(price);
        match self.levels.remove(&key) {
            Some(mut level) => {
                level.total_qty = level.total_qty.saturating_sub(delta);
                self.levels.insert(key, level);
                assert(self@ =~= old(self)@.insert(key, level@));
            },
            None => {
                assert(self@ =~= old(self)@);
            },
        }
    }
}

impl BookSide {
    /// The best level with its key.
    fn first(&self) -> (first: Option<(u64, &PriceLevel)>)
        ensures
            match first {
                Some((key, level)) => ranking::is_least(self@, key) && key == ranking::least(self@)
                    && self.levels@[key] == *level && self@[key] == level@,
                None => self@ == Map::<u64, LevelView>::empty(),
            },
            self@.dom().finite(),
    {
        let source = self.levels.iter();
        let ghost seq = vstd::std_specs::iter::IteratorSpec::remaining(&source);
        proof {
            lemma_walk(self, seq);
        }
        for entry in iter: source
            invariant
                iter.seq() == seq,
                iter.index() == 0,
                seq == vstd::std_specs::iter::IteratorSpec::remaining(
                    &vstd::std_specs::btree::spec_btree_map_iter(&self.levels),
                ),
                self@.dom().finite(),
                forall|i: int, j: int|
                    0 <= i < j < seq.len() ==> *(#[trigger] seq[i]).0 < *(#[trigger] seq[j]).0,
        {
            let key = *entry.0;
            proof {
                assert(self.levels@.contains_key(*seq[0].0));
                assert forall|j: u64| #[trigger] self@.contains_key(j) implies key <= j by {
                    assert(self.levels@.contains_key(j));
                    assert(seq.contains((&j, &self.levels@[j])));
                    let i = choose|i: int| 0 <= i < seq.len() && seq[i] == (&j, &self.levels@[j]);
                    if i > 0 {
                        assert(*seq[0].0 < *seq[i].0);
                    }
                }
                ranking::lemma_least_unique(self@, key);
            }
            return Some((key, entry.1));
        }
        assert forall|j: u64| !self@.contains_key(j) by {
            if self.levels@.contains_key(j) {
                assert(seq.contains((&j, &self.levels@[j])));
            }
        }
        assert(self@ =~= Map::<u64, LevelView>::empty());
        None
    }

    /// The levels of this side from best to worst, with their keys.
    pub(crate) fn walk(&self) -> (entries: Vec<(u64, &PriceLevel)>)
        ensures
            self@.dom().finite(),
            entries@.len() == ranking::ascending(self@).len(),
            forall|i: int|
                #![trigger entries@[i]]
                0 <= i < entries@.len() ==> {
                    &&& entries@[i].0 == ranking::ascending(self@)[i]
                    &&& self.levels@.contains_key(entries@[i].0)
                    &&& *entries@[i].1 == self.levels@[entries@[i].0]
                    &&& entries@[i].1@ == self@[entries@[i].0]
                },
    {
        let source = self.levels.iter();
        let ghost seq = vstd::std_specs::iter::IteratorSpec::remaining(&source);
        proof {
            lemma_walk(self, seq);
        }
        let mut entries: Vec<(u64, &PriceLevel)> = Vec::new();
        for entry in iter: source
            invariant
                iter.seq() == seq,
                entries@.len() == iter.index(),
                forall|i: int|
                    #![trigger entries@[i]]
                    0 <= i < entries@.len() ==> entries@[i].0 == *seq[i].0 && entries@[i].1
                        == seq[i].1,
        {
            entries.push((*entry.0, entry.1));
        }
        assert forall|i: int| #![trigger entries@[i]] 0 <= i < entries@.len() implies {
            &&& entries@[i].0 == ranking::ascending(self@)[i]
            &&& self.levels@.contains_key(entries@[i].0)
            &&& *entries@[i].1 == self.levels@[entries@[i].0]
            &&& entries@[i].1@ == self@[entries@[i].0]
        } by {
            assert(self.levels@.contains_key(*seq[i].0));
        }
        entries
    }
}

/// A depth row for each of the first `n` levels from best to worst.
pub open spec fn depth_rows(side: Side, levels: Map<u64, LevelView>, n: nat) -> Seq<DepthLevel> {
    let keys = ranking::ascending(levels);
    Seq::new(
        if n < keys.len() {
            n
        } else {
            keys.len()
        },
        |i: int|
            DepthLevel {
                price: rank(side, keys[i]),
                qty: levels[keys[i]].total_qty,
                order_count: levels[keys[i]].orders.len() as u32,
            },
    )
}

impl BookSide {
    /// Pops the front order of the best level and drops the level if that empties it. The
    /// level's aggregate quantity is left as it was.
    ///
    /// Returns `None` if this side is empty or its best level has no order.
    pub fn pop_front(&mut self) -> (front: Option<(Price, OrderId)>)
        ensures
            final(self).side == old(self).side,
            front is Some <==> exists|key: u64|
                ranking::is_least(old(self)@, key) && old(self)@[key].orders.len() > 0,
            front is None ==> final(self)@ == old(self)@,
            front matches Some((price, order_id)) ==> {
                let key = ranking::least(old(self)@);
                let level = old(self)@[key];
                &&& old(self).rank(price) == key
                &&& order_id == level.orders[0]
                &&& final(self)@ == with_level(
                    old(self)@,
                    key,
                    LevelView { orders: level.orders.drop_first(), total_qty: level.total_qty },
                )
                &&& final(self)@ == popped(old(self)@, key)
            },
    {
        let key = match self.first() {
            Some((key, level)) => {
                if level.orders.len() == 0 {
                    assert forall|k: u64| ranking::is_least(self@, k) implies k == key by {}
                    return None;
                }
                key
            },
            None => return None,
        };
        let price = self.price_from_key(key);
        let mut level = self.levels.remove(&key).unwrap();
        let order_id = level.orders.pop_front().unwrap();
        let ghost stored = level@;
        assert(stored.orders =~= old(self)@[key].orders.drop_first());
        if level.orders.len() > 0 {
            self.levels.insert(key, level);
        }
        assert(self@ =~= with_level(old(self)@, key, stored));
        assert(ranking::is_least(old(self)@, key));
        Some((price, order_id))
    }

    /// Puts an order back at the front of its level, opening the level with quantity `qty` if it
    /// is gone.
    pub(crate) fn restore_front(&mut self, price: Price, order_id: OrderId, qty: Qty)
        ensures
            final(self).side == old(self).side,
            final(self)@ == old(self)@.insert(
                old(self).rank(price),
                (LevelView {
                    orders: seq![order_id] + level_at(old(self)@, old(self).rank(price)).orders,
                    total_qty: if old(self)@.contains_key(old(self).rank(price)) {
                        old(self)@[old(self).rank(price)].total_qty
                    } else {
                        qty
                    },
                }),
            ),
    {
        let key = self.key(price);
        let mut level = match self.levels.remove(&key) {
            Some(level) => level,
            None => PriceLevel { orders: VecDeque::new(), total_qty: qty },
        };
        level.orders.push_front(order_id);
        self.levels.insert(key, level);
        assert(self@ =~= old(self)@.insert(key, level@));
    }

    /// Peeks at the best price level.
    pub fn best(&self) -> (best: Option<(Price, &PriceLevel)>)
        ensures
            match best {
                Some((price, level)) => ranking::is_least(self@, self.rank(price)) && self.rank(price)
                    == ranking::least(self@) && level@ == self@[self.rank(price)],
                None => self@ == Map::<u64, LevelView>::empty(),
            },
    {
        match self.first() {
            Some((key, level)) => Some((self.price_from_key(key), level)),
            None => None,
        }
    }

    /// Whether this side has no level.
    pub fn is_empty(&self) -> (empty: bool)
        ensures
            empty == (self@ == Map::<u64, LevelView>::empty()),
    {
        let empty = self.levels.is_empty();
        proof {
            if empty {
                assert(self@ =~= Map::<u64, LevelView>::empty());
            } else if self@ == Map::<u64, LevelView>::empty() {
                assert(self.levels@.dom() =~= self@.dom());
            }
        }
        empty
    }

    /// Number of distinct price levels.
    pub fn level_count(&self) -> (count: usize)
        ensures
            count == self@.dom().len(),
    {
        assert(self.levels@.dom() =~= self@.dom());
        self.levels.len()
    }

    /// Total quantity over all levels.
    pub fn total_qty(&self) -> (total: Qty)
        requires
            cached_sum(self@, ranking::ascending(self@)) <= u64::MAX,
        ensures
            total == cached_sum(self@, ranking::ascending(self@)),
    {
        let entries = self.walk();
        let ghost keys = ranking::ascending(self@);
        let mut total: Qty = 0;
        let mut i: usize = 0;
        while i < entries.len()
            invariant
                i <= entries@.len() == keys.len(),
                total == cached_sum(self@, keys.take(i as int)),
                cached_sum(self@, keys) <= u64::MAX,
                forall|j: int|
                    #![trigger entries@[j]]
                    0 <= j < entries@.len() ==> entries@[j].0 == keys[j] && entries@[j].1@
                        == self@[keys[j]],
            decreases entries@.len() - i,
        {
            proof {
                assert(keys.take(i + 1).drop_last() =~= keys.take(i as int));
                assert(entries@[i as int].0 == keys[i as int]);
                lemma_cached_sum_prefix(self@, keys, i + 1);
            }
            total = total + entries[i].1.total_qty;
            i = i + 1;
        }
        assert(keys.take(i as int) =~= keys);
        total
    }

    /// The top `n` levels.
    pub fn depth(&self, n: usize) -> (rows: Vec<DepthLevel>)
        ensures
            rows@ == depth_rows(self.side.order_side(), self@, n as nat),
    {
        let entries = self.walk();
        let mut rows: Vec<DepthLevel> = Vec::new();
        let ghost expected = depth_rows(self.side.order_side(), self@, n as nat);
        let mut i: usize = 0;
        while i < n && i < entries.len()
            invariant
                i <= n,
                i <= entries@.len() == ranking::ascending(self@).len(),
                expected == depth_rows(self.side.order_side(), self@, n as nat),
                rows@ == expected.take(i as int),
                forall|j: int|
                    #![trigger entries@[j]]
                    0 <= j < entries@.len() ==> entries@[j].0 == ranking::ascending(self@)[j]
                        && entries@[j].1@ == self@[entries@[j].0],
            decreases entries@.len() - i,
        {
            let level = entries[i].1;
            rows.push(
                DepthLevel {
                    price: self.price_from_key(entries[i].0),
                    qty: level.total_qty,
                    order_count: level.orders.len() as u32,
                },
            );
            assert(rows@ =~= expected.take(i + 1));
            i = i + 1;
        }
        assert(expected.take(i as int) =~= expected);
        rows
    }
}

proof fn lemma_cached_sum_prefix(levels: Map<u64, LevelView>, keys: Seq<u64>, n: int)
    requires
        0 <= n <= keys.len(),
    ensures
        cached_sum(levels, keys.take(n)) <= cached_sum(levels, keys),
    decreases keys.len(),
{
    if n == keys.len() {
        assert(keys.take(n) =~= keys);
    } else {
        lemma_cached_sum_prefix(levels, keys.drop_last(), n);
        assert(keys.drop_last().take(n) =~= keys.take(n));
    }
}

/// What iterating over the levels yields: the ascending keys with their levels.
proof fn lemma_walk(side: &BookSide, seq: Seq<(&u64, &PriceLevel)>)
    requires
        seq == vstd::std_specs::iter::IteratorSpec::remaining(
            &vstd::std_specs::btree::spec_btree_map_iter(&side.levels),
        ),
        vstd::std_specs::btree::increasing_seq(seq.map_values(|kv: (&u64, &PriceLevel)| *kv.0)),
    ensures
        side@.dom().finite(),
        seq.len() == ranking::ascending(side@).len(),
        forall|i: int| 0 <= i < seq.len() ==> *(#[trigger] seq[i]).0 == ranking::ascending(side@)[i],
        forall|i: int, j: int|
            0 <= i < j < seq.len() ==> *(#[trigger] seq[i]).0 < *(#[trigger] seq[j]).0,
{
    broadcast use vstd::std_specs::btree::group_btree_axioms;

    let keys = seq.map_values(|kv: (&u64, &PriceLevel)| *kv.0);
    assert(side@.dom() =~= side.levels@.dom());
    assert forall|i: int, j: int| 0 <= i < j < keys.len() implies #[trigger] keys[i]
        < #[trigger] keys[j] by {
        assert(vstd::std_specs::cmp::OrdSpec::cmp_spec(&keys[i], &keys[j]) is Less);
    }
    assert forall|k: u64| #[trigger] keys.contains(k) <==> side@.contains_key(k) by {
        if keys.contains(k) {
            let i = choose|i: int| 0 <= i < keys.len() && keys[i] == k;
            assert(side.levels@.contains_key(*seq[i].0));
        }
        if side@.contains_key(k) {
            assert(side.levels@.contains_key(k));
            assert(seq.contains((&k, &side.levels@[k])));
            let i = choose|i: int| 0 <= i < seq.len() && seq[i] == (&k, &side.levels@[k]);
            assert(keys[i] == k);
        }
    }
    ranking::lemma_ascending_unique(side@, keys);
    assert forall|i: int, j: int| 0 <= i < j < seq.len() implies *(#[trigger] seq[i]).0 < *(
    #[trigger] seq[j]).0 by {
        assert(keys[i] < keys[j]);
    }
}

/// Removing a value removes its first occurrence.
proof fn lemma_remove_value(s: Seq<OrderId>, v: OrderId, i: int)
    requires
        0 <= i < s.len(),
        s[i] == v,
        !s.take(i).contains(v),
    ensures
        s.contains(v),
        s.remove_value(v) == s.remove(i),
{
    s.index_of_first_ensures(v);
    let j = s.index_of_first(v).unwrap();
    if j < i {
        assert(s.take(i)[j] == v);
    }
}

/// The full order book of one symbol.
#[derive(Debug, Clone)]
pub struct OrderBook {
    pub symbol: Symbol,
    pub bids: BookSide,
    pub asks: BookSide,
    /// All orders, open and closed, by ID.
    pub orders: HashMap<OrderId, OrderState>,
    /// Orders that wait off both sides, oldest first: stop orders for their trigger, and
    /// all-or-none orders for enough quantity to be filled.
    pub waiting: Vec<OrderId>,
    /// The last sequence number processed.
    pub last_seq_no: SeqNo,
}

/// The queues of a side.
pub open spec fn queues(levels: Map<u64, LevelView>) -> Queues {
    levels.map_values(|level: LevelView| level.orders)
}

/// Every level's cached quantity is the sum of its orders' open quantities.
pub open spec fn totals_agree(
    levels: Map<u64, LevelView>,
    orders: Map<OrderId, OrderState>,
) -> bool {
    forall|key: u64| #[trigger]
        levels.contains_key(key) ==> levels[key].total_qty == model::queued_qty(
            levels[key].orders,
            orders,
        )
}

impl BookSide {
    /// Price of the best level, if there is one.
    pub open spec fn best_price(&self) -> Option<Price> {
        if ranking::is_least(self@, ranking::least(self@)) {
            Some(self.rank(ranking::least(self@)))
        } else {
            None
        }
    }

    /// Cached quantity of the best level, zero if there is none.
    pub open spec fn best_qty(&self) -> Qty {
        if ranking::is_least(self@, ranking::least(self@)) {
            self@[ranking::least(self@)].total_qty
        } else {
            0
        }
    }
}

impl View for OrderBook {
    type V = BookModel;

    open spec fn view(&self) -> BookModel {
        BookModel {
            symbol: self.symbol,
            bids: queues(self.bids@),
            asks: queues(self.asks@),
            orders: self.orders@,
            waiting: self.waiting@,
            last_seq_no: self.last_seq_no,
        }
    }
}

impl OrderBook {
    /// The book's invariant: its model is valid, its sides are tagged as what they are, and the
    /// cached quantities agree with the orders.
    pub open spec fn wf(&self) -> bool {
        &&& model::valid(self@)
        &&& self.bids.side == SideTag::Bid
        &&& self.asks.side == SideTag::Ask
        &&& totals_agree(self.bids@, self.orders@)
        &&& totals_agree(self.asks@, self.orders@)
    }

    /// The side on which orders of side `side` rest.
    pub open spec fn side_of(&self, side: Side) -> BookSide {
        match side {
            Side::Buy => self.bids,
            Side::Sell => self.asks,
        }
    }

    /// The book with one side exchanged.
    pub open spec fn with_side(self, side: Side, book_side: BookSide) -> OrderBook {
        match side {
            Side::Buy => OrderBook { bids: book_side, ..self },
            Side::Sell => OrderBook { asks: book_side, ..self },
        }
    }

    /// Creates an empty book.
    pub fn new(symbol: Symbol) -> (book: OrderBook)
        ensures
            book.wf(),
            book@ == BookModel::fresh(symbol),
    {
        let book = OrderBook {
            symbol,
            bids: BookSide::new_bids(),
            asks: BookSide::new_asks(),
            orders: HashMap::new(),
            waiting: Vec::new(),
            last_seq_no: 0,
        };
        assert(book@ =~= BookModel::fresh(symbol));
        book
    }

    /// The book side on which orders of side `side` rest.
    pub fn side_mut(&mut self, side: Side) -> (book_side: &mut BookSide)
        ensures
            *book_side == old(self).side_of(side),
            *final(self) == (*old(self)).with_side(side, *final(book_side)),
    {
        match side {
            Side::Buy => &mut self.bids,
            Side::Sell => &mut self.asks,
        }
    }

    /// The book side against which orders of side `side` are matched.
    pub fn opposite_side_mut(&mut self, side: Side) -> (book_side: &mut BookSide)
        ensures
            *book_side == old(self).side_of(side.other()),
            *final(self) == (*old(self)).with_side(side.other(), *final(book_side)),
    {
        match side {
            Side::Buy => &mut self.asks,
            Side::Sell => &mut self.bids,
        }
    }

    /// The book side against which orders of side `side` are matched.
    pub fn opposite_side(&self, side: Side) -> (book_side: &BookSide)
        ensures
            *book_side == self.side_of(side.other()),
    {
        match side {
            Side::Buy => &self.asks,
            Side::Sell => &self.bids,
        }
    }

    /// Current best bid and offer.
    pub fn bbo(&self) -> (bbo: Bbo)
        ensures
            bbo == (Bbo {
                bid_price: self.bids.best_price(),
                bid_qty: self.bids.best_qty(),
                ask_price: self.asks.best_price(),
                ask_qty: self.asks.best_qty(),
            }),
            self.wf() ==> bbo == model::bbo(self@),
            self.wf() ==> standing::quoted(self@, bbo),
    {
        let (bid_price, bid_qty) = match self.bids.best() {
            Some((price, level)) => (Some(price), level.total_qty),
            None => (None, 0),
        };
        let (ask_price, ask_qty) = match self.asks.best() {
            Some((price, level)) => (Some(price), level.total_qty),
            None => (None, 0),
        };
        proof {
            lemma_best(self.bids@);
            lemma_best(self.asks@);
            if self.wf() {
                standing::law_quotes(self@);
            }
        }
        Bbo { bid_price, bid_qty, ask_price, ask_qty }
    }

    /// Whether the best bid is strictly below the best ask, if there are both.
    pub fn is_uncrossed(&self) -> (uncrossed: bool)
        ensures
            uncrossed == (match (self.bids.best_price(), self.asks.best_price()) {
                (Some(bid), Some(ask)) => bid < ask,
                _ => true,
            }),
            self.wf() ==> uncrossed == model::uncrossed(self@),
    {
        proof {
            lemma_best(self.bids@);
            lemma_best(self.asks@);
        }
        match (self.bids.best(), self.asks.best()) {
            (Some((bid, _)), Some((ask, _))) => bid < ask,
            _ => true,
        }
    }
}

/// An order inserted is the last of its level, behind those that were there, and adds its quantity
/// to the level's. No other level changes.
pub proof fn law_insertion(
    levels: Map<u64, LevelView>,
    key: u64,
    order_id: OrderId,
    qty: Qty,
)
    requires
        level_at(levels, key).total_qty + qty <= u64::MAX,
    ensures
        ({
            let after = inserted(levels, key, order_id, qty);
            let old_level = level_at(levels, key);
            let new_level = level_at(after, key);
            &&& after.contains_key(key)
            &&& new_level.orders.len() == old_level.orders.len() + 1
            &&& new_level.orders.last() == order_id
            &&& forall|i: int|
                0 <= i < old_level.orders.len() ==> #[trigger] new_level.orders[i]
                    == old_level.orders[i]
            &&& new_level.total_qty == old_level.total_qty + qty
            &&& forall|k: u64|
                k != key ==> after.contains_key(k) == #[trigger] levels.contains_key(k) && (
                levels.contains_key(k) ==> after[k] == levels[k])
        }),
{
}

/// Removing an order right after it was inserted, with the quantity it was inserted with, leaves
/// the levels as they were.
pub proof fn law_removal_undoes_insertion(
    levels: Map<u64, LevelView>,
    key: u64,
    order_id: OrderId,
    qty: Qty,
)
    requires
        level_at(levels, key).total_qty + qty <= u64::MAX,
        !level_at(levels, key).orders.contains(order_id),
        levels.contains_key(key) ==> levels[key].orders.len() > 0,
    ensures
        removed(inserted(levels, key, order_id, qty), key, order_id, qty) == levels,
{
    let level = level_at(levels, key);
    let queue = level.orders.push(order_id);
    let n = level.orders.len() as int;
    assert(queue[n] == order_id);
    lemma_remove_value(queue, order_id, n);
    assert(queue.remove(n) =~= level.orders);
    assert(removed(inserted(levels, key, order_id, qty), key, order_id, qty) =~= levels);
}

/// Removing an order keeps the others of its level in their order and takes its quantity off the
/// level's, as far as there is as much. The level is dropped if no order is left in it, and no
/// other level changes.
pub proof fn law_removal(levels: Map<u64, LevelView>, key: u64, i: int, qty: Qty)
    requires
        levels.contains_key(key),
        0 <= i < levels[key].orders.len(),
        !levels[key].orders.take(i).contains(levels[key].orders[i]),
    ensures
        ({
            let level = levels[key];
            let after = removed(levels, key, level.orders[i], qty);
            &&& after.contains_key(key) <==> level.orders.len() > 1
            &&& after.contains_key(key) ==> {
                &&& after[key].orders == level.orders.take(i) + level.orders.skip(i + 1)
                &&& qty <= level.total_qty ==> after[key].total_qty == level.total_qty - qty
                &&& qty > level.total_qty ==> after[key].total_qty == 0
            }
            &&& forall|k: u64|
                k != key ==> after.contains_key(k) == #[trigger] levels.contains_key(k) && (
                levels.contains_key(k) ==> after[k] == levels[k])
        }),
{
    let level = levels[key];
    lemma_remove_value(level.orders, level.orders[i], i);
    assert(level.orders.remove(i) =~= level.orders.take(i) + level.orders.skip(i + 1));
}

/// Reducing the quantity of a level takes it off as far as there is as much. It changes no queue
/// and no other level, and opens none.
pub proof fn law_reduction(levels: Map<u64, LevelView>, key: u64, delta: Qty)
    ensures
        ({
            let after = reduced(levels, key, delta);
            &&& after.dom() == levels.dom()
            &&& forall|k: u64| #[trigger]
                levels.contains_key(k) ==> after[k].orders == levels[k].orders && (k != key
                    ==> after[k] == levels[k])
            &&& levels.contains_key(key) && delta <= levels[key].total_qty ==> after[key].total_qty
                == levels[key].total_qty - delta
            &&& levels.contains_key(key) && delta > levels[key].total_qty ==> after[key].total_qty
                == 0
        }),
{
    assert(reduced(levels, key, delta).dom() =~= levels.dom());
}

/// Popping the front order of a level leaves the others behind it in their order, and the level's
/// quantity as it was. The level is dropped if no order is left in it, and no other level changes.
pub proof fn law_popping(levels: Map<u64, LevelView>, key: u64)
    requires
        levels.contains_key(key),
        levels[key].orders.len() > 0,
    ensures
        ({
            let after = popped(levels, key);
            &&& after.contains_key(key) <==> levels[key].orders.len() > 1
            &&& after.contains_key(key) ==> {
                &&& seq![levels[key].orders[0]] + after[key].orders == levels[key].orders
                &&& after[key].total_qty == levels[key].total_qty
            }
            &&& forall|k: u64|
                k != key ==> after.contains_key(k) == #[trigger] levels.contains_key(k) && (
                levels.contains_key(k) ==> after[k] == levels[k])
        }),
{
    let level = levels[key];
    assert(seq![level.orders[0]] + level.orders.drop_first() =~= level.orders);
}

/// The queues of a side have the side's best key.
pub proof fn lemma_best(levels: Map<u64, LevelView>)
    ensures
        queues(levels).dom() == levels.dom(),
        ranking::is_least(levels, ranking::least(levels)) <==> ranking::is_least(
            queues(levels),
            ranking::least(queues(levels)),
        ),
        ranking::is_least(levels, ranking::least(levels)) ==> ranking::least(levels)
            == ranking::least(queues(levels)),
{
    assert(queues(levels).dom() =~= levels.dom());
    ranking::lemma_least_same_keys(levels, queues(levels));
}

/// The best level of a side is the one whose price no other level betters: the highest bid, the
/// lowest ask. Price and quantity shown are that level's.
pub proof fn law_best_level(side: BookSide, price: Price)
    requires
        side@.contains_key(side.rank(price)),
        forall|key: u64| #[trigger]
            side@.contains_key(key) ==> match side.side {
                SideTag::Bid => u64::MAX - key <= price,
                SideTag::Ask => key >= price,
            },
    ensures
        side.best_price() == Some(price),
        side.best_qty() == side@[side.rank(price)].total_qty,
{
    let key = side.rank(price);
    assert(ranking::is_least(side@, key));
    ranking::lemma_least_unique(side@, key);
}

/// A side without levels shows no price and no quantity.
pub proof fn law_empty_side(side: BookSide)
    requires
        side@ == Map::<u64, LevelView>::empty(),
    ensures
        side.best_price() is None,
        side.best_qty() == 0,
{
}

/// The depth shows levels of the side with their quantity and number of orders, from the best
/// price on and each once; what it leaves out is worse than all it shows, and it leaves out
/// something only if it shows as many as asked for.
pub proof fn law_depth_shows_the_best(side: Side, levels: Map<u64, LevelView>, n: nat)
    requires
        levels.dom().finite(),
    ensures
        ({
            let rows = depth_rows(side, levels, n);
            &&& rows.len() == if n <= levels.dom().len() {
                n
            } else {
                levels.dom().len()
            }
            &&& forall|i: int|
                0 <= i < rows.len() ==> {
                    let row = #[trigger] rows[i];
                    let key = match side {
                        Side::Buy => (u64::MAX - row.price) as u64,
                        Side::Sell => row.price,
                    };
                    &&& levels.contains_key(key)
                    &&& row.qty == levels[key].total_qty
                    &&& levels[key].orders.len() <= u32::MAX ==> row.order_count
                        == levels[key].orders.len()
                }
            &&& forall|i: int, j: int|
                0 <= i < j < rows.len() ==> match side {
                    Side::Buy => (#[trigger] rows[i]).price > (#[trigger] rows[j]).price,
                    Side::Sell => rows[i].price < rows[j].price,
                }
            &&& forall|key: u64, i: int|
                #![trigger levels.contains_key(key), rows[i]]
                levels.contains_key(key) && 0 <= i < rows.len() ==> {
                    let price = match side {
                        Side::Buy => (u64::MAX - key) as u64,
                        Side::Sell => key,
                    };
                    ||| exists|j: int| 0 <= j < rows.len() && (#[trigger] rows[j]).price == price
                    ||| match side {
                        Side::Buy => price < rows[i].price,
                        Side::Sell => price > rows[i].price,
                    }
                }
        }),
{
    let rows = depth_rows(side, levels, n);
    let keys = ranking::ascending(levels);
    ranking::lemma_ascending(levels);
    assert forall|i: int| 0 <= i < rows.len() implies levels.contains_key(#[trigger] keys[i]) by {
        assert(keys.contains(keys[i]));
    }
    assert forall|i: int| 0 <= i < rows.len() implies (#[trigger] rows[i]).price == rank(
        side,
        keys[i],
    ) && levels.contains_key(keys[i]) by {}
    assert forall|i: int, j: int| 0 <= i < j < rows.len() implies match side {
        Side::Buy => (#[trigger] rows[i]).price > (#[trigger] rows[j]).price,
        Side::Sell => rows[i].price < rows[j].price,
    } by {
        assert(keys[i] < keys[j]);
    }
    assert forall|key: u64, i: int|
        #![trigger levels.contains_key(key), rows[i]]
        levels.contains_key(key) && 0 <= i < rows.len() implies {
        let price = match side {
            Side::Buy => (u64::MAX - key) as u64,
            Side::Sell => key,
        };
        ||| exists|j: int| 0 <= j < rows.len() && (#[trigger] rows[j]).price == price
        ||| match side {
            Side::Buy => price < rows[i].price,
            Side::Sell => price > rows[i].price,
        }
    } by {
        assert(keys.contains(key));
        let j = choose|j: int| 0 <= j < keys.len() && keys[j] == key;
        if j < rows.len() {
            assert(rows[j].price == rank(side, key));
        } else {
            assert(keys[i] < keys[j]);
        }
    }
}

/// The total over a side's levels is what a level adds to the total over the others.
pub proof fn law_total_adds_levels(levels: Map<u64, LevelView>, key: u64)
    requires
        levels.dom().finite(),
        levels.contains_key(key),
    ensures
        cached_sum(levels, ranking::ascending(levels)) == levels[key].total_qty + cached_sum(
            levels.remove(key),
            ranking::ascending(levels.remove(key)),
        ),
    decreases levels.dom().len(),
{
    assert(levels.dom().contains(key));
    ranking::lemma_least_exists(levels);
    let first = ranking::least(levels);
    let rest = levels.remove(first);
    let tail = ranking::ascending(rest);
    ranking::lemma_ascending(rest);
    lemma_cached_sum_front(levels, first, tail);
    assert(ranking::ascending(levels) == seq![first] + tail);
    lemma_cached_sum_same(levels, rest, tail);
    if key != first {
        law_total_adds_levels(rest, key);
        let without = levels.remove(key);
        let others = rest.remove(key);
        assert(without.remove(first) =~= others);
        assert(ranking::is_least(without, first)) by {
            assert forall|k: u64| #[trigger] without.contains_key(k) implies first <= k by {
                assert(levels.contains_key(k));
            }
        }
        ranking::lemma_least_unique(without, first);
        assert(without.dom().contains(first));
        assert(ranking::ascending(without) == seq![first] + ranking::ascending(others));
        ranking::lemma_ascending(others);
        lemma_cached_sum_front(without, first, ranking::ascending(others));
        lemma_cached_sum_same(without, others, ranking::ascending(others));
    }
}

/// A side without levels has a total of zero.
pub proof fn law_total_of_nothing()
    ensures
        ({
            let none = Map::<u64, LevelView>::empty();
            cached_sum(none, ranking::ascending(none)) == 0
        }),
{
    ranking::lemma_ascending(Map::<u64, LevelView>::empty());
}

/// A sum with a further key at the front.
proof fn lemma_cached_sum_front(levels: Map<u64, LevelView>, key: u64, keys: Seq<u64>)
    ensures
        cached_sum(levels, seq![key] + keys) == levels[key].total_qty + cached_sum(levels, keys),
    decreases keys.len(),
{
    let longer = seq![key] + keys;
    if keys.len() == 0 {
        assert(longer.drop_last() =~= Seq::empty());
        assert(cached_sum(levels, longer.drop_last()) == 0);
    } else {
        lemma_cached_sum_front(levels, key, keys.drop_last());
        assert(longer.drop_last() =~= seq![key] + keys.drop_last());
    }
}

/// Sums over keys that two maps share.
proof fn lemma_cached_sum_same(
    levels: Map<u64, LevelView>,
    others: Map<u64, LevelView>,
    keys: Seq<u64>,
)
    requires
        forall|k: u64| #[trigger] keys.contains(k) ==> levels[k] == others[k],
    ensures
        cached_sum(levels, keys) == cached_sum(others, keys),
    decreases keys.len(),
{
    if keys.len() > 0 {
        let rest = keys.drop_last();
        assert forall|k: u64| #[trigger] rest.contains(k) implies levels[k] == others[k] by {
            let i = choose|i: int| 0 <= i < rest.len() && rest[i] == k;
            assert(keys[i] == k);
            assert(keys.contains(k));
        }
        assert(keys.contains(keys[keys.len() - 1]));
        lemma_cached_sum_same(levels, others, rest);
    }
}

} // verus!
