//! Restoring an order book from a snapshot.
//!
//! A snapshot may lack waiting orders. An open stop order that it does not list among them stands
//! in no queue either: it is on record only. Such orders are put to wait again.
use crate::audit;
use crate::book;
use crate::book::{BookSide, OrderBook, SideTag};
use crate::flow;
use crate::model;
use crate::model::{BookModel, Queues};
use crate::ranking;
use crate::types::{OrderCondition, OrderId, OrderState, Side};
use crate::validity;
use vstd::prelude::*;

verus! {

/// Some level of a side queues the order.
pub open spec fn queued(levels: Queues, id: OrderId) -> bool {
    exists|key: u64| #[trigger] levels.contains_key(key) && levels[key].contains(id)
}

/// An open stop order that is in no queue and does not wait.
pub open spec fn stray(book: BookModel, id: OrderId) -> bool {
    &&& book.orders.contains_key(id)
    &&& book.orders[id].is_open
    &&& book.orders[id].condition == OrderCondition::Stop
    &&& !queued(book.bids, id)
    &&& !queued(book.asks, id)
    &&& !book.waiting.contains(id)
}

/// The open stop orders that are in no queue and do not wait.
pub open spec fn strays(book: BookModel) -> Map<OrderId, OrderState> {
    book.orders.restrict(book.orders.dom().filter(|id: OrderId| stray(book, id)))
}

/// The book that a snapshot stands for: stray stop orders wait, in the order of their IDs, after
/// the orders that wait already.
pub open spec fn resumed(book: BookModel) -> BookModel {
    BookModel { waiting: book.waiting + ranking::ascending(strays(book)), ..book }
}

/// The book that a snapshot stands for keeps the book's invariant.
pub open spec fn resumable(book: OrderBook) -> bool {
    &&& model::valid(resumed(book@))
    &&& book.bids.side == SideTag::Bid
    &&& book.asks.side == SideTag::Ask
    &&& book::totals_agree(book.bids@, book.orders@)
    &&& book::totals_agree(book.asks@, book.orders@)
}

impl BookSide {
    /// Whether some level queues the order.
    fn queues_order(&self, id: OrderId) -> (queues: bool)
        ensures
            queues == queued(book::queues(self@), id),
    {
        let entries = self.walk();
        let ghost levels = book::queues(self@);
        let ghost keys = ranking::ascending(self@);
        let mut i: usize = 0;
        while i < entries.len()
            invariant
                i <= entries@.len() == keys.len(),
                levels == book::queues(self@),
                forall|j: int|
                    #![trigger entries@[j]]
                    0 <= j < entries@.len() ==> {
                        &&& entries@[j].0 == keys[j]
                        &&& self.levels@.contains_key(entries@[j].0)
                        &&& entries@[j].1@ == self@[entries@[j].0]
                    },
                forall|j: int| 0 <= j < i ==> !levels[#[trigger] keys[j]].contains(id),
            decreases entries@.len() - i,
        {
            let level = entries[i].1;
            let ghost key = entries@[i as int].0;
            proof {
                assert(self@.contains_key(key));
                assert(levels[key] == level.orders@);
                assert(level.orders@.take(level.orders@.len() as int) =~= level.orders@);
            }
            if audit::stands_before(level, id, level.orders.len()) {
                assert(levels.contains_key(key));
                return true;
            }
            i = i + 1;
        }
        proof {
            ranking::lemma_ascending(self@);
            assert forall|key: u64| #[trigger] levels.contains_key(key) implies !levels[key].contains(
                id,
            ) by {
                assert(self@.contains_key(key));
                assert(keys.contains(key));
                let j = choose|j: int| 0 <= j < keys.len() && keys[j] == key;
                assert(!levels[keys[j]].contains(id));
            }
        }
        false
    }
}

/// Inserts an ID into a strictly increasing sequence of others.
fn insert_ascending(ids: &mut Vec<OrderId>, id: OrderId)
    requires
        ranking::strictly_increasing(old(ids)@),
        !old(ids)@.contains(id),
    ensures
        ranking::strictly_increasing(final(ids)@),
        forall|x: OrderId| #[trigger]
            final(ids)@.contains(x) <==> old(ids)@.contains(x) || x == id,
{
    let ghost before = ids@;
    let mut i: usize = 0;
    while i < ids.len() && ids[i] < id
        invariant
            before == ids@,
            i <= before.len(),
            forall|j: int| 0 <= j < i ==> before[j] < id,
        ensures
            before == ids@,
            i <= before.len(),
            forall|j: int| 0 <= j < i ==> before[j] < id,
            i < before.len() ==> before[i as int] >= id,
        decreases before.len() - i,
    {
        i = i + 1;
    }
    ids.insert(i, id);
    proof {
        let after = ids@;
        let at = i as int;
        if at < before.len() {
            assert(before.contains(before[at]));
        }
        assert forall|x: OrderId| #[trigger] after.contains(x) <==> before.contains(x) || x == id by {
            if before.contains(x) {
                let j = choose|j: int| 0 <= j < before.len() && before[j] == x;
                assert(after[if j < at { j } else { j + 1 }] == x);
            }
            if after.contains(x) && x != id {
                let j = choose|j: int| 0 <= j < after.len() && after[j] == x;
                assert(before[if j < at { j } else { j - 1 }] == x);
            }
            assert(after[at] == id);
        }
    }
}

impl OrderBook {
    /// Whether an order is an open stop order that is in no queue and does not wait.
    fn is_stray(&self, id: OrderId) -> (is: bool)
        ensures
            is == stray(self@, id),
    {
        assert(self.waiting@.take(self.waiting@.len() as int) =~= self.waiting@);
        match self.orders.get(&id) {
            Some(order) => {
                order.is_open && order.condition == OrderCondition::Stop && !self.bids.queues_order(
                    id,
                ) && !self.asks.queues_order(id) && !self.is_waiting(id, self.waiting.len())
            },
            None => false,
        }
    }

    /// The stray stop orders in the order of their IDs.
    fn stray_ids(&self) -> (ids: Vec<OrderId>)
        ensures
            ids@ == ranking::ascending(strays(self@)),
    {
        broadcast use vstd::std_specs::hash::group_hash_axioms;

        let open = self.open_order_ids();
        let mut ids: Vec<OrderId> = Vec::new();
        let mut i: usize = 0;
        while i < open.len()
            invariant
                i <= open@.len(),
                open@.no_duplicates(),
                ranking::strictly_increasing(ids@),
                forall|id: OrderId| #[trigger]
                    ids@.contains(id) <==> open@.take(i as int).contains(id) && stray(self@, id),
            decreases open@.len() - i,
        {
            let id = open[i];
            proof {
                assert(open@.take(i + 1) =~= open@.take(i as int).push(id));
                assert forall|x: OrderId| #[trigger]
                    open@.take(i + 1).contains(x) <==> open@.take(i as int).contains(x) || x == id by {
                    flow::lemma_push_contains(open@.take(i as int), id, x);
                }
                if open@.take(i as int).contains(id) {
                    let j = choose|j: int| 0 <= j < i && open@.take(i as int)[j] == id;
                    assert(open@[j] == open@[i as int]);
                }
            }
            if self.is_stray(id) {
                insert_ascending(&mut ids, id);
            }
            i = i + 1;
        }
        proof {
            assert(open@.take(i as int) =~= open@);
            let lost = strays(self@);
            assert(lost.dom() =~= self@.orders.dom().filter(|id: OrderId| stray(self@, id)));
            assert forall|id: OrderId| #[trigger] ids@.contains(id) <==> lost.contains_key(id) by {
                assert(open@.to_set().contains(id) <==> open@.contains(id));
                assert(flow::open_ids(self@.orders).contains(id) <==> self@.orders.contains_key(id)
                    && self@.orders[id].is_open);
            }
            ranking::lemma_ascending_unique(lost, ids@);
        }
        ids
    }

    /// The book that a snapshot stands for.
    pub fn resume(self) -> (resumed_book: OrderBook)
        ensures
            resumed_book@ == resumed(self@),
            resumed_book.bids == self.bids,
            resumed_book.asks == self.asks,
            resumed_book.wf() == resumable(self),
    {
        let mut ids = self.stray_ids();
        let mut resumed_book = self;
        resumed_book.waiting.append(&mut ids);
        resumed_book
    }
}

// ---------------------------------------------------------------------------
// What is restored
// ---------------------------------------------------------------------------

/// Whatever waiting stop orders a snapshot of a valid book lacks, the same orders wait once it is
/// restored, and the restored book is valid.
pub proof fn law_stops_wait_again(book: BookModel, kept: Seq<OrderId>)
    requires
        model::valid(book),
        kept.no_duplicates(),
        forall|id: OrderId| #[trigger] kept.contains(id) ==> book.waiting.contains(id),
        forall|id: OrderId| #[trigger]
            book.waiting.contains(id) && book.orders[id].condition != OrderCondition::Stop
                ==> kept.contains(id),
    ensures
        ({
            let after = resumed(BookModel { waiting: kept, ..book });
            &&& model::valid(after)
            &&& after == BookModel { waiting: after.waiting, ..book }
            &&& forall|id: OrderId| #[trigger]
                after.waiting.contains(id) <==> book.waiting.contains(id)
        }),
{
    let bare = BookModel { waiting: kept, ..book };
    let after = resumed(bare);
    let lost = strays(bare);
    let added = ranking::ascending(lost);
    validity::lemma_waiting(book);
    assert forall|id: OrderId| #[trigger]
        lost.contains_key(id) implies book.waiting.to_set().contains(id) by {
        lemma_stray(book, kept, id);
    }
    assert(lost.dom().subset_of(book.waiting.to_set()));
    vstd::set_lib::lemma_set_subset_finite(book.waiting.to_set(), lost.dom());
    ranking::lemma_ascending(lost);
    assert forall|id: OrderId| #[trigger] added.contains(id) <==> book.waiting.contains(id)
        && !kept.contains(id) by {
        lemma_stray(book, kept, id);
    }
    assert forall|id: OrderId| #[trigger] after.waiting.contains(id) <==> book.waiting.contains(
        id,
    ) by {
        if after.waiting.contains(id) {
            let i = choose|i: int| 0 <= i < after.waiting.len() && after.waiting[i] == id;
            if i < kept.len() {
                assert(kept.contains(kept[i]));
            } else {
                assert(added[i - kept.len()] == id);
                assert(added.contains(id));
            }
        }
        if book.waiting.contains(id) {
            if kept.contains(id) {
                let i = choose|i: int| 0 <= i < kept.len() && kept[i] == id;
                assert(after.waiting[i] == id);
            } else {
                assert(added.contains(id));
                let i = choose|i: int| 0 <= i < added.len() && added[i] == id;
                assert(after.waiting[kept.len() + i] == id);
            }
        }
    }
    assert(after.waiting.no_duplicates()) by {
        assert forall|i: int, j: int|
            0 <= i < after.waiting.len() && 0 <= j < after.waiting.len() && i
                != j implies after.waiting[i] != after.waiting[j] by {
            if i < kept.len() {
                assert(kept.contains(kept[i]));
            } else {
                assert(added.contains(added[i - kept.len()]));
            }
            if j < kept.len() {
                assert(kept.contains(kept[j]));
            } else {
                assert(added.contains(added[j - kept.len()]));
            }
        }
    }
    assert forall|i: int| 0 <= i < after.waiting.len() implies model::waits(
        after,
        #[trigger] after.waiting[i],
    ) by {
        assert(after.waiting.contains(after.waiting[i]));
        assert(model::waits(book, after.waiting[i]));
    }
    assert forall|id: OrderId| #[trigger] after.orders.contains_key(id) implies model::order_valid(
        after,
        id,
    ) by {
        assert(model::order_valid(book, id));
    }
}

/// The stray stop orders of a valid book that lacks waiting stop orders are those.
proof fn lemma_stray(book: BookModel, kept: Seq<OrderId>, id: OrderId)
    requires
        model::valid(book),
        forall|id: OrderId| #[trigger]
            book.waiting.contains(id) && book.orders[id].condition != OrderCondition::Stop
                ==> kept.contains(id),
    ensures
        stray(BookModel { waiting: kept, ..book }, id) <==> book.waiting.contains(id)
            && !kept.contains(id),
{
    let bare = BookModel { waiting: kept, ..book };
    validity::lemma_waiting(book);
    if book.waiting.contains(id) && !kept.contains(id) {
        assert(model::waits(book, id));
        if queued(book.bids, id) {
            let key = choose|key: u64| #[trigger]
                book.bids.contains_key(key) && book.bids[key].contains(id);
            assert(book.side(Side::Buy).contains_key(key));
        }
        if queued(book.asks, id) {
            let key = choose|key: u64| #[trigger]
                book.asks.contains_key(key) && book.asks[key].contains(id);
            assert(book.side(Side::Sell).contains_key(key));
        }
    }
    if stray(bare, id) && !book.waiting.contains(id) {
        let order = book.orders[id];
        let key = book::rank(order.side, order.price);
        assert(model::order_valid(book, id));
        assert(book.side(order.side).contains_key(key));
        assert(book.side(order.side)[key].contains(id));
        assert(queued(book.side(order.side), id));
    }
}

/// A snapshot of a valid book stands for that book.
pub proof fn law_valid_books_stay(book: BookModel)
    requires
        model::valid(book),
    ensures
        resumed(book) == book,
{
    let lost = strays(book);
    assert forall|id: OrderId| !lost.contains_key(id) by {
        lemma_stray(book, book.waiting, id);
    }
    assert(lost.dom() =~= Set::empty());
    ranking::lemma_ascending(lost);
    assert(book.waiting + ranking::ascending(lost) =~= book.waiting);
}

/// Loading a snapshot puts to wait, behind those that wait already and in the order of their IDs,
/// exactly the open stop orders that stand in no queue and do not wait. Nothing else changes.
pub proof fn law_lost_stop_orders_wait(book: BookModel)
    requires
        book.orders.dom().finite(),
    ensures
        ({
            let after = resumed(book);
            let n = book.waiting.len() as int;
            let added = after.waiting.skip(n);
            &&& after == BookModel { waiting: after.waiting, ..book }
            &&& after.waiting.len() >= n
            &&& after.waiting.take(n) == book.waiting
            &&& forall|i: int, j: int|
                0 <= i < j < added.len() ==> #[trigger] added[i] < #[trigger] added[j]
            &&& forall|id: OrderId| #[trigger]
                added.contains(id) <==> {
                    &&& book.orders.contains_key(id)
                    &&& book.orders[id].is_open
                    &&& book.orders[id].condition == OrderCondition::Stop
                    &&& !book.waiting.contains(id)
                    &&& forall|key: u64| #[trigger]
                        book.bids.contains_key(key) ==> !book.bids[key].contains(id)
                    &&& forall|key: u64| #[trigger]
                        book.asks.contains_key(key) ==> !book.asks[key].contains(id)
                }
        }),
{
    let lost = strays(book);
    let added = ranking::ascending(lost);
    let after = resumed(book);
    let n = book.waiting.len() as int;
    assert(lost.dom() =~= book.orders.dom().filter(|id: OrderId| stray(book, id)));
    ranking::lemma_ascending(lost);
    assert(after.waiting.skip(n) =~= added);
    assert(after.waiting.take(n) =~= book.waiting);
    assert forall|id: OrderId| #[trigger] added.contains(id) <==> {
        &&& book.orders.contains_key(id)
        &&& book.orders[id].is_open
        &&& book.orders[id].condition == OrderCondition::Stop
        &&& !book.waiting.contains(id)
        &&& forall|key: u64| #[trigger]
            book.bids.contains_key(key) ==> !book.bids[key].contains(id)
        &&& forall|key: u64| #[trigger]
            book.asks.contains_key(key) ==> !book.asks[key].contains(id)
    } by {
        assert(added.contains(id) <==> stray(book, id));
    }
}

} // verus!
