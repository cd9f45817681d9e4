//! Sums of queued quantities under changes of a queue or of the orders in it.
use crate::model;
use crate::types::{OrderId, OrderState};
use vstd::prelude::*;

verus! {

/// An order added at the back adds its open quantity.
pub proof fn lemma_qty_push(
    queue: Seq<OrderId>,
    orders: Map<OrderId, OrderState>,
    id: OrderId,
)
    ensures
        model::queued_qty(queue.push(id), orders) == model::queued_qty(queue, orders)
            + orders[id].open(),
    decreases queue.len(),
{
    let longer = queue.push(id);
    if queue.len() == 0 {
        assert(longer.drop_first() =~= Seq::<OrderId>::empty());
        assert(model::queued_qty(longer.drop_first(), orders) == 0);
    } else {
        lemma_qty_push(queue.drop_first(), orders, id);
        assert(longer.drop_first() =~= queue.drop_first().push(id));
    }
}

/// The sum depends on the queued orders' open quantities only.
pub proof fn lemma_qty_same(
    queue: Seq<OrderId>,
    orders: Map<OrderId, OrderState>,
    other: Map<OrderId, OrderState>,
)
    requires
        forall|i: int|
            0 <= i < queue.len() ==> orders[#[trigger] queue[i]].open() == other[queue[i]].open(),
    ensures
        model::queued_qty(queue, orders) == model::queued_qty(queue, other),
    decreases queue.len(),
{
    if queue.len() > 0 {
        let rest = queue.drop_first();
        assert forall|i: int| 0 <= i < rest.len() implies orders[#[trigger] rest[i]].open()
            == other[rest[i]].open() by {
            assert(rest[i] == queue[i + 1]);
        }
        lemma_qty_same(rest, orders, other);
    }
}

/// A change of an order that is not queued does not change the sum.
pub proof fn lemma_qty_absent(
    queue: Seq<OrderId>,
    orders: Map<OrderId, OrderState>,
    id: OrderId,
    order: OrderState,
)
    requires
        !queue.contains(id),
    ensures
        model::queued_qty(queue, orders.insert(id, order)) == model::queued_qty(queue, orders),
{
    lemma_qty_same(queue, orders.insert(id, order), orders);
}

/// An order taken out takes its open quantity with it.
pub proof fn lemma_qty_remove(
    queue: Seq<OrderId>,
    orders: Map<OrderId, OrderState>,
    i: int,
)
    requires
        0 <= i < queue.len(),
    ensures
        model::queued_qty(queue.remove(i), orders) + orders[queue[i]].open() == model::queued_qty(
            queue,
            orders,
        ),
    decreases queue.len(),
{
    if i == 0 {
        assert(queue.remove(0) =~= queue.drop_first());
    } else {
        lemma_qty_remove(queue.drop_first(), orders, i - 1);
        assert(queue.remove(i).drop_first() =~= queue.drop_first().remove(i - 1));
        assert(queue.remove(i)[0] == queue[0]);
    }
}

/// A change of one queued order changes the sum by the change of its open quantity.
pub proof fn lemma_qty_update(
    queue: Seq<OrderId>,
    orders: Map<OrderId, OrderState>,
    i: int,
    order: OrderState,
)
    requires
        0 <= i < queue.len(),
        queue.no_duplicates(),
    ensures
        model::queued_qty(queue, orders.insert(queue[i], order)) + orders[queue[i]].open()
            == model::queued_qty(queue, orders) + order.open(),
{
    let id = queue[i];
    let changed = orders.insert(id, order);
    lemma_qty_remove(queue, orders, i);
    lemma_qty_remove(queue, changed, i);
    assert(!queue.remove(i).contains(id)) by {
        if queue.remove(i).contains(id) {
            let j = choose|j: int| 0 <= j < queue.remove(i).len() && queue.remove(i)[j] == id;
            if j < i {
                assert(queue[j] == id);
            } else {
                assert(queue[j + 1] == id);
            }
        }
    }
    lemma_qty_absent(queue.remove(i), orders, id, order);
}

/// A queued order's open quantity is at most the sum.
pub proof fn lemma_qty_member(
    queue: Seq<OrderId>,
    orders: Map<OrderId, OrderState>,
    i: int,
)
    requires
        0 <= i < queue.len(),
    ensures
        orders[queue[i]].open() <= model::queued_qty(queue, orders),
{
    lemma_qty_remove(queue, orders, i);
}

/// In a queue without duplicates, removing a value removes the one place where it stands.
pub proof fn lemma_remove_value(queue: Seq<OrderId>, id: OrderId)
    requires
        queue.no_duplicates(),
        queue.contains(id),
    ensures
        exists|i: int|
            0 <= i < queue.len() && queue[i] == id && queue.remove_value(id) == queue.remove(i),
        queue.remove_value(id).no_duplicates(),
        queue.remove_value(id).len() == queue.len() - 1,
        forall|x: OrderId| #[trigger]
            queue.remove_value(id).contains(x) <==> queue.contains(x) && x != id,
{
    queue.index_of_first_ensures(id);
    let i = queue.index_of_first(id).unwrap();
    let rest = queue.remove(i);
    assert(queue.remove_value(id) == rest);
    assert forall|a: int, b: int| 0 <= a < rest.len() && 0 <= b < rest.len() && a != b implies rest[a]
        != rest[b] by {
        let a2 = if a < i { a } else { a + 1 };
        let b2 = if b < i { b } else { b + 1 };
        assert(rest[a] == queue[a2] && rest[b] == queue[b2]);
    }
    assert forall|x: OrderId| #[trigger] rest.contains(x) <==> queue.contains(x) && x != id by {
        if rest.contains(x) {
            let a = choose|a: int| 0 <= a < rest.len() && rest[a] == x;
            let a2 = if a < i { a } else { a + 1 };
            assert(queue[a2] == x);
        }
        if queue.contains(x) && x != id {
            let a = choose|a: int| 0 <= a < queue.len() && queue[a] == x;
            let a2 = if a < i { a } else { a - 1 };
            assert(rest[a2] == x);
        }
    }
}

/// The first orders of a queue have no more than all of them.
pub proof fn lemma_prefix_qty(queue: Seq<OrderId>, orders: Map<OrderId, OrderState>, n: int)
    requires
        0 <= n <= queue.len(),
    ensures
        model::queued_qty(queue.take(n), orders) <= model::queued_qty(queue, orders),
    decreases queue.len() - n,
{
    if n == queue.len() {
        assert(queue.take(n) =~= queue);
    } else {
        lemma_prefix_qty(queue, orders, n + 1);
        assert(queue.take(n + 1) =~= queue.take(n).push(queue[n]));
        lemma_qty_push(queue.take(n), orders, queue[n]);
    }
}

} // verus!
