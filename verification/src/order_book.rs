//! Per-instrument order book: resting limit levels on both sides, resting
//! market orders, the order index, and the matching and cancellation logic.

use vstd::prelude::*;
use std::collections::HashMap;
use crate::types::{
    lemma_fill_keeps_wf, Order, OrderSide, OrderStatus, OrderType, Symbol, PRICE_MAX, QTY_MAX,
};

verus! {

broadcast use vstd::std_specs::hash::group_hash_axioms;

/// One price level: the FIFO queue of resting order ids at one price on one
/// side of the book.
pub struct PriceLevel {
    pub price: u64,
    pub queue: Vec<u32>,
}

impl View for PriceLevel {
    type V = (u64, Seq<u32>);

    open spec fn view(&self) -> (u64, Seq<u32>) {
        (self.price, self.queue@)
    }
}

/// The price levels of one book side as a sequence of (price, id queue) pairs.
pub open spec fn levels_view(ls: Seq<PriceLevel>) -> Seq<(u64, Seq<u32>)> {
    ls.map_values(|l: PriceLevel| l@)
}

/// Mathematical abstraction of a book: both level sequences are kept in
/// ascending price order, so the best bid is the last bid level and the best
/// ask is the first ask level.
pub struct BookView {
    pub bids: Seq<(u64, Seq<u32>)>,
    pub asks: Seq<(u64, Seq<u32>)>,
    pub market_bids: Seq<u32>,
    pub market_asks: Seq<u32>,
    pub orders: Map<u32, Order>,
}

/// Level prices strictly ascend.
pub open spec fn sorted_levels(ls: Seq<(u64, Seq<u32>)>) -> bool {
    forall|i: int, j: int| 0 <= i < j < ls.len() ==> ls[i].0 < ls[j].0
}

/// No level is kept with an empty queue.
pub open spec fn levels_nonempty(ls: Seq<(u64, Seq<u32>)>) -> bool {
    forall|i: int| 0 <= i < ls.len() ==> ls[i].1.len() > 0
}

/// No id occurs twice in the queue.
pub open spec fn no_dup(q: Seq<u32>) -> bool {
    forall|i: int, j: int| 0 <= i < j < q.len() ==> q[i] != q[j]
}

pub open spec fn levels_no_dup(ls: Seq<(u64, Seq<u32>)>) -> bool {
    forall|i: int| 0 <= i < ls.len() ==> no_dup(#[trigger] ls[i].1)
}

/// What must hold of every id resting in any queue: it is indexed, keyed by
/// its own id, still active, and within the accounting bounds.
pub open spec fn resting_ok(orders: Map<u32, Order>, id: u32) -> bool {
    &&& orders.contains_key(id)
    &&& orders[id].id == id
    &&& !orders[id].is_canceled
    &&& orders[id].remaining_quantity > 0
    &&& orders[id].wf()
}

/// Every id in the queue is a well-formed resting order of the given side and
/// kind (its limit price must equal the queue's level price, if any).
pub open spec fn queue_wf(orders: Map<u32, Order>, q: Seq<u32>) -> bool {
    forall|j: int| 0 <= j < q.len() ==> resting_ok(orders, #[trigger] q[j])
}

pub open spec fn market_queue_ok(orders: Map<u32, Order>, side: OrderSide, q: Seq<u32>) -> bool {
    forall|j: int|
        0 <= j < q.len() ==> {
            &&& resting_ok(orders, #[trigger] q[j])
            &&& orders[q[j]].side == side
            &&& orders[q[j]].order_type == OrderType::Market
        }
}

pub open spec fn levels_ok(orders: Map<u32, Order>, side: OrderSide, ls: Seq<(u64, Seq<u32>)>) -> bool {
    forall|i: int, j: int|
        0 <= i < ls.len() && 0 <= j < ls[i].1.len() ==> {
            &&& resting_ok(orders, #[trigger] ls[i].1[j])
            &&& orders[ls[i].1[j]].side == side
            &&& orders[ls[i].1[j]].order_type == OrderType::Limit(ls[i].0)
        }
}

/// Some level at this price holds this id.
pub open spec fn level_entry(ls: Seq<(u64, Seq<u32>)>, price: u64, id: u32) -> bool {
    exists|i: int| 0 <= i < ls.len() && (#[trigger] ls[i]).0 == price && ls[i].1.contains(id)
}

/// Every active order of the book is resting in the queue its kind and side
/// prescribe (stop orders are indexed but not queued until activated).
pub open spec fn active_orders_queued(bv: BookView) -> bool {
    forall|id: u32|
        #[trigger] bv.orders.contains_key(id) && !bv.orders[id].is_canceled
            && bv.orders[id].remaining_quantity > 0 ==> match bv.orders[id].order_type {
            OrderType::Limit(p) => if bv.orders[id].side == OrderSide::Buy {
                level_entry(bv.bids, p, id)
            } else {
                level_entry(bv.asks, p, id)
            },
            OrderType::Market => if bv.orders[id].side == OrderSide::Buy {
                bv.market_bids.contains(id)
            } else {
                bv.market_asks.contains(id)
            },
            OrderType::Stop(_) => true,
        }
}

pub open spec fn orders_ok(orders: Map<u32, Order>) -> bool {
    forall|id: u32|
        #[trigger] orders.contains_key(id) ==> orders[id].id == id && orders[id].wf()
}

/// Every level of the lower side is priced strictly below every level of the
/// upper side.
pub open spec fn sides_not_crossed(lower: Seq<(u64, Seq<u32>)>, upper: Seq<(u64, Seq<u32>)>) -> bool {
    forall|i: int, j: int|
        0 <= i < lower.len() && 0 <= j < upper.len() ==> (#[trigger] lower[i]).0 < (
        #[trigger] upper[j]).0
}

impl BookView {
    /// The book's structural invariant; it holds between any two operations.
    pub open spec fn wf(&self) -> bool {
        &&& sorted_levels(self.bids)
        &&& sorted_levels(self.asks)
        &&& levels_nonempty(self.bids)
        &&& levels_nonempty(self.asks)
        &&& levels_no_dup(self.bids)
        &&& levels_no_dup(self.asks)
        &&& no_dup(self.market_bids)
        &&& no_dup(self.market_asks)
        &&& levels_ok(self.orders, OrderSide::Buy, self.bids)
        &&& levels_ok(self.orders, OrderSide::Sell, self.asks)
        &&& market_queue_ok(self.orders, OrderSide::Buy, self.market_bids)
        &&& market_queue_ok(self.orders, OrderSide::Sell, self.market_asks)
        &&& self.not_crossed()
        &&& orders_ok(self.orders)
        &&& active_orders_queued(*self)
    }

    /// No bid level is priced at or above any ask level.
    pub open spec fn not_crossed(&self) -> bool {
        sides_not_crossed(self.bids, self.asks)
    }
}

/// Functional model of one fill pass: the incoming order eats the queue from
/// the front, exchanging `min(incoming remaining, resting remaining)` shares
/// at `price` with each resting order, popping each resting order it
/// exhausts, until the queue is empty or the incoming order is exhausted.
pub open spec fn fill_queue_model(o: Order, price: u64, q: Seq<u32>, orders: Map<u32, Order>) -> (
    Order,
    Seq<u32>,
    Map<u32, Order>,
)
    decreases q.len(),
{
    if q.len() == 0 || o.remaining_quantity == 0 {
        (o, q, orders)
    } else {
        let id = q[0];
        let resting = orders[id];
        let fill = if o.remaining_quantity <= resting.remaining_quantity {
            o.remaining_quantity
        } else {
            resting.remaining_quantity
        };
        let resting2 = resting.spec_filled(fill, price);
        let o2 = o.spec_filled(fill, price);
        let orders2 = orders.insert(id, resting2);
        if resting2.remaining_quantity == 0 {
            fill_queue_model(o2, price, q.drop_first(), orders2)
        } else {
            (o2, q, orders2)
        }
    }
}

/// The two orders agree on everything but fill state.
pub open spec fn same_order_core(a: Order, b: Order) -> bool {
    &&& a.id == b.id
    &&& a.account_id == b.account_id
    &&& a.symbol == b.symbol
    &&& a.order_type == b.order_type
    &&& a.side == b.side
    &&& a.quantity == b.quantity
    &&& a.is_canceled == b.is_canceled
}

/// What one fill pass leaves behind, for any admissible starting state: the
/// incoming order and every resting order keep their identity and only lose
/// remaining quantity, the queue shrinks to a suffix of itself, exhausted
/// resting orders are exactly the ones that left, and if the incoming order
/// still has a remainder the whole queue was consumed.
pub proof fn lemma_fill_queue_model(o: Order, price: u64, q: Seq<u32>, orders: Map<u32, Order>)
    requires
        o.wf(),
        price <= PRICE_MAX,
        no_dup(q),
        queue_wf(orders, q),
        !orders.contains_key(o.id),
    ensures
        ({
            let (o2, q2, orders2) = fill_queue_model(o, price, q, orders);
            &&& o2.wf()
            &&& same_order_core(o2, o)
            &&& o2.remaining_quantity <= o.remaining_quantity
            &&& orders2.dom() == orders.dom()
            &&& !orders2.contains_key(o.id)
            &&& exists|k: int| 0 <= k <= q.len() && q2 =~= q.skip(k)
            &&& no_dup(q2)
            &&& queue_wf(orders2, q2)
            &&& forall|id: u32|
                !q.contains(id) && orders.contains_key(id) ==> orders2[id] == orders[id]
            &&& forall|id: u32|
                #[trigger] q.contains(id) ==> {
                    &&& orders2.contains_key(id)
                    &&& same_order_core(orders2[id], orders[id])
                    &&& orders2[id].remaining_quantity <= orders[id].remaining_quantity
                    &&& orders2[id].cost >= orders[id].cost
                    &&& orders2[id].wf()
                }
            &&& (o2.remaining_quantity > 0 ==> q2.len() == 0)
            &&& forall|id: u32|
                #[trigger] q.contains(id) && !q2.contains(id)
                    ==> orders2[id].remaining_quantity == 0
        }),
    decreases q.len(),
{
    let (o2, q2, orders2) = fill_queue_model(o, price, q, orders);
    if q.len() == 0 || o.remaining_quantity == 0 {
        assert(q2 =~= q.skip(0));
    } else {
        let id = q[0];
        let resting = orders[id];
        let fill = if o.remaining_quantity <= resting.remaining_quantity {
            o.remaining_quantity
        } else {
            resting.remaining_quantity
        };
        assert(resting_ok(orders, id));
        lemma_fill_keeps_wf(resting, fill, price);
        lemma_fill_keeps_wf(o, fill, price);
        let resting2 = resting.spec_filled(fill, price);
        let om = o.spec_filled(fill, price);
        let ordersm = orders.insert(id, resting2);
        if resting2.remaining_quantity == 0 {
            let qm = q.drop_first();
            assert(queue_wf(ordersm, qm)) by {
                assert forall|j: int| 0 <= j < qm.len() implies resting_ok(
                    ordersm,
                    #[trigger] qm[j],
                ) by {
                    assert(qm[j] == q[j + 1]);
                    assert(q[j + 1] != id);
                    assert(resting_ok(orders, q[j + 1]));
                }
            }
            lemma_fill_queue_model(om, price, qm, ordersm);
            let (of, qf, ordersf) = fill_queue_model(om, price, qm, ordersm);
            assert((of, qf, ordersf) == (o2, q2, orders2));
            // the final queue is a suffix of the original one
            let k = choose|k: int| 0 <= k <= qm.len() && qf =~= qm.skip(k);
            assert(q2 =~= q.skip(k + 1)) by {
                assert(qm.skip(k) =~= q.skip(k + 1));
            }
            assert(orders2.dom() =~= orders.dom()) by {
                assert(ordersm.dom() =~= orders.dom());
            }
            // the head order left the queue fully exhausted and untouched after
            assert(!qm.contains(id)) by {
                assert forall|j: int| 0 <= j < qm.len() implies qm[j] != id by {
                    assert(qm[j] == q[j + 1]);
                }
            }
            assert(orders2[id] == resting2);
            assert(forall|id2: u32|
                !q.contains(id2) && orders.contains_key(id2) ==> !qm.contains(id2)
                    && orders2[id2] == orders[id2]) by {
                assert(forall|id2: u32| #[trigger] qm.contains(id2) ==> q.contains(id2)) by {
                    assert forall|id2: u32| #[trigger] qm.contains(id2) implies q.contains(
                        id2,
                    ) by {
                        let j = choose|j: int| 0 <= j < qm.len() && qm[j] == id2;
                        assert(q[j + 1] == id2);
                    }
                }
            }
            assert forall|id2: u32| #[trigger] q.contains(id2) implies {
                &&& orders2.contains_key(id2)
                &&& same_order_core(orders2[id2], orders[id2])
                &&& orders2[id2].remaining_quantity <= orders[id2].remaining_quantity
                &&& orders2[id2].cost >= orders[id2].cost
                &&& orders2[id2].wf()
            } by {
                if id2 == id {
                    assert(orders2[id] == resting2);
                } else {
                    let j = choose|j: int| 0 <= j < q.len() && q[j] == id2;
                    assert(j != 0);
                    assert(qm[j - 1] == id2);
                    assert(qm.contains(id2));
                    assert(ordersm[id2] == orders[id2]);
                    assert(resting_ok(orders, id2));
                }
            }
            assert forall|id2: u32| q.contains(id2) && !q2.contains(id2) implies orders2[id2].remaining_quantity == 0 by {
                if id2 == id {
                } else {
                    let j = choose|j: int| 0 <= j < q.len() && q[j] == id2;
                    assert(j != 0);
                    assert(qm[j - 1] == id2);
                    assert(qm.contains(id2));
                }
            }
        } else {
            // the incoming order is exhausted; the queue keeps its head
            assert(om.remaining_quantity == 0);
            assert(q2 =~= q.skip(0));
            assert(orders2.dom() =~= orders.dom());
            assert(queue_wf(orders2, q2)) by {
                assert forall|j: int| 0 <= j < q2.len() implies resting_ok(
                    orders2,
                    #[trigger] q2[j],
                ) by {
                    assert(resting_ok(orders, q[j]));
                    if q2[j] == id {
                        assert(orders2[id] == resting2);
                    }
                }
            }
            assert forall|id2: u32| #[trigger] q.contains(id2) implies {
                &&& orders2.contains_key(id2)
                &&& same_order_core(orders2[id2], orders[id2])
                &&& orders2[id2].remaining_quantity <= orders[id2].remaining_quantity
                &&& orders2[id2].cost >= orders[id2].cost
                &&& orders2[id2].wf()
            } by {
                if id2 == id {
                    assert(orders2[id] == resting2);
                } else {
                    assert(orders2[id2] == orders[id2]);
                    assert(resting_ok(orders, id2));
                }
            }
        }
    }
}

/// Total quantity still unfilled across the resting orders named by a queue.
pub open spec fn queue_rem_sum(orders: Map<u32, Order>, q: Seq<u32>) -> int
    decreases q.len(),
{
    if q.len() == 0 {
        0
    } else {
        orders[q[0]].remaining_quantity + queue_rem_sum(orders, q.drop_first())
    }
}

/// The sum only depends on the orders the queue names.
pub proof fn lemma_queue_rem_sum_congruence(m1: Map<u32, Order>, m2: Map<u32, Order>, q: Seq<u32>)
    requires
        forall|j: int| 0 <= j < q.len() ==> m1[#[trigger] q[j]] == m2[q[j]],
    ensures
        queue_rem_sum(m1, q) == queue_rem_sum(m2, q),
    decreases q.len(),
{
    if q.len() > 0 {
        assert(forall|j: int|
            0 <= j < q.drop_first().len() ==> m1[#[trigger] q.drop_first()[j]] == m2[q.drop_first()[j]]);
        lemma_queue_rem_sum_congruence(m1, m2, q.drop_first());
    }
}

/// LAW (conservation): across any fill pass, the quantity the queue's
/// resting orders lose is exactly the quantity the incoming order fills;
/// matching moves quantity, it never creates or destroys it.
pub proof fn lemma_fill_queue_conserves(o: Order, price: u64, q: Seq<u32>, orders: Map<u32, Order>)
    requires
        o.wf(),
        price <= PRICE_MAX,
        no_dup(q),
        queue_wf(orders, q),
        !orders.contains_key(o.id),
    ensures
        ({
            let (o2, q2, orders2) = fill_queue_model(o, price, q, orders);
            queue_rem_sum(orders2, q) == queue_rem_sum(orders, q) - (o.remaining_quantity
                - o2.remaining_quantity)
        }),
    decreases q.len(),
{
    let (o2, q2, orders2) = fill_queue_model(o, price, q, orders);
    if q.len() == 0 || o.remaining_quantity == 0 {
    } else {
        let id = q[0];
        let resting = orders[id];
        let fill = if o.remaining_quantity <= resting.remaining_quantity {
            o.remaining_quantity
        } else {
            resting.remaining_quantity
        };
        assert(resting_ok(orders, id));
        lemma_fill_keeps_wf(resting, fill, price);
        lemma_fill_keeps_wf(o, fill, price);
        let resting2 = resting.spec_filled(fill, price);
        let om = o.spec_filled(fill, price);
        let ordersm = orders.insert(id, resting2);
        let qm = q.drop_first();
        assert(!qm.contains(id)) by {
            assert forall|j: int| 0 <= j < qm.len() implies qm[j] != id by {
                assert(qm[j] == q[j + 1]);
            }
        }
        // the tail sum does not see the head's update
        assert(forall|j: int| 0 <= j < qm.len() ==> orders[#[trigger] qm[j]] == ordersm[qm[j]]);
        lemma_queue_rem_sum_congruence(orders, ordersm, qm);
        if resting2.remaining_quantity == 0 {
            assert(queue_wf(ordersm, qm)) by {
                assert forall|j: int| 0 <= j < qm.len() implies resting_ok(
                    ordersm,
                    #[trigger] qm[j],
                ) by {
                    assert(qm[j] == q[j + 1]);
                    assert(resting_ok(orders, q[j + 1]));
                }
            }
            lemma_fill_queue_conserves(om, price, qm, ordersm);
            lemma_fill_queue_model(om, price, qm, ordersm);
            assert(orders2[id] == resting2);
            assert(queue_rem_sum(orders2, q) == orders2[id].remaining_quantity + queue_rem_sum(
                orders2,
                qm,
            ));
        } else {
            assert(orders2 == ordersm);
            assert(queue_rem_sum(orders2, q) == resting2.remaining_quantity + queue_rem_sum(
                ordersm,
                qm,
            ));
        }
    }
}

/// LAW (price-time priority): within one FIFO queue - one price level, or
/// the market-order queue - if a later resting order received any fill during
/// a pass, every order that arrived before it was fully exhausted first.
pub proof fn lemma_fill_queue_priority(
    o: Order,
    price: u64,
    q: Seq<u32>,
    orders: Map<u32, Order>,
    i: int,
    j: int,
)
    requires
        o.wf(),
        price <= PRICE_MAX,
        no_dup(q),
        queue_wf(orders, q),
        !orders.contains_key(o.id),
        0 <= i < j < q.len(),
        fill_queue_model(o, price, q, orders).2[q[j]].remaining_quantity < orders[q[j]].remaining_quantity,
    ensures
        fill_queue_model(o, price, q, orders).2[q[i]].remaining_quantity == 0,
    decreases q.len(),
{
    let (o2, q2, orders2) = fill_queue_model(o, price, q, orders);
    assert(q.len() > 0);
    let id = q[0];
    let resting = orders[id];
    assert(resting_ok(orders, id));
    if o.remaining_quantity == 0 {
        assert(orders2 == orders);
        assert(false);
    } else {
        let fill = if o.remaining_quantity <= resting.remaining_quantity {
            o.remaining_quantity
        } else {
            resting.remaining_quantity
        };
        lemma_fill_keeps_wf(resting, fill, price);
        lemma_fill_keeps_wf(o, fill, price);
        let resting2 = resting.spec_filled(fill, price);
        let om = o.spec_filled(fill, price);
        let ordersm = orders.insert(id, resting2);
        let qm = q.drop_first();
        assert(!qm.contains(id)) by {
            assert forall|jx: int| 0 <= jx < qm.len() implies qm[jx] != id by {
                assert(qm[jx] == q[jx + 1]);
            }
        }
        if resting2.remaining_quantity == 0 {
            assert(queue_wf(ordersm, qm)) by {
                assert forall|jx: int| 0 <= jx < qm.len() implies resting_ok(
                    ordersm,
                    #[trigger] qm[jx],
                ) by {
                    assert(qm[jx] == q[jx + 1]);
                    assert(resting_ok(orders, q[jx + 1]));
                }
            }
            lemma_fill_queue_model(om, price, qm, ordersm);
            if i == 0 {
                // the head left fully exhausted and is never touched again
                assert(ordersm[id] == resting2);
                assert(orders2[id] == resting2);
            } else {
                assert(qm[j - 1] == q[j] && qm[i - 1] == q[i]);
                assert(ordersm[q[j]] == orders[q[j]]);
                lemma_fill_queue_priority(om, price, qm, ordersm, i - 1, j - 1);
            }
        } else {
            // the incoming order was exhausted on the head; no later order
            // received any fill, contradicting the premise
            assert(orders2 == ordersm);
            assert(q[j] != id);
            assert(orders2[q[j]] == orders[q[j]]);
            assert(false);
        }
    }
}

/// Whether a level at this price may still be consumed: a market order
/// (no limit) takes any level; a limit order consuming from the front (asks)
/// stops above its price, one consuming from the back (bids) stops below it.
pub open spec fn price_eligible(limit: Option<u64>, from_front: bool, price: u64) -> bool {
    match limit {
        None => true,
        Some(p) => if from_front {
            price <= p
        } else {
            price >= p
        },
    }
}

/// The level the next fill pass would consume: the first (cheapest) level
/// when consuming asks, the last (dearest) when consuming bids.
pub open spec fn next_level_index(ls: Seq<(u64, Seq<u32>)>, from_front: bool) -> int {
    if from_front {
        0int
    } else {
        ls.len() - 1
    }
}

/// One side's level sequence as the matching loop requires it: strictly
/// ascending prices, no empty level, no duplicate id, every id indexed as an
/// active limit order at its level's price.
pub open spec fn levels_wf(orders: Map<u32, Order>, ls: Seq<(u64, Seq<u32>)>) -> bool {
    &&& sorted_levels(ls)
    &&& levels_nonempty(ls)
    &&& levels_no_dup(ls)
    &&& forall|i: int, j: int|
        0 <= i < ls.len() && 0 <= j < ls[i].1.len() ==> {
            &&& resting_ok(orders, #[trigger] ls[i].1[j])
            &&& orders[ls[i].1[j]].order_type == OrderType::Limit(ls[i].0)
        }
}

/// Some level holds this id.
pub open spec fn levels_contain_id(ls: Seq<(u64, Seq<u32>)>, id: u32) -> bool {
    exists|i: int| 0 <= i < ls.len() && (#[trigger] ls[i]).1.contains(id)
}

/// Functional model of consuming one side's levels, best price first: run a
/// fill pass against the best eligible level (at the level's own price for a
/// market order, at the incoming limit price otherwise), drop the level once
/// emptied, and continue until the incoming order is exhausted, the side is
/// exhausted, or the best remaining level is no longer eligible.
pub open spec fn consume_levels_model(
    o: Order,
    ls: Seq<(u64, Seq<u32>)>,
    orders: Map<u32, Order>,
    from_front: bool,
    limit: Option<u64>,
) -> (Order, Seq<(u64, Seq<u32>)>, Map<u32, Order>)
    decreases ls.len(),
{
    if ls.len() == 0 || o.remaining_quantity == 0 {
        (o, ls, orders)
    } else {
        let idx = next_level_index(ls, from_front);
        let lvl = ls[idx];
        if !price_eligible(limit, from_front, lvl.0) {
            (o, ls, orders)
        } else {
            let fill_price = match limit {
                None => lvl.0,
                Some(p) => p,
            };
            let (o2, q2, orders2) = fill_queue_model(o, fill_price, lvl.1, orders);
            if q2.len() == 0 {
                consume_levels_model(o2, ls.remove(idx), orders2, from_front, limit)
            } else {
                (o2, ls.update(idx, (lvl.0, q2)), orders2)
            }
        }
    }
}

/// Ids on distinct levels of one side are distinct: both would otherwise be
/// indexed as limit orders at two different prices.
proof fn lemma_level_ids_disjoint(
    orders: Map<u32, Order>,
    ls: Seq<(u64, Seq<u32>)>,
    i1: int,
    i2: int,
    id: u32,
)
    requires
        levels_wf(orders, ls),
        0 <= i1 < ls.len(),
        0 <= i2 < ls.len(),
        i1 != i2,
        ls[i1].1.contains(id),
    ensures
        !ls[i2].1.contains(id),
{
    if ls[i2].1.contains(id) {
        let j1 = choose|j: int| 0 <= j < ls[i1].1.len() && ls[i1].1[j] == id;
        let j2 = choose|j: int| 0 <= j < ls[i2].1.len() && ls[i2].1[j] == id;
        assert(orders[id].order_type == OrderType::Limit(ls[i1].0));
        assert(orders[id].order_type == OrderType::Limit(ls[i2].0));
        if i1 < i2 {
            assert(ls[i1].0 < ls[i2].0);
        } else {
            assert(ls[i2].0 < ls[i1].0);
        }
    }
}

/// One step of the level consumption: what one fill pass against the best
/// eligible level leaves of the side's structure.
proof fn lemma_consume_step(
    o: Order,
    ls: Seq<(u64, Seq<u32>)>,
    orders: Map<u32, Order>,
    from_front: bool,
    limit: Option<u64>,
)
    requires
        o.wf(),
        levels_wf(orders, ls),
        !orders.contains_key(o.id),
        limit matches Some(p) ==> p <= PRICE_MAX,
        ls.len() > 0,
        o.remaining_quantity > 0,
        price_eligible(limit, from_front, ls[next_level_index(ls, from_front)].0),
    ensures
        ({
            let idx = next_level_index(ls, from_front);
            let lvl = ls[idx];
            let fill_price = match limit {
                None => lvl.0,
                Some(p) => p,
            };
            let (o2, q2, orders2) = fill_queue_model(o, fill_price, lvl.1, orders);
            &&& fill_price <= PRICE_MAX
            &&& no_dup(lvl.1)
            &&& queue_wf(orders, lvl.1)
            &&& o2.wf()
            &&& same_order_core(o2, o)
            &&& o2.remaining_quantity <= o.remaining_quantity
            &&& orders2.dom() == orders.dom()
            &&& !orders2.contains_key(o.id)
            &&& (q2.len() == 0 ==> levels_wf(orders2, ls.remove(idx)))
            &&& (q2.len() > 0 ==> levels_wf(orders2, ls.update(idx, (lvl.0, q2)))
                && o2.remaining_quantity == 0)
            &&& forall|id: u32|
                !lvl.1.contains(id) && orders.contains_key(id) ==> orders2[id] == orders[id]
            &&& forall|id: u32|
                #[trigger] lvl.1.contains(id) ==> {
                    &&& orders2.contains_key(id)
                    &&& same_order_core(orders2[id], orders[id])
                    &&& orders2[id].remaining_quantity <= orders[id].remaining_quantity
                    &&& orders2[id].wf()
                }
            &&& forall|id: u32|
                #[trigger] lvl.1.contains(id) && !q2.contains(id)
                    ==> orders2[id].remaining_quantity == 0
            &&& forall|id: u32| #[trigger] q2.contains(id) ==> lvl.1.contains(id)
        }),
{
    let idx = next_level_index(ls, from_front);
    let lvl = ls[idx];
    let fill_price = match limit {
        None => lvl.0,
        Some(p) => p,
    };
    assert(lvl.1.len() > 0);
    assert(resting_ok(orders, lvl.1[0]) && orders[lvl.1[0]].order_type == OrderType::Limit(lvl.0));
    assert(fill_price <= PRICE_MAX);
    assert(queue_wf(orders, lvl.1)) by {
        assert forall|j: int| 0 <= j < lvl.1.len() implies resting_ok(orders, #[trigger] lvl.1[j]) by {
            assert(resting_ok(orders, ls[idx].1[j]));
        }
    }
    lemma_fill_queue_model(o, fill_price, lvl.1, orders);
    let (o2, q2, orders2) = fill_queue_model(o, fill_price, lvl.1, orders);
    let k = choose|k: int| 0 <= k <= lvl.1.len() && q2 =~= lvl.1.skip(k);
    assert(forall|id: u32| #[trigger] q2.contains(id) ==> lvl.1.contains(id)) by {
        assert forall|id: u32| #[trigger] q2.contains(id) implies lvl.1.contains(id) by {
            let j = choose|j: int| 0 <= j < q2.len() && q2[j] == id;
            assert(lvl.1[j + k] == id);
        }
    }
    // entries of other levels are untouched by the pass
    assert forall|i: int, j: int|
        0 <= i < ls.len() && i != idx && 0 <= j < ls[i].1.len() implies orders2[#[trigger] ls[i].1[j]]
        == orders[ls[i].1[j]] && resting_ok(orders2, ls[i].1[j]) && orders2[ls[i].1[j]].order_type
        == OrderType::Limit(ls[i].0) by {
        let id = ls[i].1[j];
        assert(ls[i].1.contains(id));
        lemma_level_ids_disjoint(orders, ls, i, idx, id);
        assert(resting_ok(orders, id));
        assert(orders2[id] == orders[id]);
    }
    if q2.len() == 0 {
        let lsm = ls.remove(idx);
        assert(levels_wf(orders2, lsm)) by {
            assert forall|i: int, j: int|
                0 <= i < lsm.len() && 0 <= j < lsm[i].1.len() implies resting_ok(
                orders2,
                #[trigger] lsm[i].1[j],
            ) && orders2[lsm[i].1[j]].order_type == OrderType::Limit(lsm[i].0) by {
                let iorig: int = if i < idx {
                    i
                } else {
                    i + 1
                };
                assert(lsm[i] == ls[iorig]);
            }
        }
    } else {
        let lsm = ls.update(idx, (lvl.0, q2));
        assert(levels_wf(orders2, lsm)) by {
            assert forall|i: int, j: int|
                0 <= i < lsm.len() && 0 <= j < lsm[i].1.len() implies resting_ok(
                orders2,
                #[trigger] lsm[i].1[j],
            ) && orders2[lsm[i].1[j]].order_type == OrderType::Limit(lsm[i].0) by {
                if i == idx {
                    let id = q2[j];
                    assert(q2.contains(id));
                    assert(lvl.1.contains(id));
                } else {
                    assert(lsm[i] == ls[i]);
                }
            }
            assert forall|i: int| 0 <= i < lsm.len() implies no_dup(#[trigger] lsm[i].1) by {
                if i != idx {
                    assert(lsm[i] == ls[i]);
                }
            }
        }
    }
}

/// What consuming one side's levels leaves behind: the structure stays
/// well-formed, level entries only disappear (never move or appear), resting
/// orders keep their identity and only lose remaining quantity, any resting
/// order with a remainder is still at its price, and if the incoming order
/// kept a remainder then no eligible level is left.
#[verifier::rlimit(100)]
pub proof fn lemma_consume_levels_model(
    o: Order,
    ls: Seq<(u64, Seq<u32>)>,
    orders: Map<u32, Order>,
    from_front: bool,
    limit: Option<u64>,
)
    requires
        o.wf(),
        levels_wf(orders, ls),
        !orders.contains_key(o.id),
        limit matches Some(p) ==> p <= PRICE_MAX,
    ensures
        ({
            let (o2, ls2, orders2) = consume_levels_model(o, ls, orders, from_front, limit);
            &&& o2.wf()
            &&& same_order_core(o2, o)
            &&& o2.remaining_quantity <= o.remaining_quantity
            &&& orders2.dom() == orders.dom()
            &&& !orders2.contains_key(o.id)
            &&& levels_wf(orders2, ls2)
            &&& forall|id: u32|
                !levels_contain_id(ls, id) && orders.contains_key(id) ==> orders2[id] == orders[id]
            &&& forall|id: u32|
                #[trigger] levels_contain_id(ls, id) ==> {
                    &&& orders2.contains_key(id)
                    &&& same_order_core(orders2[id], orders[id])
                    &&& orders2[id].remaining_quantity <= orders[id].remaining_quantity
                    &&& orders2[id].wf()
                }
            &&& forall|price: u64, id: u32|
                #[trigger] level_entry(ls2, price, id) ==> level_entry(ls, price, id)
            &&& forall|price: u64, id: u32|
                #[trigger] level_entry(ls, price, id) && orders2[id].remaining_quantity > 0
                    ==> level_entry(ls2, price, id)
            &&& (o2.remaining_quantity > 0 ==> forall|i: int|
                0 <= i < ls2.len() ==> !price_eligible(limit, from_front, (#[trigger] ls2[i]).0))
        }),
    decreases ls.len(),
{
    let (o2, ls2, orders2) = consume_levels_model(o, ls, orders, from_front, limit);
    if ls.len() == 0 || o.remaining_quantity == 0 {
    } else {
        let idx = next_level_index(ls, from_front);
        let lvl = ls[idx];
        if !price_eligible(limit, from_front, lvl.0) {
            // the best remaining level is out of range; by sortedness so is
            // every other level on this side
            assert forall|i: int| 0 <= i < ls2.len() implies !price_eligible(
                limit,
                from_front,
                (#[trigger] ls2[i]).0,
            ) by {
                if i != idx {
                    if from_front {
                        assert(ls[idx].0 <= ls[i].0);
                    } else {
                        assert(ls[i].0 <= ls[idx].0);
                    }
                }
            }
        } else {
            lemma_consume_step(o, ls, orders, from_front, limit);
            let fill_price = match limit {
                None => lvl.0,
                Some(p) => p,
            };
            let (om, qm, ordersm) = fill_queue_model(o, fill_price, lvl.1, orders);
            assert forall|id: u32|
                levels_contain_id(ls, id) implies #[trigger] orders.contains_key(id) by {
                let i = choose|i: int| 0 <= i < ls.len() && (#[trigger] ls[i]).1.contains(id);
                let j = choose|j: int| 0 <= j < ls[i].1.len() && ls[i].1[j] == id;
                assert(resting_ok(orders, ls[i].1[j]));
            }
            if qm.len() == 0 {
                let lsm = ls.remove(idx);
                lemma_consume_levels_model(om, lsm, ordersm, from_front, limit);
                // entries of the shorter side sit in the original side
                assert forall|price: u64, id: u32|
                    #[trigger] level_entry(lsm, price, id) implies level_entry(ls, price, id) by {
                    let i = choose|i: int|
                        0 <= i < lsm.len() && (#[trigger] lsm[i]).0 == price && lsm[i].1.contains(
                            id,
                        );
                    let iorig: int = if i < idx {
                        i
                    } else {
                        i + 1
                    };
                    assert(ls[iorig] == lsm[i]);
                }
                assert forall|id: u32|
                    #[trigger] levels_contain_id(lsm, id) implies levels_contain_id(ls, id) by {
                    let i = choose|i: int| 0 <= i < lsm.len() && (#[trigger] lsm[i]).1.contains(id);
                    let iorig: int = if i < idx {
                        i
                    } else {
                        i + 1
                    };
                    assert(ls[iorig] == lsm[i]);
                }
                // an id on the consumed level is on no other level
                assert forall|id: u32| #[trigger] lvl.1.contains(id) implies !levels_contain_id(
                    lsm,
                    id,
                ) && orders2[id] == ordersm[id] && ordersm[id].remaining_quantity == 0 by {
                    assert forall|i: int| 0 <= i < lsm.len() implies !(#[trigger] lsm[i]).1.contains(
                        id,
                    ) by {
                        let iorig: int = if i < idx {
                            i
                        } else {
                            i + 1
                        };
                        assert(ls[iorig] == lsm[i]);
                        lemma_level_ids_disjoint(orders, ls, idx, iorig, id);
                    }
                }
                // frame for ids outside the original side
                assert forall|id: u32|
                    !levels_contain_id(ls, id) && orders.contains_key(id) implies orders2[id]
                    == orders[id] by {
                    assert(!lvl.1.contains(id)) by {
                        if lvl.1.contains(id) {
                            assert(ls[idx].1.contains(id));
                        }
                    }
                    assert(ordersm[id] == orders[id]);
                    assert(!levels_contain_id(lsm, id));
                }
                // touched ids compose through the two stages
                assert forall|id: u32| #[trigger] levels_contain_id(ls, id) implies {
                    &&& orders2.contains_key(id)
                    &&& same_order_core(orders2[id], orders[id])
                    &&& orders2[id].remaining_quantity <= orders[id].remaining_quantity
                    &&& orders2[id].wf()
                } by {
                    let i = choose|i: int| 0 <= i < ls.len() && (#[trigger] ls[i]).1.contains(id);
                    if i == idx {
                        assert(lvl.1.contains(id));
                    } else {
                        lemma_level_ids_disjoint(orders, ls, i, idx, id);
                        assert(ordersm[id] == orders[id]);
                        let ish: int = if i < idx {
                            i
                        } else {
                            i - 1
                        };
                        assert(lsm[ish] == ls[i]);
                        assert(levels_contain_id(lsm, id));
                        assert(orders.contains_key(id)) by {
                            let j = choose|j: int| 0 <= j < ls[i].1.len() && ls[i].1[j] == id;
                            assert(resting_ok(orders, ls[i].1[j]));
                        }
                    }
                }
                // entries that survive were already entries before
                assert forall|price: u64, id: u32| #[trigger] level_entry(ls2, price, id) implies
                    level_entry(ls, price, id) by {
                    assert(level_entry(lsm, price, id));
                }
                // a resting order with a remainder is still at its price
                assert forall|price: u64, id: u32|
                    #[trigger] level_entry(ls, price, id) && orders2[id].remaining_quantity > 0
                    implies level_entry(ls2, price, id) by {
                    let i = choose|i: int|
                        0 <= i < ls.len() && (#[trigger] ls[i]).0 == price && ls[i].1.contains(id);
                    if i == idx {
                        assert(lvl.1.contains(id));
                        assert(false);
                    } else {
                        let ish: int = if i < idx {
                            i
                        } else {
                            i - 1
                        };
                        assert(lsm[ish] == ls[i]);
                        assert(level_entry(lsm, price, id));
                        lemma_level_ids_disjoint(orders, ls, i, idx, id);
                        assert(ordersm[id] == orders[id]);
                    }
                }
            } else {
                // terminal: the incoming order was exhausted on this level
                let lsu = ls.update(idx, (lvl.0, qm));
                assert(ls2 =~= lsu);
                lemma_fill_queue_model(o, fill_price, lvl.1, orders);
                let k = choose|k: int| 0 <= k <= lvl.1.len() && qm =~= lvl.1.skip(k);
                assert forall|id2: u32| #[trigger] qm.contains(id2) implies lvl.1.contains(
                    id2,
                ) by {
                    let j = choose|j: int| 0 <= j < qm.len() && qm[j] == id2;
                    assert(lvl.1[j + k] == id2);
                }
                assert forall|price: u64, id: u32| #[trigger] level_entry(ls2, price, id) implies
                    level_entry(ls, price, id) by {
                    let i = choose|i: int|
                        0 <= i < ls2.len() && (#[trigger] ls2[i]).0 == price && ls2[i].1.contains(
                            id,
                        );
                    if i == idx {
                        assert(ls2[idx].1 == qm);
                        assert(qm.contains(id));
                        assert(lvl.1.contains(id));
                        assert(ls[idx].0 == price && ls[idx].1.contains(id));
                    } else {
                        assert(ls[i] == ls2[i]);
                    }
                }
                assert forall|id: u32|
                    !levels_contain_id(ls, id) && orders.contains_key(id) implies orders2[id]
                    == orders[id] by {
                    assert(!lvl.1.contains(id)) by {
                        if lvl.1.contains(id) {
                            assert(ls[idx].1.contains(id));
                        }
                    }
                }
                assert forall|id: u32| #[trigger] levels_contain_id(ls, id) implies {
                    &&& orders2.contains_key(id)
                    &&& same_order_core(orders2[id], orders[id])
                    &&& orders2[id].remaining_quantity <= orders[id].remaining_quantity
                    &&& orders2[id].wf()
                } by {
                    let i = choose|i: int| 0 <= i < ls.len() && (#[trigger] ls[i]).1.contains(id);
                    assert(orders.contains_key(id)) by {
                        let j = choose|j: int| 0 <= j < ls[i].1.len() && ls[i].1[j] == id;
                        assert(resting_ok(orders, ls[i].1[j]));
                    }
                    if i == idx {
                        assert(lvl.1.contains(id));
                    } else {
                        lemma_level_ids_disjoint(orders, ls, i, idx, id);
                        assert(!lvl.1.contains(id));
                        assert(orders2[id] == orders[id]);
                    }
                }
                assert forall|price: u64, id: u32|
                    #[trigger] level_entry(ls, price, id) && orders2[id].remaining_quantity > 0
                    implies level_entry(ls2, price, id) by {
                    let i = choose|i: int|
                        0 <= i < ls.len() && (#[trigger] ls[i]).0 == price && ls[i].1.contains(id);
                    if i == idx {
                        assert(lvl.1.contains(id));
                        assert(qm.contains(id));
                        assert(ls2[idx].0 == price && ls2[idx].1.contains(id));
                    } else {
                        assert(ls2[i] == ls[i]);
                    }
                }
            }
        }
    }
}

impl OrderBook {
    /// Matches the incoming order against one FIFO queue of resting orders,
    /// filling at `price`; resting orders it exhausts leave the queue.
    /// Returns whether the incoming order is now fully filled.
    fn fill_on_opposite_orders_lst(
        order: &mut Order,
        price: u64,
        opposite_order_lst: &mut Vec<u32>,
        orders: &mut HashMap<u32, Order>,
    ) -> (fully: bool)
        requires
            old(order).wf(),
            price <= PRICE_MAX,
            no_dup(old(opposite_order_lst)@),
            queue_wf(old(orders)@, old(opposite_order_lst)@),
            !old(orders)@.contains_key(old(order).id),
        ensures
            (*final(order), final(opposite_order_lst)@, final(orders)@) == fill_queue_model(
                *old(order),
                price,
                old(opposite_order_lst)@,
                old(orders)@,
            ),
            fully == (final(order).remaining_quantity == 0),
    {
        while opposite_order_lst.len() > 0 && order.remaining_quantity > 0
            invariant
                order.wf(),
                price <= PRICE_MAX,
                no_dup(opposite_order_lst@),
                queue_wf(orders@, opposite_order_lst@),
                !orders@.contains_key(order.id),
                fill_queue_model(*order, price, opposite_order_lst@, orders@) == fill_queue_model(
                    *old(order),
                    price,
                    old(opposite_order_lst)@,
                    old(orders)@,
                ),
            decreases opposite_order_lst@.len() + order.remaining_quantity,
        {
            let ghost pre_o = *order;
            let ghost pre_q = opposite_order_lst@;
            let ghost pre_m = orders@;
            let id = opposite_order_lst[0];
            let mut resting = orders.remove(&id).unwrap();
            let fill = if order.remaining_quantity <= resting.remaining_quantity {
                order.remaining_quantity
            } else {
                resting.remaining_quantity
            };
            proof {
                lemma_fill_keeps_wf(resting, fill, price);
                lemma_fill_keeps_wf(*order, fill, price);
            }
            resting.fill_shares(fill, price);
            order.fill_shares(fill, price);
            let fully_resting = resting.is_fully_filled();
            let ghost resting2 = resting;
            orders.insert(id, resting);
            proof {
                assert(orders@ =~= pre_m.insert(id, resting2));
            }
            if fully_resting {
                let _ = opposite_order_lst.remove(0);
                proof {
                    assert(opposite_order_lst@ =~= pre_q.drop_first());
                }
            }
            proof {
                assert(fill_queue_model(pre_o, price, pre_q, pre_m) == fill_queue_model(
                    *order,
                    price,
                    opposite_order_lst@,
                    orders@,
                ));
            }
        }
        order.is_fully_filled()
    }

    /// Whether the best level on this side may still be consumed.
    fn level_eligible(levels: &Vec<PriceLevel>, from_front: bool, limit: Option<u64>) -> (r: bool)
        requires
            levels@.len() > 0,
        ensures
            r == price_eligible(
                limit,
                from_front,
                levels_view(levels@)[next_level_index(levels_view(levels@), from_front)].0,
            ),
    {
        let idx: usize = if from_front {
            0
        } else {
            levels.len() - 1
        };
        match limit {
            None => true,
            Some(p) => if from_front {
                levels[idx].price <= p
            } else {
                levels[idx].price >= p
            },
        }
    }

    /// Consumes one side's levels best-price-first against the incoming
    /// order, pruning each level it empties, until the order is exhausted,
    /// the side is empty, or the best level is no longer price-eligible.
    fn consume_levels(
        order: &mut Order,
        levels: &mut Vec<PriceLevel>,
        orders: &mut HashMap<u32, Order>,
        from_front: bool,
        limit: Option<u64>,
    ) -> (fully: bool)
        requires
            old(order).wf(),
            levels_wf(old(orders)@, levels_view(old(levels)@)),
            !old(orders)@.contains_key(old(order).id),
            limit matches Some(p) ==> p <= PRICE_MAX,
        ensures
            (*final(order), levels_view(final(levels)@), final(orders)@) == consume_levels_model(
                *old(order),
                levels_view(old(levels)@),
                old(orders)@,
                from_front,
                limit,
            ),
            fully == (final(order).remaining_quantity == 0),
    {
        while levels.len() > 0 && order.remaining_quantity > 0 && Self::level_eligible(
            levels,
            from_front,
            limit,
        )
            invariant
                order.wf(),
                levels_wf(orders@, levels_view(levels@)),
                !orders@.contains_key(order.id),
                limit matches Some(p) ==> p <= PRICE_MAX,
                consume_levels_model(*order, levels_view(levels@), orders@, from_front, limit)
                    == consume_levels_model(
                    *old(order),
                    levels_view(old(levels)@),
                    old(orders)@,
                    from_front,
                    limit,
                ),
            decreases levels@.len(), order.remaining_quantity,
        {
            let ghost pre_o = *order;
            let ghost pre_ls = levels_view(levels@);
            let ghost pre_m = orders@;
            let ghost idx = next_level_index(pre_ls, from_front);
            proof {
                lemma_consume_step(pre_o, pre_ls, pre_m, from_front, limit);
            }
            let mut lvl = if from_front {
                levels.remove(0)
            } else {
                levels.pop().unwrap()
            };
            let ghost pre_lvl = lvl@;
            proof {
                assert(pre_lvl == pre_ls[idx]);
                assert(levels_view(levels@) =~= pre_ls.remove(idx));
            }
            let fill_price = match limit {
                None => lvl.price,
                Some(p) => p,
            };
            let _ = Self::fill_on_opposite_orders_lst(order, fill_price, &mut lvl.queue, orders);
            let ghost step = fill_queue_model(pre_o, fill_price, pre_lvl.1, pre_m);
            proof {
                assert((*order, lvl.queue@, orders@) == step);
            }
            if lvl.queue.len() > 0 {
                if from_front {
                    levels.insert(0, lvl);
                } else {
                    levels.push(lvl);
                }
                proof {
                    assert(levels_view(levels@) =~= pre_ls.update(idx, (pre_lvl.0, step.1)));
                    assert(consume_levels_model(pre_o, pre_ls, pre_m, from_front, limit) == (
                        *order,
                        levels_view(levels@),
                        orders@,
                    ));
                    assert(order.remaining_quantity == 0);
                }
            } else {
                proof {
                    assert(consume_levels_model(pre_o, pre_ls, pre_m, from_front, limit)
                        == consume_levels_model(
                        *order,
                        levels_view(levels@),
                        orders@,
                        from_front,
                        limit,
                    ));
                }
            }
        }
        order.is_fully_filled()
    }

    /// Rests an unfilled limit order at the back of its price level's queue,
    /// creating the level in price order if it is absent.
    fn list_limit_order(order: &Order, price_per_share: u64, limit_orders: &mut Vec<PriceLevel>)
        ensures
            levels_view(final(limit_orders)@) == list_model(
                levels_view(old(limit_orders)@),
                price_per_share,
                order.id,
            ),
    {
        let ghost pre = levels_view(old(limit_orders)@);
        proof {
            assert(pre.skip(0) =~= pre);
            assert(pre.take(0int) + list_model(pre.skip(0), price_per_share, order.id)
                =~= list_model(pre, price_per_share, order.id));
        }
        let mut i: usize = 0;
        while i < limit_orders.len() && limit_orders[i].price < price_per_share
            invariant
                0 <= i <= limit_orders@.len(),
                limit_orders@ == old(limit_orders)@,
                pre == levels_view(old(limit_orders)@),
                list_model(pre, price_per_share, order.id) == pre.take(i as int) + list_model(
                    pre.skip(i as int),
                    price_per_share,
                    order.id,
                ),
            decreases limit_orders@.len() - i,
        {
            proof {
                let k = i as int;
                assert(k < pre.len());
                assert(pre.skip(k).len() == pre.len() - k);
                assert(pre.skip(k)[0] == pre[k]);
                assert(pre.skip(k).drop_first() =~= pre.skip(k + 1));
                assert(pre.take(k) + (seq![pre[k]] + list_model(
                    pre.skip(k + 1),
                    price_per_share,
                    order.id,
                )) =~= pre.take(k + 1) + list_model(pre.skip(k + 1), price_per_share, order.id));
            }
            i = i + 1;
        }
        let ghost k = i as int;
        if i < limit_orders.len() && limit_orders[i].price == price_per_share {
            let mut lvl = limit_orders.remove(i);
            lvl.queue.push(order.id);
            limit_orders.insert(i, lvl);
            proof {
                assert(pre.skip(k)[0] == pre[k]);
                assert(levels_view(limit_orders@) =~= pre.update(
                    k,
                    (price_per_share, pre[k].1.push(order.id)),
                ));
                assert(pre.take(k) + pre.skip(k).update(
                    0,
                    (price_per_share, pre.skip(k)[0].1.push(order.id)),
                ) =~= pre.update(k, (price_per_share, pre[k].1.push(order.id))));
            }
        } else {
            let mut queue: Vec<u32> = Vec::new();
            queue.push(order.id);
            let ghost qv = queue@;
            limit_orders.insert(i, PriceLevel { price: price_per_share, queue });
            proof {
                assert(qv =~= seq![order.id]);
                if k == pre.len() {
                    assert(pre.skip(k).len() == 0);
                    assert(levels_view(limit_orders@) =~= pre.take(k) + seq![
                        (price_per_share, seq![order.id]),
                    ]);
                } else {
                    assert(pre.skip(k)[0] == pre[k]);
                    assert(pre[k].0 > price_per_share);
                    assert(levels_view(limit_orders@) =~= pre.take(k) + (seq![
                        (price_per_share, seq![order.id]),
                    ] + pre.skip(k)));
                }
            }
        }
    }

    /// Accepts a stop order: it rests unactivated and is reported waiting.
    pub fn stop_order(&mut self, order: &mut Order, price: u64) -> (r: OrderStatus)
        ensures
            *final(self) == *old(self),
            *final(order) == *old(order),
            r == OrderStatus::Waiting(old(order).id),
    {
        let _ = price;
        OrderStatus::Waiting(order.id)
    }

    /// Matches an incoming limit order: first the opposite side's resting
    /// market orders at the incoming price, then the opposite levels within
    /// its price, best first; any remainder rests on its own side.
    pub fn limit_order(&mut self, order: &mut Order, price: u64) -> (r: OrderStatus)
        requires
            old(self)@.wf(),
            old(order).wf(),
            price <= PRICE_MAX,
            !old(self)@.orders.contains_key(old(order).id),
        ensures
            ({
                let bv = old(self)@;
                let buy = old(order).side == OrderSide::Buy;
                let mq = if buy {
                    bv.market_asks
                } else {
                    bv.market_bids
                };
                let opp = if buy {
                    bv.asks
                } else {
                    bv.bids
                };
                let same = if buy {
                    bv.bids
                } else {
                    bv.asks
                };
                let (o1, mq1, orders1) = fill_queue_model(*old(order), price, mq, bv.orders);
                let (o2, opp2, orders2) = consume_levels_model(o1, opp, orders1, buy, Some(price));
                let same2 = if o2.remaining_quantity > 0 {
                    list_model(same, price, old(order).id)
                } else {
                    same
                };
                &&& *final(order) == o2
                &&& final(self)@.orders == orders2
                &&& (if buy {
                    final(self)@.asks == opp2 && final(self)@.bids == same2 && final(self)@.market_asks == mq1 && final(self)@.market_bids == bv.market_bids
                } else {
                    final(self)@.bids == opp2 && final(self)@.asks == same2 && final(self)@.market_bids == mq1 && final(self)@.market_asks == bv.market_asks
                })
                &&& r == o2.spec_status()
            }),
            final(order).id == old(order).id,
            final(self).spec_symbol() == old(self).spec_symbol(),
    {
        proof {
            let bv = self@;
            assert(levels_wf(bv.orders, bv.asks));
            assert(levels_wf(bv.orders, bv.bids));
        }
        match order.side {
            OrderSide::Buy => {
                Self::limit_order_generic(
                    order,
                    price,
                    &mut self.bids,
                    &mut self.asks,
                    &mut self.market_asks,
                    &mut self.orders,
                    true,
                )
            },
            OrderSide::Sell => {
                Self::limit_order_generic(
                    order,
                    price,
                    &mut self.asks,
                    &mut self.bids,
                    &mut self.market_bids,
                    &mut self.orders,
                    false,
                )
            },
        }
    }

    /// Matches an incoming market order against the opposite side's levels,
    /// best price first, at each level's own price; any remainder rests in
    /// its own side's market queue.
    pub fn market_order(&mut self, order: &mut Order) -> (r: OrderStatus)
        requires
            old(self)@.wf(),
            old(order).wf(),
            !old(self)@.orders.contains_key(old(order).id),
        ensures
            ({
                let bv = old(self)@;
                let buy = old(order).side == OrderSide::Buy;
                let opp = if buy {
                    bv.asks
                } else {
                    bv.bids
                };
                let (o2, opp2, orders2) = consume_levels_model(
                    *old(order),
                    opp,
                    bv.orders,
                    buy,
                    None,
                );
                let rest = o2.remaining_quantity > 0;
                &&& *final(order) == o2
                &&& final(self)@.orders == orders2
                &&& (if buy {
                    final(self)@.asks == opp2 && final(self)@.bids == bv.bids && final(self)@.market_bids == (if rest {
                        bv.market_bids.push(old(order).id)
                    } else {
                        bv.market_bids
                    }) && final(self)@.market_asks == bv.market_asks
                } else {
                    final(self)@.bids == opp2 && final(self)@.asks == bv.asks && final(self)@.market_asks == (if rest {
                        bv.market_asks.push(old(order).id)
                    } else {
                        bv.market_asks
                    }) && final(self)@.market_bids == bv.market_bids
                })
                &&& r == o2.spec_status()
            }),
            final(order).id == old(order).id,
            final(self).spec_symbol() == old(self).spec_symbol(),
    {
        proof {
            let bv = self@;
            assert(levels_wf(bv.orders, bv.asks));
            assert(levels_wf(bv.orders, bv.bids));
        }
        match order.side {
            OrderSide::Buy => {
                Self::market_order_generic(
                    order,
                    &mut self.asks,
                    &mut self.market_bids,
                    &mut self.orders,
                    true,
                )
            },
            OrderSide::Sell => {
                Self::market_order_generic(
                    order,
                    &mut self.bids,
                    &mut self.market_asks,
                    &mut self.orders,
                    false,
                )
            },
        }
    }

    fn limit_order_generic(
        order: &mut Order,
        price_per_share: u64,
        same_side_limit_orders: &mut Vec<PriceLevel>,
        opposite_limit_orders: &mut Vec<PriceLevel>,
        market_orders: &mut Vec<u32>,
        orders: &mut HashMap<u32, Order>,
        from_front: bool,
    ) -> (r: OrderStatus)
        requires
            old(order).wf(),
            price_per_share <= PRICE_MAX,
            no_dup(old(market_orders)@),
            queue_wf(old(orders)@, old(market_orders)@),
            forall|j: int|
                0 <= j < old(market_orders)@.len() ==> old(orders)@[#[trigger] old(
                    market_orders,
                )@[j]].order_type == OrderType::Market,
            levels_wf(old(orders)@, levels_view(old(opposite_limit_orders)@)),
            !old(orders)@.contains_key(old(order).id),
        ensures
            ({
                let (o1, mq1, orders1) = fill_queue_model(
                    *old(order),
                    price_per_share,
                    old(market_orders)@,
                    old(orders)@,
                );
                let (o2, opp2, orders2) = consume_levels_model(
                    o1,
                    levels_view(old(opposite_limit_orders)@),
                    orders1,
                    from_front,
                    Some(price_per_share),
                );
                &&& *final(order) == o2
                &&& final(market_orders)@ == mq1
                &&& levels_view(final(opposite_limit_orders)@) == opp2
                &&& final(orders)@ == orders2
                &&& levels_view(final(same_side_limit_orders)@) == (if o2.remaining_quantity > 0 {
                    list_model(
                        levels_view(old(same_side_limit_orders)@),
                        price_per_share,
                        old(order).id,
                    )
                } else {
                    levels_view(old(same_side_limit_orders)@)
                })
                &&& r == o2.spec_status()
            }),
            final(order).id == old(order).id,
    {
        let ghost pre_o = *order;
        let ghost pre_mq = market_orders@;
        let ghost pre_m = orders@;
        let ghost pre_opp = levels_view(opposite_limit_orders@);
        // resting market orders trade first, at the incoming limit price
        let _ = Self::fill_on_opposite_orders_lst(order, price_per_share, market_orders, orders);
        proof {
            lemma_fill_queue_model(pre_o, price_per_share, pre_mq, pre_m);
            // limit levels reference no market order, so they are untouched
            assert(levels_wf(orders@, pre_opp)) by {
                assert forall|i: int, j: int|
                    0 <= i < pre_opp.len() && 0 <= j < pre_opp[i].1.len() implies resting_ok(
                    orders@,
                    #[trigger] pre_opp[i].1[j],
                ) && orders@[pre_opp[i].1[j]].order_type == OrderType::Limit(pre_opp[i].0) by {
                    let id = pre_opp[i].1[j];
                    assert(resting_ok(pre_m, id));
                    assert(!pre_mq.contains(id)) by {
                        if pre_mq.contains(id) {
                            let jj = choose|jj: int| 0 <= jj < pre_mq.len() && pre_mq[jj] == id;
                            assert(pre_m[pre_mq[jj]].order_type == OrderType::Market);
                        }
                    }
                    assert(orders@[id] == pre_m[id]);
                }
            }
        }
        let _ = Self::consume_levels(
            order,
            opposite_limit_orders,
            orders,
            from_front,
            Some(price_per_share),
        );
        proof {
            let (o1, mq1, orders1) = fill_queue_model(pre_o, price_per_share, pre_mq, pre_m);
            lemma_consume_levels_model(o1, pre_opp, orders1, from_front, Some(price_per_share));
        }
        if order.remaining_quantity > 0 {
            Self::list_limit_order(order, price_per_share, same_side_limit_orders);
        }
        order.get_status_based_on_fill()
    }

    fn market_order_generic(
        order: &mut Order,
        opposite_limit_orders: &mut Vec<PriceLevel>,
        market_orders: &mut Vec<u32>,
        orders: &mut HashMap<u32, Order>,
        from_front: bool,
    ) -> (r: OrderStatus)
        requires
            old(order).wf(),
            levels_wf(old(orders)@, levels_view(old(opposite_limit_orders)@)),
            !old(orders)@.contains_key(old(order).id),
        ensures
            ({
                let (o2, opp2, orders2) = consume_levels_model(
                    *old(order),
                    levels_view(old(opposite_limit_orders)@),
                    old(orders)@,
                    from_front,
                    None,
                );
                &&& *final(order) == o2
                &&& levels_view(final(opposite_limit_orders)@) == opp2
                &&& final(orders)@ == orders2
                &&& final(market_orders)@ == (if o2.remaining_quantity > 0 {
                    old(market_orders)@.push(old(order).id)
                } else {
                    old(market_orders)@
                })
                &&& r == o2.spec_status()
            }),
            final(order).id == old(order).id,
    {
        let ghost pre_o = *order;
        let ghost pre_opp = levels_view(opposite_limit_orders@);
        let ghost pre_m = orders@;
        let fully = Self::consume_levels(order, opposite_limit_orders, orders, from_front, None);
        proof {
            lemma_consume_levels_model(pre_o, pre_opp, pre_m, from_front, None);
        }
        if !fully {
            market_orders.push(order.id);
        }
        order.get_status_based_on_fill()
    }

    /// Sums the remaining quantity across one queue, clamping at `u64::MAX`.
    fn queue_rem_size(orders: &HashMap<u32, Order>, queue: &Vec<u32>) -> (r: u64)
        requires
            queue_wf(orders@, queue@),
        ensures
            r == sat_u64(queue_rem_sum(orders@, queue@)),
    {
        let mut total: u64 = 0;
        let mut j: usize = 0;
        while j < queue.len()
            invariant
                0 <= j <= queue@.len(),
                queue_wf(orders@, queue@),
                total == sat_u64(queue_rem_sum(orders@, queue@.take(j as int))),
            decreases queue@.len() - j,
        {
            let id = queue[j];
            let rem = orders.get(&id).unwrap().remaining_quantity;
            proof {
                lemma_queue_rem_sum_take(orders@, queue@, j as int);
                lemma_queue_rem_sum_nonneg(orders@, queue@.take(j as int));
            }
            total = total.saturating_add(rem);
            j = j + 1;
        }
        proof {
            assert(queue@.take(queue@.len() as int) =~= queue@);
        }
        total
    }

    /// The best bid price with its aggregate resting size, and the best ask
    /// price with its aggregate resting size; zeroes where a side is empty.
    pub fn get_top_level(&self) -> (r: (u64, u64, u64, u64))
        requires
            self@.wf(),
        ensures
            r == top_of_book(self@),
    {
        let (best_bid, best_bid_size): (u64, u64) = if self.bids.len() > 0 {
            let lvl = &self.bids[self.bids.len() - 1];
            proof {
                assert(levels_view(self.bids@).last() == lvl@);
                assert(queue_wf(self.orders@, lvl.queue@)) by {
                    assert forall|k: int| 0 <= k < lvl.queue@.len() implies resting_ok(
                        self.orders@,
                        #[trigger] lvl.queue@[k],
                    ) by {
                        let bv = self@;
                        assert(resting_ok(bv.orders, bv.bids[bv.bids.len() - 1].1[k]));
                    }
                }
            }
            (lvl.price, Self::queue_rem_size(&self.orders, &lvl.queue))
        } else {
            (0, 0)
        };
        let (best_ask, best_ask_size): (u64, u64) = if self.asks.len() > 0 {
            let lvl = &self.asks[0];
            proof {
                assert(levels_view(self.asks@).first() == lvl@);
                assert(queue_wf(self.orders@, lvl.queue@)) by {
                    assert forall|k: int| 0 <= k < lvl.queue@.len() implies resting_ok(
                        self.orders@,
                        #[trigger] lvl.queue@[k],
                    ) by {
                        let bv = self@;
                        assert(resting_ok(bv.orders, bv.asks[0].1[k]));
                    }
                }
            }
            (lvl.price, Self::queue_rem_size(&self.orders, &lvl.queue))
        } else {
            (0, 0)
        };
        (best_bid, best_bid_size, best_ask, best_ask_size)
    }

    /// Drops every level whose queue has emptied, keeping the rest in order.
    fn delete_empty_price_levels_generic(map: &mut Vec<PriceLevel>)
        ensures
            levels_view(final(map)@) == prune_levels(levels_view(old(map)@)),
    {
        let ghost pre = levels_view(old(map)@);
        let mut i: usize = 0;
        let ghost mut k: int = 0;
        proof {
            assert(pre.take(0).len() == 0);
            assert(levels_view(map@) =~= prune_levels(pre.take(0)) + pre.skip(0));
        }
        while i < map.len()
            invariant
                0 <= k <= pre.len(),
                i as int == prune_levels(pre.take(k)).len(),
                levels_view(map@) == prune_levels(pre.take(k)) + pre.skip(k),
                pre == levels_view(old(map)@),
            decreases pre.len() - k,
        {
            proof {
                assert(k < pre.len()) by {
                    if k == pre.len() {
                        assert(pre.skip(k).len() == 0);
                    }
                }
                assert(levels_view(map@)[i as int] == pre[k]) by {
                    assert(pre.skip(k)[0] == pre[k]);
                }
                lemma_prune_take(pre, k);
            }
            let ghost iter_view = levels_view(map@);
            if map[i].queue.len() == 0 {
                let _ = map.remove(i);
                proof {
                    assert(pre[k].1.len() == 0);
                    assert(prune_levels(pre.take(k + 1)) == prune_levels(pre.take(k)));
                    assert(levels_view(map@) =~= iter_view.remove(i as int));
                    assert(iter_view.remove(i as int) =~= prune_levels(pre.take(k + 1)) + pre.skip(
                        k + 1,
                    ));
                    k = k + 1;
                }
            } else {
                i = i + 1;
                proof {
                    assert(prune_levels(pre.take(k + 1)) =~= prune_levels(pre.take(k)) + seq![
                        pre[k],
                    ]);
                    assert(levels_view(map@) =~= prune_levels(pre.take(k + 1)) + pre.skip(k + 1));
                    k = k + 1;
                }
            }
        }
        proof {
            assert(pre.skip(k).len() == 0);
            assert(k == pre.len());
            assert(pre.take(k) =~= pre);
            assert(levels_view(map@) =~= prune_levels(pre));
        }
    }

    /// Prunes emptied levels on both sides.
    pub fn delete_empty_price_levels(&mut self)
        ensures
            final(self)@ == (BookView {
                bids: prune_levels(old(self)@.bids),
                asks: prune_levels(old(self)@.asks),
                ..old(self)@
            }),
            final(self).spec_symbol() == old(self).spec_symbol(),
            old(self)@.wf() ==> final(self)@ == old(self)@ && final(self)@.wf(),
    {
        proof {
            if self@.wf() {
                lemma_prune_nonempty(self@.bids);
                lemma_prune_nonempty(self@.asks);
            }
        }
        Self::delete_empty_price_levels_generic(&mut self.bids);
        Self::delete_empty_price_levels_generic(&mut self.asks);
    }

    /// Removes the bid level at this price if its queue has emptied.
    pub fn delete_bid_price_level(&mut self, price: u64)
        requires
            sorted_levels(old(self)@.bids),
            exists|i: int|
                0 <= i < old(self)@.bids.len() && (#[trigger] old(self)@.bids[i]).0 == price,
        ensures
            ({
                let i = level_index_of(old(self)@.bids, price);
                final(self)@ == (BookView {
                    bids: if old(self)@.bids[i].1.len() == 0 {
                        old(self)@.bids.remove(i)
                    } else {
                        old(self)@.bids
                    },
                    ..old(self)@
                })
            }),
            final(self).spec_symbol() == old(self).spec_symbol(),
    {
        Self::delete_price_level_generic(&mut self.bids, price);
    }

    /// Removes the ask level at this price if its queue has emptied.
    pub fn delete_ask_price_level(&mut self, price: u64)
        requires
            sorted_levels(old(self)@.asks),
            exists|i: int|
                0 <= i < old(self)@.asks.len() && (#[trigger] old(self)@.asks[i]).0 == price,
        ensures
            ({
                let i = level_index_of(old(self)@.asks, price);
                final(self)@ == (BookView {
                    asks: if old(self)@.asks[i].1.len() == 0 {
                        old(self)@.asks.remove(i)
                    } else {
                        old(self)@.asks
                    },
                    ..old(self)@
                })
            }),
            final(self).spec_symbol() == old(self).spec_symbol(),
    {
        Self::delete_price_level_generic(&mut self.asks, price);
    }

    /// Removes the level at this price if its queue has emptied.
    fn delete_price_level_generic(levels: &mut Vec<PriceLevel>, price: u64)
        requires
            sorted_levels(levels_view(old(levels)@)),
            exists|i: int|
                0 <= i < old(levels)@.len() && (#[trigger] levels_view(old(levels)@)[i]).0
                    == price,
        ensures
            ({
                let pre = levels_view(old(levels)@);
                let i = level_index_of(pre, price);
                levels_view(final(levels)@) == if pre[i].1.len() == 0 {
                    pre.remove(i)
                } else {
                    pre
                }
            }),
    {
        let ghost pre = levels_view(old(levels)@);
        let mut i: usize = 0;
        while i < levels.len() && levels[i].price != price
            invariant
                0 <= i <= levels@.len(),
                levels@ == old(levels)@,
                pre == levels_view(old(levels)@),
                exists|w: int| 0 <= w < pre.len() && (#[trigger] pre[w]).0 == price,
                forall|k: int| 0 <= k < i ==> pre[k].0 != price,
            decreases levels@.len() - i,
        {
            i = i + 1;
        }
        proof {
            assert(i < pre.len() && pre[i as int].0 == price) by {
                let w = choose|w: int| 0 <= w < pre.len() && (#[trigger] pre[w]).0 == price;
                if i == pre.len() {
                    assert(pre[w].0 != price);
                }
            }
            assert(level_index_of(pre, price) == i as int) by {
                let i0 = level_index_of(pre, price);
                assert(0 <= i0 < pre.len() && pre[i0].0 == price) by {
                    assert(pre[i as int].0 == price);
                }
                if i0 != i as int {
                    if i0 < i as int {
                        assert(pre[i0].0 < pre[i as int].0);
                    } else {
                        assert(pre[i as int].0 < pre[i0].0);
                    }
                }
            }
        }
        if levels[i].queue.len() == 0 {
            let _ = levels.remove(i);
            proof {
                assert(levels_view(levels@) =~= pre.remove(i as int));
            }
        }
    }

    /// Removes the single occurrence of an id from a FIFO queue.
    fn remove_id_from_queue(queue: &mut Vec<u32>, order_id: u32)
        requires
            old(queue)@.contains(order_id),
            no_dup(old(queue)@),
        ensures
            final(queue)@ == queue_without(old(queue)@, order_id),
    {
        let ghost pre = old(queue)@;
        let mut j: usize = 0;
        while j < queue.len() && queue[j] != order_id
            invariant
                0 <= j <= queue@.len(),
                queue@ == pre,
                pre.contains(order_id),
                forall|k: int| 0 <= k < j ==> pre[k] != order_id,
            decreases queue@.len() - j,
        {
            j = j + 1;
        }
        proof {
            assert(j < pre.len()) by {
                if j == pre.len() {
                    let w = choose|w: int| 0 <= w < pre.len() && pre[w] == order_id;
                    assert(pre[w] != order_id);
                }
            }
            assert(pre[j as int] == order_id);
            assert(pre.index_of(order_id) == j as int) by {
                let i0 = pre.index_of(order_id);
                assert(0 <= i0 < pre.len() && pre[i0] == order_id) by {
                    assert(0 <= j < pre.len() && pre[j as int] == order_id);
                }
            }
        }
        let _ = queue.remove(j);
    }

    /// Removes an id from the level at its price, pruning the level if that
    /// leaves it empty.
    fn remove_id_from_levels(levels: &mut Vec<PriceLevel>, price: u64, order_id: u32)
        requires
            sorted_levels(levels_view(old(levels)@)),
            levels_no_dup(levels_view(old(levels)@)),
            level_entry(levels_view(old(levels)@), price, order_id),
        ensures
            levels_view(final(levels)@) == remove_entry_from_levels(
                levels_view(old(levels)@),
                price,
                order_id,
            ),
    {
        let ghost pre = levels_view(old(levels)@);
        let mut i: usize = 0;
        while i < levels.len() && levels[i].price != price
            invariant
                0 <= i <= levels@.len(),
                levels@ == old(levels)@,
                pre == levels_view(old(levels)@),
                level_entry(pre, price, order_id),
                forall|k: int| 0 <= k < i ==> pre[k].0 != price,
            decreases levels@.len() - i,
        {
            i = i + 1;
        }
        proof {
            assert(i < pre.len() && pre[i as int].0 == price) by {
                let w = choose|w: int|
                    0 <= w < pre.len() && (#[trigger] pre[w]).0 == price && pre[w].1.contains(
                        order_id,
                    );
                if i == pre.len() {
                    assert(pre[w].0 != price);
                }
            }
            assert(level_index_of(pre, price) == i as int) by {
                let i0 = level_index_of(pre, price);
                assert(0 <= i0 < pre.len() && pre[i0].0 == price) by {
                    assert(pre[i as int].0 == price);
                }
                if i0 != i as int {
                    if i0 < i as int {
                        assert(pre[i0].0 < pre[i as int].0);
                    } else {
                        assert(pre[i as int].0 < pre[i0].0);
                    }
                }
            }
            assert(pre[i as int].1.contains(order_id)) by {
                let w = choose|w: int|
                    0 <= w < pre.len() && (#[trigger] pre[w]).0 == price && pre[w].1.contains(
                        order_id,
                    );
                if w != i as int {
                    if w < i as int {
                        assert(pre[w].0 < pre[i as int].0);
                    } else {
                        assert(pre[i as int].0 < pre[w].0);
                    }
                }
            }
        }
        let mut lvl = levels.remove(i);
        Self::remove_id_from_queue(&mut lvl.queue, order_id);
        if lvl.queue.len() > 0 {
            levels.insert(i, lvl);
            proof {
                assert(levels_view(levels@) =~= pre.update(
                    i as int,
                    (price, queue_without(pre[i as int].1, order_id)),
                ));
            }
        } else {
            proof {
                assert(levels_view(levels@) =~= pre.remove(i as int));
            }
        }
    }

    /// Unlinks an order from whichever queue holds it, reading its kind and
    /// side from the index; a stop order rests in no queue.
    fn remove_order(&mut self, order_id: u32)
        requires
            old(self)@.orders.contains_key(order_id),
            sorted_levels(old(self)@.bids),
            sorted_levels(old(self)@.asks),
            levels_no_dup(old(self)@.bids),
            levels_no_dup(old(self)@.asks),
            no_dup(old(self)@.market_bids),
            no_dup(old(self)@.market_asks),
            ({
                let o = old(self)@.orders[order_id];
                match o.order_type {
                    OrderType::Limit(p) => if o.side == OrderSide::Buy {
                        level_entry(old(self)@.bids, p, order_id)
                    } else {
                        level_entry(old(self)@.asks, p, order_id)
                    },
                    OrderType::Market => if o.side == OrderSide::Buy {
                        old(self)@.market_bids.contains(order_id)
                    } else {
                        old(self)@.market_asks.contains(order_id)
                    },
                    OrderType::Stop(_) => true,
                }
            }),
        ensures
            final(self)@ == remove_order_model(old(self)@, order_id),
            final(self).spec_symbol() == old(self).spec_symbol(),
    {
        let (order_type, side): (OrderType, OrderSide) = {
            let order = self.orders.get(&order_id).unwrap();
            (order.order_type, order.side)
        };
        match order_type {
            OrderType::Limit(price) => {
                match side {
                    OrderSide::Buy => {
                        Self::remove_id_from_levels(&mut self.bids, price, order_id);
                    },
                    OrderSide::Sell => {
                        Self::remove_id_from_levels(&mut self.asks, price, order_id);
                    },
                }
            },
            OrderType::Market => {
                match side {
                    OrderSide::Buy => {
                        Self::remove_id_from_queue(&mut self.market_bids, order_id);
                    },
                    OrderSide::Sell => {
                        Self::remove_id_from_queue(&mut self.market_asks, order_id);
                    },
                }
            },
            OrderType::Stop(_) => {},
        }
    }

    /// Cancels an order: idempotent on already-canceled or fully-filled
    /// orders, which keep reporting their terminal status; an active order is
    /// marked canceled and unlinked from its queue, pruning an emptied level.
    pub fn cancel(&mut self, order_id: u32) -> (r: Result<OrderStatus, InvalidOrderId>)
        requires
            old(self)@.wf(),
        ensures
            final(self)@ == cancel_model(old(self)@, order_id).0,
            r == cancel_model(old(self)@, order_id).1,
            final(self)@.wf(),
            final(self).spec_symbol() == old(self).spec_symbol(),
    {
        let ghost bv = self@;
        let mut present = false;
        let mut terminal = false;
        match self.orders.get(&order_id) {
            None => {},
            Some(order) => {
                present = true;
                terminal = order.is_canceled || order.remaining_quantity == 0;
            },
        }
        if !present {
            return Err(InvalidOrderId);
        }
        if terminal {
            return self.status(order_id);
        }
        let mut order = self.orders.remove(&order_id).unwrap();
        order.is_canceled = true;
        self.orders.insert(order_id, order);
        proof {
            assert(self.orders@ =~= bv.orders.insert(
                order_id,
                Order { is_canceled: true, ..bv.orders[order_id] },
            ));
        }
        self.remove_order(order_id);
        proof {
            lemma_cancel_model_wf(bv, order_id);
            assert(self@ == cancel_model(bv, order_id).0);
        }
        Ok(OrderStatus::Canceled(order_id))
    }

    /// Accepts a fresh order: dispatches on its kind to the matching logic,
    /// stores its final fill state in the order index, and returns its status.
    pub fn order(&mut self, old_order: Order) -> (r: OrderStatus)
        requires
            old(self)@.wf(),
            old_order.wf(),
            old_order.is_fresh(),
            !old(self)@.orders.contains_key(old_order.id),
        ensures
            final(self)@ == book_order_model(old(self)@, old_order).0,
            r == book_order_model(old(self)@, old_order).1,
            final(self)@.wf(),
            final(self).spec_symbol() == old(self).spec_symbol(),
    {
        let ghost bv = self@;
        let mut order = old_order;
        let order_status = match order.order_type {
            OrderType::Market => self.market_order(&mut order),
            OrderType::Limit(price) => self.limit_order(&mut order, price),
            OrderType::Stop(price) => self.stop_order(&mut order, price),
        };
        self.orders.insert(order.id, order);
        proof {
            lemma_book_order_model_wf(bv, old_order);
            assert(self@ == book_order_model(bv, old_order).0);
        }
        order_status
    }
}

/// Functional model of resting a limit order: walk past the levels priced
/// below it, then join the back of its price's queue, creating the level in
/// price order if it is absent.
pub open spec fn list_model(ls: Seq<(u64, Seq<u32>)>, price: u64, id: u32) -> Seq<(u64, Seq<u32>)>
    decreases ls.len(),
{
    if ls.len() == 0 {
        seq![(price, seq![id])]
    } else if ls[0].0 < price {
        seq![ls[0]] + list_model(ls.drop_first(), price, id)
    } else if ls[0].0 == price {
        ls.update(0, (price, ls[0].1.push(id)))
    } else {
        seq![(price, seq![id])] + ls
    }
}

/// Resting an id keeps the side sorted, pruned and duplicate-free, and its
/// entries are exactly the old entries plus the new id at its price, at the
/// back of that queue.
pub proof fn lemma_list_model(ls: Seq<(u64, Seq<u32>)>, price: u64, id: u32)
    requires
        sorted_levels(ls),
        levels_nonempty(ls),
        levels_no_dup(ls),
        !levels_contain_id(ls, id),
    ensures
        ({
            let ls2 = list_model(ls, price, id);
            &&& sorted_levels(ls2)
            &&& levels_nonempty(ls2)
            &&& levels_no_dup(ls2)
            &&& forall|p2: u64, id2: u32|
                #[trigger] level_entry(ls2, p2, id2) <==> (level_entry(ls, p2, id2) || (p2 == price
                    && id2 == id))
            &&& forall|i: int|
                0 <= i < ls2.len() ==> ((#[trigger] ls2[i]).0 == price || exists|j: int|
                    0 <= j < ls.len() && (#[trigger] ls[j]).0 == ls2[i].0)
        }),
    decreases ls.len(),
{
    let ls2 = list_model(ls, price, id);
    if ls.len() == 0 {
        assert(ls2[0].1.contains(id)) by {
            assert(ls2[0].1[0] == id);
        }
        assert forall|p2: u64, id2: u32| #[trigger] level_entry(ls2, p2, id2) implies (level_entry(
            ls,
            p2,
            id2,
        ) || (p2 == price && id2 == id)) by {
            let i = choose|i: int|
                0 <= i < ls2.len() && (#[trigger] ls2[i]).0 == p2 && ls2[i].1.contains(id2);
            assert(i == 0);
        }
    } else if ls[0].0 < price {
        let tl = ls.drop_first();
        assert(!levels_contain_id(tl, id)) by {
            if levels_contain_id(tl, id) {
                let i = choose|i: int| 0 <= i < tl.len() && (#[trigger] tl[i]).1.contains(id);
                assert(ls[i + 1] == tl[i]);
            }
        }
        lemma_list_model(tl, price, id);
        let tl2 = list_model(tl, price, id);
        assert(ls2 == seq![ls[0]] + tl2);
        assert(sorted_levels(ls2)) by {
            // the new level's price exceeds the head's, as do all old prices
            assert forall|i: int, j: int| 0 <= i < j < ls2.len() implies ls2[i].0 < ls2[j].0 by {
                if i == 0 {
                    assert(ls2[0] == ls[0]);
                    assert(tl2[j - 1].0 == ls2[j].0);
                    if tl2[j - 1].0 != price {
                        let jj = choose|jj: int|
                            0 <= jj < tl.len() && (#[trigger] tl[jj]).0 == tl2[j - 1].0;
                        assert(ls[jj + 1] == tl[jj]);
                    }
                } else {
                    assert(ls2[i] == tl2[i - 1] && ls2[j] == tl2[j - 1]);
                }
            }
        }
        assert forall|p2: u64, id2: u32| #[trigger] level_entry(ls2, p2, id2) implies (level_entry(
            ls,
            p2,
            id2,
        ) || (p2 == price && id2 == id)) by {
            let i = choose|i: int|
                0 <= i < ls2.len() && (#[trigger] ls2[i]).0 == p2 && ls2[i].1.contains(id2);
            if i == 0 {
                assert(ls[0].0 == p2 && ls[0].1.contains(id2));
            } else {
                assert(tl2[i - 1] == ls2[i]);
                assert(level_entry(tl2, p2, id2));
                if level_entry(tl, p2, id2) {
                    let jj = choose|jj: int|
                        0 <= jj < tl.len() && (#[trigger] tl[jj]).0 == p2 && tl[jj].1.contains(id2);
                    assert(ls[jj + 1] == tl[jj]);
                }
            }
        }
        assert forall|p2: u64, id2: u32|
            level_entry(ls, p2, id2) || (p2 == price && id2 == id) implies #[trigger] level_entry(
            ls2,
            p2,
            id2,
        ) by {
            if level_entry(ls, p2, id2) {
                let i = choose|i: int|
                    0 <= i < ls.len() && (#[trigger] ls[i]).0 == p2 && ls[i].1.contains(id2);
                if i == 0 {
                    assert(ls2[0] == ls[0]);
                } else {
                    assert(tl[i - 1] == ls[i]);
                    assert(level_entry(tl, p2, id2));
                    assert(level_entry(tl2, p2, id2));
                    let j = choose|j: int|
                        0 <= j < tl2.len() && (#[trigger] tl2[j]).0 == p2 && tl2[j].1.contains(id2);
                    assert(ls2[j + 1] == tl2[j]);
                }
            } else {
                assert(level_entry(tl2, price, id));
                let j = choose|j: int|
                    0 <= j < tl2.len() && (#[trigger] tl2[j]).0 == price && tl2[j].1.contains(id);
                assert(ls2[j + 1] == tl2[j]);
            }
        }
        assert forall|i: int| 0 <= i < ls2.len() implies ((#[trigger] ls2[i]).0 == price || exists|
            j: int,
        |
            0 <= j < ls.len() && (#[trigger] ls[j]).0 == ls2[i].0) by {
            if i > 0 && ls2[i].0 != price {
                assert(ls2[i] == tl2[i - 1]);
                let jj = choose|jj: int|
                    0 <= jj < tl.len() && (#[trigger] tl[jj]).0 == tl2[i - 1].0;
                assert(ls[jj + 1] == tl[jj]);
            }
        }
    } else if ls[0].0 == price {
        assert(!ls[0].1.contains(id)) by {
            if ls[0].1.contains(id) {
                assert(levels_contain_id(ls, id));
            }
        }
        assert(ls2[0].1.contains(id)) by {
            assert(ls2[0].1[ls[0].1.len() as int] == id);
        }
        assert(no_dup(ls2[0].1)) by {
            assert forall|i: int, j: int| 0 <= i < j < ls2[0].1.len() implies ls2[0].1[i]
                != ls2[0].1[j] by {
                if j < ls[0].1.len() {
                } else {
                    assert(ls2[0].1[j] == id);
                    assert(ls[0].1[i] != id) by {
                        assert(ls[0].1.contains(ls[0].1[i]) || true);
                        if ls[0].1[i] == id {
                            assert(ls[0].1.contains(id));
                        }
                    }
                }
            }
        }
        assert forall|i: int| 0 <= i < ls2.len() implies no_dup(#[trigger] ls2[i].1) by {
            if i != 0 {
                assert(ls2[i] == ls[i]);
            }
        }
        assert forall|p2: u64, id2: u32| #[trigger] level_entry(ls2, p2, id2) implies (level_entry(
            ls,
            p2,
            id2,
        ) || (p2 == price && id2 == id)) by {
            let i = choose|i: int|
                0 <= i < ls2.len() && (#[trigger] ls2[i]).0 == p2 && ls2[i].1.contains(id2);
            if i == 0 {
                if id2 != id {
                    let j = choose|j: int| 0 <= j < ls2[0].1.len() && ls2[0].1[j] == id2;
                    assert(ls[0].1[j] == id2);
                    assert(ls[0].1.contains(id2));
                }
            } else {
                assert(ls2[i] == ls[i]);
            }
        }
        assert forall|p2: u64, id2: u32|
            level_entry(ls, p2, id2) || (p2 == price && id2 == id) implies #[trigger] level_entry(
            ls2,
            p2,
            id2,
        ) by {
            if level_entry(ls, p2, id2) {
                let i = choose|i: int|
                    0 <= i < ls.len() && (#[trigger] ls[i]).0 == p2 && ls[i].1.contains(id2);
                if i == 0 {
                    assert(ls2[0].0 == p2);
                    let j = choose|j: int| 0 <= j < ls[0].1.len() && ls[0].1[j] == id2;
                    assert(ls2[0].1[j] == id2);
                    assert(ls2[0].1.contains(id2));
                } else {
                    assert(ls2[i] == ls[i]);
                }
            } else {
                assert(ls2[0].0 == price && ls2[0].1.contains(id));
            }
        }
    } else {
        // a fresh level in front
        assert(ls2[0].1.contains(id)) by {
            assert(ls2[0].1[0] == id);
        }
        assert(forall|i: int| 0 < i < ls2.len() ==> ls2[i] == ls[i - 1]);
        assert forall|p2: u64, id2: u32| #[trigger] level_entry(ls2, p2, id2) implies (level_entry(
            ls,
            p2,
            id2,
        ) || (p2 == price && id2 == id)) by {
            let i = choose|i: int|
                0 <= i < ls2.len() && (#[trigger] ls2[i]).0 == p2 && ls2[i].1.contains(id2);
            if i > 0 {
                assert(ls2[i] == ls[i - 1]);
            }
        }
        assert forall|p2: u64, id2: u32|
            level_entry(ls, p2, id2) || (p2 == price && id2 == id) implies #[trigger] level_entry(
            ls2,
            p2,
            id2,
        ) by {
            if level_entry(ls, p2, id2) {
                let i = choose|i: int|
                    0 <= i < ls.len() && (#[trigger] ls[i]).0 == p2 && ls[i].1.contains(id2);
                assert(ls2[i + 1] == ls[i]);
            }
        }
    }
}

/// Functional model of accepting one fresh order, by kind: a stop order only
/// joins the index; a market order consumes the opposite levels and rests any
/// remainder in its own market queue; a limit order consumes the opposite
/// market queue at its own price, then the opposite levels within its price,
/// and rests any remainder at its own price level. The order's final fill
/// state is indexed in every case, and its status reflects that state.
pub open spec fn book_order_model(bv: BookView, o: Order) -> (BookView, OrderStatus) {
    match o.order_type {
        OrderType::Stop(_) => (
            BookView { orders: bv.orders.insert(o.id, o), ..bv },
            OrderStatus::Waiting(o.id),
        ),
        OrderType::Market => {
            let buy = o.side == OrderSide::Buy;
            let opp = if buy {
                bv.asks
            } else {
                bv.bids
            };
            let (o2, opp2, orders2) = consume_levels_model(o, opp, bv.orders, buy, None);
            let rest = o2.remaining_quantity > 0;
            let ordersf = orders2.insert(o.id, o2);
            let bv2 = if buy {
                BookView {
                    asks: opp2,
                    market_bids: if rest {
                        bv.market_bids.push(o.id)
                    } else {
                        bv.market_bids
                    },
                    orders: ordersf,
                    ..bv
                }
            } else {
                BookView {
                    bids: opp2,
                    market_asks: if rest {
                        bv.market_asks.push(o.id)
                    } else {
                        bv.market_asks
                    },
                    orders: ordersf,
                    ..bv
                }
            };
            (bv2, o2.spec_status())
        },
        OrderType::Limit(p) => {
            let buy = o.side == OrderSide::Buy;
            let mq = if buy {
                bv.market_asks
            } else {
                bv.market_bids
            };
            let opp = if buy {
                bv.asks
            } else {
                bv.bids
            };
            let same = if buy {
                bv.bids
            } else {
                bv.asks
            };
            let (o1, mq1, orders1) = fill_queue_model(o, p, mq, bv.orders);
            let (o2, opp2, orders2) = consume_levels_model(o1, opp, orders1, buy, Some(p));
            let rest = o2.remaining_quantity > 0;
            let same2 = if rest {
                list_model(same, p, o.id)
            } else {
                same
            };
            let ordersf = orders2.insert(o.id, o2);
            let bv2 = if buy {
                BookView { bids: same2, asks: opp2, market_asks: mq1, orders: ordersf, ..bv }
            } else {
                BookView { asks: same2, bids: opp2, market_bids: mq1, orders: ordersf, ..bv }
            };
            (bv2, o2.spec_status())
        },
    }
}

/// What a market order leaves of the structures it can touch, stated with the
/// two sides abstracted: `side` is the incoming side, `same`/`own_mq` its own
/// structures, `opp`/`opp_mq` the opposite ones.
#[verifier::rlimit(100)]
proof fn lemma_market_shape(
    o: Order,
    opp: Seq<(u64, Seq<u32>)>,
    same: Seq<(u64, Seq<u32>)>,
    own_mq: Seq<u32>,
    opp_mq: Seq<u32>,
    orders: Map<u32, Order>,
    from_front: bool,
    side: OrderSide,
    opp_side: OrderSide,
)
    requires
        o.wf(),
        o.is_fresh(),
        !orders.contains_key(o.id),
        o.side == side,
        o.order_type == OrderType::Market,
        side != opp_side,
        levels_ok(orders, opp_side, opp),
        sorted_levels(opp),
        levels_nonempty(opp),
        levels_no_dup(opp),
        levels_ok(orders, side, same),
        market_queue_ok(orders, side, own_mq),
        no_dup(own_mq),
        market_queue_ok(orders, opp_side, opp_mq),
        orders_ok(orders),
        forall|id: u32|
            #[trigger] orders.contains_key(id) && !orders[id].is_canceled
                && orders[id].remaining_quantity > 0 ==> (match orders[id].order_type {
                OrderType::Limit(q) => if orders[id].side == side {
                    level_entry(same, q, id)
                } else {
                    level_entry(opp, q, id)
                },
                OrderType::Market => if orders[id].side == side {
                    own_mq.contains(id)
                } else {
                    opp_mq.contains(id)
                },
                OrderType::Stop(_) => true,
            }),
    ensures
        ({
            let (o2, opp2, orders2) = consume_levels_model(o, opp, orders, from_front, None);
            let rest = o2.remaining_quantity > 0;
            let mq2 = if rest {
                own_mq.push(o.id)
            } else {
                own_mq
            };
            let ordersf = orders2.insert(o.id, o2);
            &&& same_order_core(o2, o)
            &&& o2.wf()
            &&& orders2.dom() == orders.dom()
            &&& levels_ok(ordersf, opp_side, opp2)
            &&& sorted_levels(opp2)
            &&& levels_nonempty(opp2)
            &&& levels_no_dup(opp2)
            &&& levels_ok(ordersf, side, same)
            &&& market_queue_ok(ordersf, side, mq2)
            &&& no_dup(mq2)
            &&& market_queue_ok(ordersf, opp_side, opp_mq)
            &&& orders_ok(ordersf)
            &&& (rest ==> opp2.len() == 0)
            &&& forall|i: int|
                0 <= i < opp2.len() ==> exists|j: int|
                    0 <= j < opp.len() && (#[trigger] opp2[i]).0 == opp[j].0
            &&& forall|id: u32|
                #[trigger] ordersf.contains_key(id) && !ordersf[id].is_canceled && ordersf[id].remaining_quantity
                    > 0 ==> (match ordersf[id].order_type {
                    OrderType::Limit(q) => if ordersf[id].side == side {
                        level_entry(same, q, id)
                    } else {
                        level_entry(opp2, q, id)
                    },
                    OrderType::Market => if ordersf[id].side == side {
                        mq2.contains(id)
                    } else {
                        opp_mq.contains(id)
                    },
                    OrderType::Stop(_) => true,
                })
        }),
{
    assert(levels_wf(orders, opp));
    lemma_consume_levels_model(o, opp, orders, from_front, None);
    let (o2, opp2, orders2) = consume_levels_model(o, opp, orders, from_front, None);
    let rest = o2.remaining_quantity > 0;
    let mq2 = if rest {
        own_mq.push(o.id)
    } else {
        own_mq
    };
    let ordersf = orders2.insert(o.id, o2);
    // a market order has no price bound, so a remainder means the side is gone
    if rest {
        assert(opp2.len() == 0) by {
            if opp2.len() > 0 {
                assert(!price_eligible(None, from_front, opp2[0].0));
            }
        }
    }
    assert forall|i: int| 0 <= i < opp2.len() implies exists|j: int|
        0 <= j < opp.len() && (#[trigger] opp2[i]).0 == opp[j].0 by {
        assert(levels_wf(orders2, opp2));
        assert(opp2[i].1.len() > 0);
        let id = opp2[i].1[0];
        assert(opp2[i].1.contains(id));
        assert(level_entry(opp2, opp2[i].0, id));
        assert(level_entry(opp, opp2[i].0, id));
        let j = choose|j: int|
            0 <= j < opp.len() && (#[trigger] opp[j]).0 == opp2[i].0 && opp[j].1.contains(id);
        assert(0 <= j < opp.len() && opp[j].0 == opp2[i].0);
    }
    // ids outside the consumed side are untouched
    assert forall|id: u32|
        orders.contains_key(id) && orders[id].order_type == OrderType::Market implies orders2[id]
        == orders[id] by {
        if levels_contain_id(opp, id) {
            let i = choose|i: int| 0 <= i < opp.len() && (#[trigger] opp[i]).1.contains(id);
            let j = choose|j: int| 0 <= j < opp[i].1.len() && opp[i].1[j] == id;
            assert(orders[id].order_type == OrderType::Limit(opp[i].0));
        }
    }
    assert forall|id: u32|
        orders.contains_key(id) && orders[id].side == side implies orders2[id] == orders[id] by {
        if levels_contain_id(opp, id) {
            let i = choose|i: int| 0 <= i < opp.len() && (#[trigger] opp[i]).1.contains(id);
            let j = choose|j: int| 0 <= j < opp[i].1.len() && opp[i].1[j] == id;
            assert(orders[id].side == opp_side);
        }
    }
    assert(levels_ok(ordersf, opp_side, opp2)) by {
        assert forall|i: int, j: int|
            0 <= i < opp2.len() && 0 <= j < opp2[i].1.len() implies {
            &&& resting_ok(ordersf, #[trigger] opp2[i].1[j])
            &&& ordersf[opp2[i].1[j]].side == opp_side
            &&& ordersf[opp2[i].1[j]].order_type == OrderType::Limit(opp2[i].0)
        } by {
            let id = opp2[i].1[j];
            assert(opp2[i].1.contains(id));
            assert(level_entry(opp2, opp2[i].0, id));
            assert(level_entry(opp, opp2[i].0, id));
            assert(levels_contain_id(opp, id)) by {
                let ii = choose|ii: int|
                    0 <= ii < opp.len() && (#[trigger] opp[ii]).0 == opp2[i].0
                        && opp[ii].1.contains(id);
                assert(opp[ii].1.contains(id));
            }
            let ii = choose|ii: int|
                0 <= ii < opp.len() && (#[trigger] opp[ii]).0 == opp2[i].0 && opp[ii].1.contains(
                    id,
                );
            let jj = choose|jj: int| 0 <= jj < opp[ii].1.len() && opp[ii].1[jj] == id;
            assert(orders[id].side == opp_side);
            assert(id != o.id);
        }
    }
    assert(levels_ok(ordersf, side, same)) by {
        assert forall|i: int, j: int|
            0 <= i < same.len() && 0 <= j < same[i].1.len() implies {
            &&& resting_ok(ordersf, #[trigger] same[i].1[j])
            &&& ordersf[same[i].1[j]].side == side
            &&& ordersf[same[i].1[j]].order_type == OrderType::Limit(same[i].0)
        } by {
            let id = same[i].1[j];
            assert(resting_ok(orders, id) && orders[id].side == side);
            assert(orders2[id] == orders[id]);
            assert(id != o.id);
        }
    }
    assert(market_queue_ok(ordersf, side, mq2)) by {
        assert forall|j: int|
            0 <= j < mq2.len() implies {
            &&& resting_ok(ordersf, #[trigger] mq2[j])
            &&& ordersf[mq2[j]].side == side
            &&& ordersf[mq2[j]].order_type == OrderType::Market
        } by {
            if j < own_mq.len() {
                let id = mq2[j];
                assert(id == own_mq[j]);
                assert(resting_ok(orders, id));
                assert(orders2[id] == orders[id]);
                assert(id != o.id);
            } else {
                assert(mq2[j] == o.id);
                assert(ordersf[o.id] == o2);
            }
        }
    }
    assert(no_dup(mq2)) by {
        assert forall|i: int, j: int| 0 <= i < j < mq2.len() implies mq2[i] != mq2[j] by {
            if j < own_mq.len() {
            } else if rest {
                assert(mq2[j] == o.id);
                assert(resting_ok(orders, own_mq[i]));
            }
        }
    }
    assert(market_queue_ok(ordersf, opp_side, opp_mq)) by {
        assert forall|j: int|
            0 <= j < opp_mq.len() implies {
            &&& resting_ok(ordersf, #[trigger] opp_mq[j])
            &&& ordersf[opp_mq[j]].side == opp_side
            &&& ordersf[opp_mq[j]].order_type == OrderType::Market
        } by {
            let id = opp_mq[j];
            assert(resting_ok(orders, id));
            assert(orders2[id] == orders[id]);
            assert(id != o.id);
        }
    }
    assert(orders_ok(ordersf)) by {
        assert forall|id: u32| #[trigger] ordersf.contains_key(id) implies ordersf[id].id == id
            && ordersf[id].wf() by {
            if id == o.id {
            } else {
                assert(orders.contains_key(id));
                if levels_contain_id(opp, id) {
                } else {
                    assert(orders2[id] == orders[id]);
                }
            }
        }
    }
    assert forall|id: u32|
        #[trigger] ordersf.contains_key(id) && !ordersf[id].is_canceled
            && ordersf[id].remaining_quantity > 0 implies match ordersf[id].order_type {
        OrderType::Limit(q) => if ordersf[id].side == side {
            level_entry(same, q, id)
        } else {
            level_entry(opp2, q, id)
        },
        OrderType::Market => if ordersf[id].side == side {
            mq2.contains(id)
        } else {
            opp_mq.contains(id)
        },
        OrderType::Stop(_) => true,
    } by {
        if id == o.id {
            assert(ordersf[o.id] == o2);
            if rest {
                assert(mq2[own_mq.len() as int] == o.id);
                assert(mq2.contains(o.id));
            }
        } else {
            assert(orders.contains_key(id));
            if levels_contain_id(opp, id) {
                // a consumed-side resting order: still active means it kept
                // its place on the (shrunken) opposite side
                assert(same_order_core(orders2[id], orders[id]));
                assert(ordersf[id] == orders2[id]);
                assert(!orders[id].is_canceled && orders[id].remaining_quantity > 0);
                let i = choose|i: int| 0 <= i < opp.len() && (#[trigger] opp[i]).1.contains(id);
                let j = choose|j: int| 0 <= j < opp[i].1.len() && opp[i].1[j] == id;
                assert(orders[id].side == opp_side && orders[id].order_type == OrderType::Limit(
                    opp[i].0,
                ));
                assert(level_entry(opp, opp[i].0, id));
                assert(level_entry(opp2, opp[i].0, id));
            } else {
                assert(orders2[id] == orders[id]);
                assert(ordersf[id] == orders[id]);
                match ordersf[id].order_type {
                    OrderType::Limit(q) => {
                        if ordersf[id].side == opp_side {
                            assert(level_entry(opp, q, id));
                            assert(levels_contain_id(opp, id)) by {
                                let i = choose|i: int|
                                    0 <= i < opp.len() && (#[trigger] opp[i]).0 == q
                                        && opp[i].1.contains(id);
                                assert(opp[i].1.contains(id));
                            }
                            assert(false);
                        }
                    },
                    _ => {},
                }
                if ordersf[id].order_type == OrderType::Market && ordersf[id].side == side {
                    assert(own_mq.contains(id));
                    if rest {
                        let j = choose|j: int| 0 <= j < own_mq.len() && own_mq[j] == id;
                        assert(mq2[j] == id);
                        assert(mq2.contains(id));
                    }
                }
            }
        }
    }
}

/// What a limit order leaves of the structures it can touch, stated with the
/// two sides abstracted: it consumes the opposite market queue, then the
/// opposite levels within its price, and rests any remainder on its own side.
#[verifier::rlimit(100)]
proof fn lemma_limit_shape(
    o: Order,
    p: u64,
    opp: Seq<(u64, Seq<u32>)>,
    same: Seq<(u64, Seq<u32>)>,
    own_mq: Seq<u32>,
    opp_mq: Seq<u32>,
    orders: Map<u32, Order>,
    from_front: bool,
    side: OrderSide,
    opp_side: OrderSide,
)
    requires
        o.wf(),
        o.is_fresh(),
        !orders.contains_key(o.id),
        o.side == side,
        o.order_type == OrderType::Limit(p),
        side != opp_side,
        levels_ok(orders, opp_side, opp),
        sorted_levels(opp),
        levels_nonempty(opp),
        levels_no_dup(opp),
        levels_ok(orders, side, same),
        sorted_levels(same),
        levels_nonempty(same),
        levels_no_dup(same),
        market_queue_ok(orders, side, own_mq),
        market_queue_ok(orders, opp_side, opp_mq),
        no_dup(own_mq),
        no_dup(opp_mq),
        orders_ok(orders),
        forall|id: u32|
            #[trigger] orders.contains_key(id) && !orders[id].is_canceled
                && orders[id].remaining_quantity > 0 ==> (match orders[id].order_type {
                OrderType::Limit(q) => if orders[id].side == side {
                    level_entry(same, q, id)
                } else {
                    level_entry(opp, q, id)
                },
                OrderType::Market => if orders[id].side == side {
                    own_mq.contains(id)
                } else {
                    opp_mq.contains(id)
                },
                OrderType::Stop(_) => true,
            }),
    ensures
        ({
            let (o1, mq1, orders1) = fill_queue_model(o, p, opp_mq, orders);
            let (o2, opp2, orders2) = consume_levels_model(o1, opp, orders1, from_front, Some(p));
            let rest = o2.remaining_quantity > 0;
            let same2 = if rest {
                list_model(same, p, o.id)
            } else {
                same
            };
            let ordersf = orders2.insert(o.id, o2);
            &&& same_order_core(o2, o)
            &&& o2.wf()
            &&& orders2.dom() == orders.dom()
            &&& levels_ok(ordersf, opp_side, opp2)
            &&& sorted_levels(opp2)
            &&& levels_nonempty(opp2)
            &&& levels_no_dup(opp2)
            &&& levels_ok(ordersf, side, same2)
            &&& sorted_levels(same2)
            &&& levels_nonempty(same2)
            &&& levels_no_dup(same2)
            &&& market_queue_ok(ordersf, side, own_mq)
            &&& market_queue_ok(ordersf, opp_side, mq1)
            &&& no_dup(mq1)
            &&& orders_ok(ordersf)
            &&& forall|i: int|
                0 <= i < opp2.len() ==> exists|j: int|
                    0 <= j < opp.len() && (#[trigger] opp2[i]).0 == opp[j].0
            &&& (rest ==> forall|i: int|
                0 <= i < list_model(same, p, o.id).len() ==> ((#[trigger] list_model(
                    same,
                    p,
                    o.id,
                )[i]).0 == p || exists|j: int|
                    0 <= j < same.len() && (#[trigger] same[j]).0 == list_model(same, p, o.id)[i].0))
            &&& (rest ==> forall|i: int|
                0 <= i < opp2.len() ==> (if from_front {
                    (#[trigger] opp2[i]).0 > p
                } else {
                    opp2[i].0 < p
                }))
            &&& forall|id: u32|
                #[trigger] ordersf.contains_key(id) && !ordersf[id].is_canceled && ordersf[id].remaining_quantity
                    > 0 ==> (match ordersf[id].order_type {
                    OrderType::Limit(q) => if ordersf[id].side == side {
                        level_entry(same2, q, id)
                    } else {
                        level_entry(opp2, q, id)
                    },
                    OrderType::Market => if ordersf[id].side == side {
                        own_mq.contains(id)
                    } else {
                        mq1.contains(id)
                    },
                    OrderType::Stop(_) => true,
                })
        }),
{
    assert(queue_wf(orders, opp_mq));
    lemma_fill_queue_model(o, p, opp_mq, orders);
    let (o1, mq1, orders1) = fill_queue_model(o, p, opp_mq, orders);
    // market-queue ids are the only ones the first pass touches
    assert forall|id: u32|
        orders.contains_key(id) && orders[id].order_type != OrderType::Market implies orders1[id]
        == orders[id] by {
        if opp_mq.contains(id) {
            let j = choose|j: int| 0 <= j < opp_mq.len() && opp_mq[j] == id;
            assert(orders[opp_mq[j]].order_type == OrderType::Market);
        }
    }
    assert forall|id: u32|
        orders.contains_key(id) && orders[id].side == side implies orders1[id] == orders[id] by {
        if opp_mq.contains(id) {
            let j = choose|j: int| 0 <= j < opp_mq.len() && opp_mq[j] == id;
            assert(orders[opp_mq[j]].side == opp_side);
        }
    }
    assert(levels_wf(orders1, opp)) by {
        assert forall|i: int, j: int|
            0 <= i < opp.len() && 0 <= j < opp[i].1.len() implies resting_ok(
            orders1,
            #[trigger] opp[i].1[j],
        ) && orders1[opp[i].1[j]].order_type == OrderType::Limit(opp[i].0) by {
            let id = opp[i].1[j];
            assert(resting_ok(orders, id) && orders[id].order_type == OrderType::Limit(opp[i].0));
        }
    }
    lemma_consume_levels_model(o1, opp, orders1, from_front, Some(p));
    let (o2, opp2, orders2) = consume_levels_model(o1, opp, orders1, from_front, Some(p));
    let rest = o2.remaining_quantity > 0;
    let same2 = if rest {
        list_model(same, p, o.id)
    } else {
        same
    };
    let ordersf = orders2.insert(o.id, o2);
    // consume touches only opposite-level ids
    assert forall|id: u32|
        orders1.contains_key(id) && !levels_contain_id(opp, id) implies orders2[id]
        == orders1[id] by {}
    assert forall|id: u32|
        orders.contains_key(id) && orders[id].order_type == OrderType::Market implies orders2[id]
        == orders1[id] by {
        if levels_contain_id(opp, id) {
            let i = choose|i: int| 0 <= i < opp.len() && (#[trigger] opp[i]).1.contains(id);
            let j = choose|j: int| 0 <= j < opp[i].1.len() && opp[i].1[j] == id;
            assert(orders[id].order_type == OrderType::Limit(opp[i].0));
        }
    }
    assert forall|id: u32|
        orders.contains_key(id) && orders[id].side == side implies orders2[id] == orders[id] by {
        if levels_contain_id(opp, id) {
            let i = choose|i: int| 0 <= i < opp.len() && (#[trigger] opp[i]).1.contains(id);
            let j = choose|j: int| 0 <= j < opp[i].1.len() && opp[i].1[j] == id;
            assert(orders[id].side == opp_side);
        }
    }
    if rest {
        assert(!levels_contain_id(same, o.id)) by {
            if levels_contain_id(same, o.id) {
                let i = choose|i: int|
                    0 <= i < same.len() && (#[trigger] same[i]).1.contains(o.id);
                let j = choose|j: int| 0 <= j < same[i].1.len() && same[i].1[j] == o.id;
                assert(resting_ok(orders, o.id));
            }
        }
        lemma_list_model(same, p, o.id);
    }
    assert(levels_ok(ordersf, opp_side, opp2)) by {
        assert forall|i: int, j: int|
            0 <= i < opp2.len() && 0 <= j < opp2[i].1.len() implies {
            &&& resting_ok(ordersf, #[trigger] opp2[i].1[j])
            &&& ordersf[opp2[i].1[j]].side == opp_side
            &&& ordersf[opp2[i].1[j]].order_type == OrderType::Limit(opp2[i].0)
        } by {
            let id = opp2[i].1[j];
            assert(opp2[i].1.contains(id));
            assert(level_entry(opp2, opp2[i].0, id));
            assert(level_entry(opp, opp2[i].0, id));
            let ii = choose|ii: int|
                0 <= ii < opp.len() && (#[trigger] opp[ii]).0 == opp2[i].0 && opp[ii].1.contains(
                    id,
                );
            let jj = choose|jj: int| 0 <= jj < opp[ii].1.len() && opp[ii].1[jj] == id;
            assert(levels_contain_id(opp, id));
            assert(orders[id].side == opp_side);
            assert(same_order_core(orders2[id], orders1[id]));
            assert(orders1[id].side == orders[id].side);
            assert(id != o.id);
        }
    }
    assert(levels_ok(ordersf, side, same2)) by {
        assert forall|i: int, j: int|
            0 <= i < same2.len() && 0 <= j < same2[i].1.len() implies {
            &&& resting_ok(ordersf, #[trigger] same2[i].1[j])
            &&& ordersf[same2[i].1[j]].side == side
            &&& ordersf[same2[i].1[j]].order_type == OrderType::Limit(same2[i].0)
        } by {
            let id = same2[i].1[j];
            assert(same2[i].1.contains(id));
            assert(level_entry(same2, same2[i].0, id));
            if rest && id == o.id {
                assert(!level_entry(same, same2[i].0, o.id)) by {
                    if level_entry(same, same2[i].0, o.id) {
                        let ii = choose|ii: int|
                            0 <= ii < same.len() && (#[trigger] same[ii]).0 == same2[i].0
                                && same[ii].1.contains(o.id);
                        let jj = choose|jj: int|
                            0 <= jj < same[ii].1.len() && same[ii].1[jj] == o.id;
                        assert(resting_ok(orders, o.id));
                    }
                }
                assert(same2[i].0 == p);
                assert(ordersf[o.id] == o2);
            } else {
                assert(level_entry(same, same2[i].0, id)) by {
                    if rest {
                        assert(level_entry(same2, same2[i].0, id));
                    }
                }
                let ii = choose|ii: int|
                    0 <= ii < same.len() && (#[trigger] same[ii]).0 == same2[i].0
                        && same[ii].1.contains(id);
                let jj = choose|jj: int| 0 <= jj < same[ii].1.len() && same[ii].1[jj] == id;
                assert(resting_ok(orders, id) && orders[id].side == side);
                assert(orders2[id] == orders[id]);
                assert(id != o.id);
            }
        }
    }
    assert(market_queue_ok(ordersf, side, own_mq)) by {
        assert forall|j: int|
            0 <= j < own_mq.len() implies {
            &&& resting_ok(ordersf, #[trigger] own_mq[j])
            &&& ordersf[own_mq[j]].side == side
            &&& ordersf[own_mq[j]].order_type == OrderType::Market
        } by {
            let id = own_mq[j];
            assert(resting_ok(orders, id) && orders[id].side == side);
            assert(orders2[id] == orders[id]);
            assert(id != o.id);
        }
    }
    assert(market_queue_ok(ordersf, opp_side, mq1)) by {
        assert forall|j: int|
            0 <= j < mq1.len() implies {
            &&& resting_ok(ordersf, #[trigger] mq1[j])
            &&& ordersf[mq1[j]].side == opp_side
            &&& ordersf[mq1[j]].order_type == OrderType::Market
        } by {
            let id = mq1[j];
            assert(queue_wf(orders1, mq1));
            assert(resting_ok(orders1, id));
            let k = choose|k: int| 0 <= k <= opp_mq.len() && mq1 =~= opp_mq.skip(k);
            assert(opp_mq[j + k] == id);
            assert(opp_mq.contains(id));
            assert(orders[id].order_type == OrderType::Market && orders[id].side == opp_side);
            assert(same_order_core(orders1[id], orders[id]));
            assert(orders2[id] == orders1[id]);
            assert(id != o.id);
        }
    }
    assert(orders_ok(ordersf)) by {
        assert forall|id: u32| #[trigger] ordersf.contains_key(id) implies ordersf[id].id == id
            && ordersf[id].wf() by {
            if id != o.id {
                assert(orders.contains_key(id));
                if opp_mq.contains(id) {
                    if levels_contain_id(opp, id) {
                    } else {
                        assert(orders2[id] == orders1[id]);
                    }
                } else {
                    assert(orders1[id] == orders[id]);
                    if levels_contain_id(opp, id) {
                    } else {
                        assert(orders2[id] == orders1[id]);
                    }
                }
            }
        }
    }
    assert forall|i: int| 0 <= i < opp2.len() implies exists|j: int|
        0 <= j < opp.len() && (#[trigger] opp2[i]).0 == opp[j].0 by {
        assert(opp2[i].1.len() > 0);
        let id = opp2[i].1[0];
        assert(opp2[i].1.contains(id));
        assert(level_entry(opp2, opp2[i].0, id));
        assert(level_entry(opp, opp2[i].0, id));
        let j = choose|j: int|
            0 <= j < opp.len() && (#[trigger] opp[j]).0 == opp2[i].0 && opp[j].1.contains(id);
        assert(0 <= j < opp.len() && opp[j].0 == opp2[i].0);
    }
    if rest {
        assert forall|i: int| 0 <= i < opp2.len() implies (if from_front {
            (#[trigger] opp2[i]).0 > p
        } else {
            opp2[i].0 < p
        }) by {
            assert(!price_eligible(Some(p), from_front, opp2[i].0));
        }
    }
    // locations of every active order after the whole pass
    assert forall|id: u32|
        #[trigger] ordersf.contains_key(id) && !ordersf[id].is_canceled
            && ordersf[id].remaining_quantity > 0 implies (match ordersf[id].order_type {
        OrderType::Limit(q) => if ordersf[id].side == side {
            level_entry(same2, q, id)
        } else {
            level_entry(opp2, q, id)
        },
        OrderType::Market => if ordersf[id].side == side {
            own_mq.contains(id)
        } else {
            mq1.contains(id)
        },
        OrderType::Stop(_) => true,
    }) by {
        if id == o.id {
            assert(ordersf[o.id] == o2);
            if rest {
                assert(level_entry(same2, p, o.id));
            }
        } else {
            assert(orders.contains_key(id));
            match orders[id].order_type {
                OrderType::Limit(q) => {
                    assert(orders1[id] == orders[id]);
                    if orders[id].side == side {
                        assert(orders2[id] == orders[id]);
                        assert(level_entry(same, q, id));
                        if rest {
                            assert(level_entry(same2, q, id));
                        }
                    } else {
                        assert(ordersf[id] == orders2[id]);
                        assert(same_order_core(orders2[id], orders1[id]));
                        assert(!orders[id].is_canceled && orders[id].remaining_quantity > 0);
                        assert(level_entry(opp, q, id));
                        assert(level_entry(opp2, q, id));
                    }
                },
                OrderType::Market => {
                    assert(orders2[id] == orders1[id]);
                    if orders[id].side == side {
                        assert(orders1[id] == orders[id]);
                        assert(own_mq.contains(id));
                    } else {
                        assert(!orders[id].is_canceled && orders[id].remaining_quantity > 0);
                        assert(opp_mq.contains(id));
                        assert(orders1[id].remaining_quantity > 0);
                        assert(mq1.contains(id));
                    }
                },
                OrderType::Stop(_) => {
                    assert(orders1[id] == orders[id]);
                },
            }
        }
    }
}

/// Dropping levels from the upper side cannot cross the book.
proof fn lemma_crossed_upper_subset(
    lower: Seq<(u64, Seq<u32>)>,
    upper: Seq<(u64, Seq<u32>)>,
    upper2: Seq<(u64, Seq<u32>)>,
)
    requires
        sides_not_crossed(lower, upper),
        forall|j: int|
            0 <= j < upper2.len() ==> exists|jj: int|
                0 <= jj < upper.len() && (#[trigger] upper2[j]).0 == upper[jj].0,
    ensures
        sides_not_crossed(lower, upper2),
{
    assert forall|i: int, j: int|
        0 <= i < lower.len() && 0 <= j < upper2.len() implies (#[trigger] lower[i]).0 < (
    #[trigger] upper2[j]).0 by {
        let jj = choose|jj: int| 0 <= jj < upper.len() && upper2[j].0 == upper[jj].0;
        assert(lower[i].0 < upper[jj].0);
    }
}

/// Dropping levels from the lower side cannot cross the book.
proof fn lemma_crossed_lower_subset(
    lower: Seq<(u64, Seq<u32>)>,
    upper: Seq<(u64, Seq<u32>)>,
    lower2: Seq<(u64, Seq<u32>)>,
)
    requires
        sides_not_crossed(lower, upper),
        forall|i: int|
            0 <= i < lower2.len() ==> exists|ii: int|
                0 <= ii < lower.len() && (#[trigger] lower2[i]).0 == lower[ii].0,
    ensures
        sides_not_crossed(lower2, upper),
{
    assert forall|i: int, j: int|
        0 <= i < lower2.len() && 0 <= j < upper.len() implies (#[trigger] lower2[i]).0 < (
    #[trigger] upper[j]).0 by {
        let ii = choose|ii: int| 0 <= ii < lower.len() && lower2[i].0 == lower[ii].0;
        assert(lower[ii].0 < upper[j].0);
    }
}

/// A new price may join the lower side if every upper price stands above it.
proof fn lemma_crossed_new_lower(
    lower: Seq<(u64, Seq<u32>)>,
    upper: Seq<(u64, Seq<u32>)>,
    lower2: Seq<(u64, Seq<u32>)>,
    upper2: Seq<(u64, Seq<u32>)>,
    p: u64,
)
    requires
        sides_not_crossed(lower, upper),
        forall|i: int|
            0 <= i < lower2.len() ==> ((#[trigger] lower2[i]).0 == p || exists|ii: int|
                0 <= ii < lower.len() && (#[trigger] lower[ii]).0 == lower2[i].0),
        forall|j: int|
            0 <= j < upper2.len() ==> exists|jj: int|
                0 <= jj < upper.len() && (#[trigger] upper2[j]).0 == upper[jj].0,
        forall|j: int| 0 <= j < upper2.len() ==> (#[trigger] upper2[j]).0 > p,
    ensures
        sides_not_crossed(lower2, upper2),
{
    assert forall|i: int, j: int|
        0 <= i < lower2.len() && 0 <= j < upper2.len() implies (#[trigger] lower2[i]).0 < (
    #[trigger] upper2[j]).0 by {
        let jj = choose|jj: int| 0 <= jj < upper.len() && upper2[j].0 == upper[jj].0;
        if lower2[i].0 != p {
            let ii = choose|ii: int| 0 <= ii < lower.len() && (#[trigger] lower[ii]).0 == lower2[i].0;
            assert(lower[ii].0 < upper[jj].0);
        }
    }
}

/// A new price may join the upper side if every lower price stands below it.
proof fn lemma_crossed_new_upper(
    lower: Seq<(u64, Seq<u32>)>,
    upper: Seq<(u64, Seq<u32>)>,
    lower2: Seq<(u64, Seq<u32>)>,
    upper2: Seq<(u64, Seq<u32>)>,
    p: u64,
)
    requires
        sides_not_crossed(lower, upper),
        forall|j: int|
            0 <= j < upper2.len() ==> ((#[trigger] upper2[j]).0 == p || exists|jj: int|
                0 <= jj < upper.len() && (#[trigger] upper[jj]).0 == upper2[j].0),
        forall|i: int|
            0 <= i < lower2.len() ==> exists|ii: int|
                0 <= ii < lower.len() && (#[trigger] lower2[i]).0 == lower[ii].0,
        forall|i: int| 0 <= i < lower2.len() ==> (#[trigger] lower2[i]).0 < p,
    ensures
        sides_not_crossed(lower2, upper2),
{
    assert forall|i: int, j: int|
        0 <= i < lower2.len() && 0 <= j < upper2.len() implies (#[trigger] lower2[i]).0 < (
    #[trigger] upper2[j]).0 by {
        let ii = choose|ii: int| 0 <= ii < lower.len() && lower2[i].0 == lower[ii].0;
        if upper2[j].0 != p {
            let jj = choose|jj: int| 0 <= jj < upper.len() && (#[trigger] upper[jj]).0 == upper2[j].0;
            assert(lower[ii].0 < upper[jj].0);
        }
    }
}

/// Accepting a fresh stop order preserves the book invariant: it only joins
/// the index.
#[verifier::rlimit(100)]
proof fn lemma_book_stop_wf(bv: BookView, o: Order)
    requires
        bv.wf(),
        o.wf(),
        o.is_fresh(),
        !bv.orders.contains_key(o.id),
        o.order_type matches OrderType::Stop(_),
    ensures
        book_order_model(bv, o).0.wf(),
{
    let bv2 = book_order_model(bv, o).0;
    let ordersf = bv.orders.insert(o.id, o);
    assert(levels_ok(ordersf, OrderSide::Buy, bv.bids)) by {
        assert forall|i: int, j: int|
            0 <= i < bv.bids.len() && 0 <= j < bv.bids[i].1.len() implies {
            &&& resting_ok(ordersf, #[trigger] bv.bids[i].1[j])
            &&& ordersf[bv.bids[i].1[j]].side == OrderSide::Buy
            &&& ordersf[bv.bids[i].1[j]].order_type == OrderType::Limit(bv.bids[i].0)
        } by {
            assert(resting_ok(bv.orders, bv.bids[i].1[j]));
        }
    }
    assert(levels_ok(ordersf, OrderSide::Sell, bv.asks)) by {
        assert forall|i: int, j: int|
            0 <= i < bv.asks.len() && 0 <= j < bv.asks[i].1.len() implies {
            &&& resting_ok(ordersf, #[trigger] bv.asks[i].1[j])
            &&& ordersf[bv.asks[i].1[j]].side == OrderSide::Sell
            &&& ordersf[bv.asks[i].1[j]].order_type == OrderType::Limit(bv.asks[i].0)
        } by {
            assert(resting_ok(bv.orders, bv.asks[i].1[j]));
        }
    }
    assert(market_queue_ok(ordersf, OrderSide::Buy, bv.market_bids)) by {
        assert forall|j: int|
            0 <= j < bv.market_bids.len() implies {
            &&& resting_ok(ordersf, #[trigger] bv.market_bids[j])
            &&& ordersf[bv.market_bids[j]].side == OrderSide::Buy
            &&& ordersf[bv.market_bids[j]].order_type == OrderType::Market
        } by {
            assert(resting_ok(bv.orders, bv.market_bids[j]));
        }
    }
    assert(market_queue_ok(ordersf, OrderSide::Sell, bv.market_asks)) by {
        assert forall|j: int|
            0 <= j < bv.market_asks.len() implies {
            &&& resting_ok(ordersf, #[trigger] bv.market_asks[j])
            &&& ordersf[bv.market_asks[j]].side == OrderSide::Sell
            &&& ordersf[bv.market_asks[j]].order_type == OrderType::Market
        } by {
            assert(resting_ok(bv.orders, bv.market_asks[j]));
        }
    }
    assert(active_orders_queued(bv2)) by {
        assert forall|id: u32|
            #[trigger] bv2.orders.contains_key(id) && !bv2.orders[id].is_canceled
                && bv2.orders[id].remaining_quantity > 0 implies (match bv2.orders[id].order_type {
            OrderType::Limit(q) => if bv2.orders[id].side == OrderSide::Buy {
                level_entry(bv2.bids, q, id)
            } else {
                level_entry(bv2.asks, q, id)
            },
            OrderType::Market => if bv2.orders[id].side == OrderSide::Buy {
                bv2.market_bids.contains(id)
            } else {
                bv2.market_asks.contains(id)
            },
            OrderType::Stop(_) => true,
        }) by {
            if id != o.id {
                assert(bv.orders.contains_key(id));
                assert(bv2.orders[id] == bv.orders[id]);
            }
        }
    }
}

/// Accepting a fresh market order preserves the book invariant.
#[verifier::rlimit(100)]
proof fn lemma_book_market_wf(bv: BookView, o: Order)
    requires
        bv.wf(),
        o.wf(),
        o.is_fresh(),
        !bv.orders.contains_key(o.id),
        o.order_type == OrderType::Market,
    ensures
        book_order_model(bv, o).0.wf(),
{
    let bv2 = book_order_model(bv, o).0;
    let buy = o.side == OrderSide::Buy;
    if buy {
        lemma_market_shape(
            o,
            bv.asks,
            bv.bids,
            bv.market_bids,
            bv.market_asks,
            bv.orders,
            true,
            OrderSide::Buy,
            OrderSide::Sell,
        );
        let (o2, opp2, orders2) = consume_levels_model(o, bv.asks, bv.orders, true, None);
        lemma_crossed_upper_subset(bv.bids, bv.asks, opp2);
        assert(bv2.not_crossed());
    } else {
        lemma_market_shape(
            o,
            bv.bids,
            bv.asks,
            bv.market_asks,
            bv.market_bids,
            bv.orders,
            false,
            OrderSide::Sell,
            OrderSide::Buy,
        );
        let (o2, opp2, orders2) = consume_levels_model(o, bv.bids, bv.orders, false, None);
        lemma_crossed_lower_subset(bv.bids, bv.asks, opp2);
        assert(bv2.not_crossed());
    }
}

/// Accepting a fresh limit order preserves the book invariant.
#[verifier::rlimit(100)]
proof fn lemma_book_limit_wf(bv: BookView, o: Order, p: u64)
    requires
        bv.wf(),
        o.wf(),
        o.is_fresh(),
        !bv.orders.contains_key(o.id),
        o.order_type == OrderType::Limit(p),
    ensures
        book_order_model(bv, o).0.wf(),
{
    let bv2 = book_order_model(bv, o).0;
    let buy = o.side == OrderSide::Buy;
    if buy {
        lemma_limit_shape(
            o,
            p,
            bv.asks,
            bv.bids,
            bv.market_bids,
            bv.market_asks,
            bv.orders,
            true,
            OrderSide::Buy,
            OrderSide::Sell,
        );
        let (o1, mq1, orders1) = fill_queue_model(o, p, bv.market_asks, bv.orders);
        let (o2, opp2, orders2) = consume_levels_model(o1, bv.asks, orders1, true, Some(p));
        let rest = o2.remaining_quantity > 0;
        let same2 = if rest {
            list_model(bv.bids, p, o.id)
        } else {
            bv.bids
        };
        assert(bv2.bids == same2 && bv2.asks == opp2);
        if rest {
            assert forall|j: int| 0 <= j < opp2.len() implies (#[trigger] opp2[j]).0 > p by {}
            lemma_crossed_new_lower(bv.bids, bv.asks, list_model(bv.bids, p, o.id), opp2, p);
            assert(same2 == list_model(bv.bids, p, o.id));
        } else {
            lemma_crossed_upper_subset(bv.bids, bv.asks, opp2);
        }
        assert(bv2.not_crossed());
    } else {
        lemma_limit_shape(
            o,
            p,
            bv.bids,
            bv.asks,
            bv.market_asks,
            bv.market_bids,
            bv.orders,
            false,
            OrderSide::Sell,
            OrderSide::Buy,
        );
        let (o1, mq1, orders1) = fill_queue_model(o, p, bv.market_bids, bv.orders);
        let (o2, opp2, orders2) = consume_levels_model(o1, bv.bids, orders1, false, Some(p));
        let rest = o2.remaining_quantity > 0;
        let same2 = if rest {
            list_model(bv.asks, p, o.id)
        } else {
            bv.asks
        };
        assert(bv2.asks == same2 && bv2.bids == opp2);
        if rest {
            assert forall|i: int| 0 <= i < opp2.len() implies (#[trigger] opp2[i]).0 < p by {}
            lemma_crossed_new_upper(bv.bids, bv.asks, opp2, list_model(bv.asks, p, o.id), p);
            assert(same2 == list_model(bv.asks, p, o.id));
        } else {
            lemma_crossed_lower_subset(bv.bids, bv.asks, opp2);
        }
        assert(bv2.not_crossed());
    }
}

/// Accepting any fresh, well-formed order preserves the book invariant; the
/// index gains exactly the new order's id.
pub proof fn lemma_book_order_model_wf(bv: BookView, o: Order)
    requires
        bv.wf(),
        o.wf(),
        o.is_fresh(),
        !bv.orders.contains_key(o.id),
    ensures
        book_order_model(bv, o).0.wf(),
        book_order_model(bv, o).0.orders.dom() == bv.orders.dom().insert(o.id),
{
    match o.order_type {
        OrderType::Stop(_) => {
            lemma_book_stop_wf(bv, o);
            assert(book_order_model(bv, o).0.orders.dom() =~= bv.orders.dom().insert(o.id));
        },
        OrderType::Market => {
            lemma_book_market_wf(bv, o);
            let buy = o.side == OrderSide::Buy;
            let opp = if buy {
                bv.asks
            } else {
                bv.bids
            };
            lemma_consume_levels_model(o, opp, bv.orders, buy, None);
            assert(levels_wf(bv.orders, opp));
            assert(book_order_model(bv, o).0.orders.dom() =~= bv.orders.dom().insert(o.id));
        },
        OrderType::Limit(p) => {
            lemma_book_limit_wf(bv, o, p);
            let buy = o.side == OrderSide::Buy;
            let mq = if buy {
                bv.market_asks
            } else {
                bv.market_bids
            };
            let opp = if buy {
                bv.asks
            } else {
                bv.bids
            };
            assert(queue_wf(bv.orders, mq));
            lemma_fill_queue_model(o, p, mq, bv.orders);
            let (o1, mq1, orders1) = fill_queue_model(o, p, mq, bv.orders);
            assert(levels_wf(orders1, opp)) by {
                assert forall|i: int, j: int|
                    0 <= i < opp.len() && 0 <= j < opp[i].1.len() implies resting_ok(
                    orders1,
                    #[trigger] opp[i].1[j],
                ) && orders1[opp[i].1[j]].order_type == OrderType::Limit(opp[i].0) by {
                    let id = opp[i].1[j];
                    assert(resting_ok(bv.orders, id) && bv.orders[id].order_type == OrderType::Limit(
                        opp[i].0,
                    ));
                    assert(!mq.contains(id)) by {
                        if mq.contains(id) {
                            let jj = choose|jj: int| 0 <= jj < mq.len() && mq[jj] == id;
                            assert(bv.orders[mq[jj]].order_type == OrderType::Market);
                        }
                    }
                    assert(orders1[id] == bv.orders[id]);
                }
            }
            lemma_consume_levels_model(o1, opp, orders1, buy, Some(p));
            assert(book_order_model(bv, o).0.orders.dom() =~= bv.orders.dom().insert(o.id));
        },
    }
}

/// The index of the (unique, by strict sorting) level at this price.
pub open spec fn level_index_of(ls: Seq<(u64, Seq<u32>)>, price: u64) -> int {
    choose|i: int| 0 <= i < ls.len() && (#[trigger] ls[i]).0 == price
}

/// The queue with the (unique, by the book invariant) occurrence of this id
/// removed.
pub open spec fn queue_without(q: Seq<u32>, id: u32) -> Seq<u32> {
    q.remove(q.index_of(id))
}

/// One side with this id removed from its level at this price; the level is
/// pruned if that leaves it empty.
pub open spec fn remove_entry_from_levels(ls: Seq<(u64, Seq<u32>)>, price: u64, id: u32) -> Seq<
    (u64, Seq<u32>),
> {
    let i = level_index_of(ls, price);
    let q2 = queue_without(ls[i].1, id);
    if q2.len() == 0 {
        ls.remove(i)
    } else {
        ls.update(i, (price, q2))
    }
}

/// Functional model of unlinking an active order from the one queue that
/// holds it; a stop order rests in no queue.
pub open spec fn remove_order_model(bv: BookView, id: u32) -> BookView {
    let o = bv.orders[id];
    match o.order_type {
        OrderType::Limit(p) => if o.side == OrderSide::Buy {
            BookView { bids: remove_entry_from_levels(bv.bids, p, id), ..bv }
        } else {
            BookView { asks: remove_entry_from_levels(bv.asks, p, id), ..bv }
        },
        OrderType::Market => if o.side == OrderSide::Buy {
            BookView { market_bids: queue_without(bv.market_bids, id), ..bv }
        } else {
            BookView { market_asks: queue_without(bv.market_asks, id), ..bv }
        },
        OrderType::Stop(_) => bv,
    }
}

/// Functional model of a cancel request: an unknown id is an error; an order
/// already canceled or fully filled reports its current status and nothing
/// changes; otherwise the order is marked canceled and unlinked.
pub open spec fn cancel_model(bv: BookView, order_id: u32) -> (
    BookView,
    Result<OrderStatus, InvalidOrderId>,
) {
    if !bv.orders.contains_key(order_id) {
        (bv, Err(InvalidOrderId))
    } else {
        let o = bv.orders[order_id];
        if o.is_canceled || o.remaining_quantity == 0 {
            (bv, Ok(o.spec_status()))
        } else {
            let o2 = Order { is_canceled: true, ..o };
            let bv2 = BookView { orders: bv.orders.insert(order_id, o2), ..bv };
            (remove_order_model(bv2, order_id), Ok(OrderStatus::Canceled(order_id)))
        }
    }
}

/// Removing the only occurrence of an id keeps every other id in place.
proof fn lemma_queue_without(q: Seq<u32>, id: u32)
    requires
        no_dup(q),
        q.contains(id),
    ensures
        ({
            let q2 = queue_without(q, id);
            &&& q2.len() == q.len() - 1
            &&& no_dup(q2)
            &&& !q2.contains(id)
            &&& forall|id2: u32| id2 != id ==> q2.contains(id2) == q.contains(id2)
            &&& forall|k: int| 0 <= k < q2.len() ==> q.contains(#[trigger] q2[k])
        }),
{
    let j = q.index_of(id);
    assert(0 <= j < q.len() && q[j] == id) by {
        let w = choose|w: int| 0 <= w < q.len() && q[w] == id;
        assert(q[w] == id);
    }
    let q2 = queue_without(q, id);
    assert(forall|k: int| 0 <= k < j ==> q2[k] == q[k]);
    assert(forall|k: int| j <= k < q2.len() ==> q2[k] == q[k + 1]);
    assert(no_dup(q2)) by {
        assert forall|k1: int, k2: int| 0 <= k1 < k2 < q2.len() implies q2[k1] != q2[k2] by {
            let m1: int = if k1 < j {
                k1
            } else {
                k1 + 1
            };
            let m2: int = if k2 < j {
                k2
            } else {
                k2 + 1
            };
            assert(q2[k1] == q[m1] && q2[k2] == q[m2]);
        }
    }
    assert(!q2.contains(id)) by {
        if q2.contains(id) {
            let k = choose|k: int| 0 <= k < q2.len() && q2[k] == id;
            let m: int = if k < j {
                k
            } else {
                k + 1
            };
            assert(q[m] == id && q[j] == id && m != j);
        }
    }
    assert forall|id2: u32| id2 != id implies q2.contains(id2) == q.contains(id2) by {
        if q.contains(id2) {
            let w = choose|w: int| 0 <= w < q.len() && q[w] == id2;
            assert(w != j);
            if w < j {
                assert(q2[w] == id2);
            } else {
                assert(q2[w - 1] == id2);
            }
            assert(q2.contains(id2));
        }
        if q2.contains(id2) {
            let k = choose|k: int| 0 <= k < q2.len() && q2[k] == id2;
            let m: int = if k < j {
                k
            } else {
                k + 1
            };
            assert(q[m] == id2);
            assert(q.contains(id2));
        }
    }
    assert forall|k: int| 0 <= k < q2.len() implies q.contains(#[trigger] q2[k]) by {
        let m: int = if k < j {
            k
        } else {
            k + 1
        };
        assert(q2[k] == q[m]);
    }
}

/// Entries of a side after one id is removed: the id is gone, every other
/// entry stays exactly where it was, and no price appears that was not there.
proof fn lemma_remove_entry_side(ls: Seq<(u64, Seq<u32>)>, p: u64, id: u32)
    requires
        sorted_levels(ls),
        levels_nonempty(ls),
        levels_no_dup(ls),
        level_entry(ls, p, id),
        forall|p2: u64| #[trigger] level_entry(ls, p2, id) ==> p2 == p,
    ensures
        ({
            let ls2 = remove_entry_from_levels(ls, p, id);
            &&& sorted_levels(ls2)
            &&& levels_nonempty(ls2)
            &&& levels_no_dup(ls2)
            &&& forall|p2: u64, id2: u32|
                #[trigger] level_entry(ls2, p2, id2) ==> id2 != id && level_entry(ls, p2, id2)
            &&& forall|p2: u64, id2: u32|
                #[trigger] level_entry(ls, p2, id2) && id2 != id ==> level_entry(ls2, p2, id2)
            &&& forall|i: int|
                0 <= i < ls2.len() ==> exists|ii: int|
                    0 <= ii < ls.len() && (#[trigger] ls2[i]).0 == ls[ii].0
        }),
{
    let i = level_index_of(ls, p);
    assert(0 <= i < ls.len() && ls[i].0 == p) by {
        let w = choose|w: int|
            0 <= w < ls.len() && (#[trigger] ls[w]).0 == p && ls[w].1.contains(id);
        assert(ls[w].0 == p);
    }
    assert(ls[i].1.contains(id)) by {
        let w = choose|w: int|
            0 <= w < ls.len() && (#[trigger] ls[w]).0 == p && ls[w].1.contains(id);
        if w != i {
            if w < i {
                assert(ls[w].0 < ls[i].0);
            } else {
                assert(ls[i].0 < ls[w].0);
            }
        }
    }
    // the id rests on no other level of this side
    assert forall|m: int| 0 <= m < ls.len() && m != i implies !(#[trigger] ls[m]).1.contains(
        id,
    ) by {
        if ls[m].1.contains(id) {
            assert(level_entry(ls, ls[m].0, id));
            if m < i {
                assert(ls[m].0 < ls[i].0);
            } else {
                assert(ls[i].0 < ls[m].0);
            }
        }
    }
    lemma_queue_without(ls[i].1, id);
    let q2 = queue_without(ls[i].1, id);
    let ls2 = remove_entry_from_levels(ls, p, id);
    if q2.len() == 0 {
        assert(ls2 == ls.remove(i));
        assert forall|p2: u64, id2: u32| #[trigger] level_entry(ls2, p2, id2) implies id2 != id
            && level_entry(ls, p2, id2) by {
            let k = choose|k: int|
                0 <= k < ls2.len() && (#[trigger] ls2[k]).0 == p2 && ls2[k].1.contains(id2);
            let m: int = if k < i {
                k
            } else {
                k + 1
            };
            assert(ls2[k] == ls[m]);
            assert(level_entry(ls, p2, id2));
        }
        assert forall|p2: u64, id2: u32|
            #[trigger] level_entry(ls, p2, id2) && id2 != id implies level_entry(ls2, p2, id2) by {
            let w = choose|w: int|
                0 <= w < ls.len() && (#[trigger] ls[w]).0 == p2 && ls[w].1.contains(id2);
            if w == i {
                // the pruned level held only the removed id
                assert(ls[i].1.contains(id2));
                assert(false);
            } else {
                let k: int = if w < i {
                    w
                } else {
                    w - 1
                };
                assert(ls2[k] == ls[w]);
            }
        }
        assert forall|k: int| 0 <= k < ls2.len() implies exists|ii: int|
            0 <= ii < ls.len() && (#[trigger] ls2[k]).0 == ls[ii].0 by {
            let m: int = if k < i {
                k
            } else {
                k + 1
            };
            assert(ls2[k] == ls[m]);
            assert(0 <= m < ls.len() && ls2[k].0 == ls[m].0);
        }
    } else {
        assert(ls2 == ls.update(i, (p, q2)));
        assert(levels_no_dup(ls2)) by {
            assert forall|k: int| 0 <= k < ls2.len() implies no_dup(#[trigger] ls2[k].1) by {
                if k != i {
                    assert(ls2[k] == ls[k]);
                }
            }
        }
        assert forall|p2: u64, id2: u32| #[trigger] level_entry(ls2, p2, id2) implies id2 != id
            && level_entry(ls, p2, id2) by {
            let k = choose|k: int|
                0 <= k < ls2.len() && (#[trigger] ls2[k]).0 == p2 && ls2[k].1.contains(id2);
            if k == i {
                assert(q2.contains(id2));
                assert(ls[i].1.contains(id2));
                assert(ls[i].0 == p2 && ls[i].1.contains(id2));
            } else {
                assert(ls2[k] == ls[k]);
            }
        }
        assert forall|p2: u64, id2: u32|
            #[trigger] level_entry(ls, p2, id2) && id2 != id implies level_entry(ls2, p2, id2) by {
            let w = choose|w: int|
                0 <= w < ls.len() && (#[trigger] ls[w]).0 == p2 && ls[w].1.contains(id2);
            if w == i {
                assert(q2.contains(id2));
                assert(ls2[i].0 == p2 && ls2[i].1.contains(id2));
            } else {
                assert(ls2[w] == ls[w]);
            }
        }
        assert forall|k: int| 0 <= k < ls2.len() implies exists|ii: int|
            0 <= ii < ls.len() && (#[trigger] ls2[k]).0 == ls[ii].0 by {
            if k == i {
                assert(0 <= i < ls.len() && ls2[k].0 == ls[i].0);
            } else {
                assert(0 <= k < ls.len() && ls2[k].0 == ls[k].0);
            }
        }
    }
}

/// A cancel, however it resolves, preserves the book invariant.
#[verifier::rlimit(100)]
pub proof fn lemma_cancel_model_wf(bv: BookView, order_id: u32)
    requires
        bv.wf(),
    ensures
        cancel_model(bv, order_id).0.wf(),
        cancel_model(bv, order_id).0.orders.dom() == bv.orders.dom(),
{
    assert(cancel_model(bv, order_id).0.orders.dom() =~= bv.orders.dom());
    if bv.orders.contains_key(order_id) {
        let o = bv.orders[order_id];
        if !(o.is_canceled || o.remaining_quantity == 0) {
            let o2 = Order { is_canceled: true, ..o };
            let m2 = bv.orders.insert(order_id, o2);
            let bvm = BookView { orders: m2, ..bv };
            let bv2 = remove_order_model(bvm, order_id);
            match o.order_type {
                OrderType::Stop(_) => {
                    // nothing is queued; only the index entry changes
                    assert(bv2 == bvm);
                    assert(levels_ok(m2, OrderSide::Buy, bv.bids)) by {
                        assert forall|i: int, j: int|
                            0 <= i < bv.bids.len() && 0 <= j < bv.bids[i].1.len() implies {
                            &&& resting_ok(m2, #[trigger] bv.bids[i].1[j])
                            &&& m2[bv.bids[i].1[j]].side == OrderSide::Buy
                            &&& m2[bv.bids[i].1[j]].order_type == OrderType::Limit(bv.bids[i].0)
                        } by {
                            assert(resting_ok(bv.orders, bv.bids[i].1[j]));
                            assert(bv.bids[i].1[j] != order_id);
                        }
                    }
                    assert(levels_ok(m2, OrderSide::Sell, bv.asks)) by {
                        assert forall|i: int, j: int|
                            0 <= i < bv.asks.len() && 0 <= j < bv.asks[i].1.len() implies {
                            &&& resting_ok(m2, #[trigger] bv.asks[i].1[j])
                            &&& m2[bv.asks[i].1[j]].side == OrderSide::Sell
                            &&& m2[bv.asks[i].1[j]].order_type == OrderType::Limit(bv.asks[i].0)
                        } by {
                            assert(resting_ok(bv.orders, bv.asks[i].1[j]));
                            assert(bv.asks[i].1[j] != order_id);
                        }
                    }
                    assert(market_queue_ok(m2, OrderSide::Buy, bv.market_bids)) by {
                        assert forall|j: int|
                            0 <= j < bv.market_bids.len() implies {
                            &&& resting_ok(m2, #[trigger] bv.market_bids[j])
                            &&& m2[bv.market_bids[j]].side == OrderSide::Buy
                            &&& m2[bv.market_bids[j]].order_type == OrderType::Market
                        } by {
                            assert(resting_ok(bv.orders, bv.market_bids[j]));
                            assert(bv.market_bids[j] != order_id);
                        }
                    }
                    assert(market_queue_ok(m2, OrderSide::Sell, bv.market_asks)) by {
                        assert forall|j: int|
                            0 <= j < bv.market_asks.len() implies {
                            &&& resting_ok(m2, #[trigger] bv.market_asks[j])
                            &&& m2[bv.market_asks[j]].side == OrderSide::Sell
                            &&& m2[bv.market_asks[j]].order_type == OrderType::Market
                        } by {
                            assert(resting_ok(bv.orders, bv.market_asks[j]));
                            assert(bv.market_asks[j] != order_id);
                        }
                    }
                    assert(active_orders_queued(bv2)) by {
                        assert forall|id2: u32|
                            #[trigger] bv2.orders.contains_key(id2) && !bv2.orders[id2].is_canceled
                                && bv2.orders[id2].remaining_quantity > 0 implies (
                        match bv2.orders[id2].order_type {
                            OrderType::Limit(q) => if bv2.orders[id2].side == OrderSide::Buy {
                                level_entry(bv2.bids, q, id2)
                            } else {
                                level_entry(bv2.asks, q, id2)
                            },
                            OrderType::Market => if bv2.orders[id2].side == OrderSide::Buy {
                                bv2.market_bids.contains(id2)
                            } else {
                                bv2.market_asks.contains(id2)
                            },
                            OrderType::Stop(_) => true,
                        }) by {
                            assert(id2 != order_id);
                            assert(bv2.orders[id2] == bv.orders[id2]);
                        }
                    }
                },
                OrderType::Limit(p) => {
                    let side = o.side;
                    let ls = if side == OrderSide::Buy {
                        bv.bids
                    } else {
                        bv.asks
                    };
                    assert(level_entry(ls, p, order_id));
                    assert forall|p2: u64| #[trigger] level_entry(ls, p2, order_id) implies p2
                        == p by {
                        let w = choose|w: int|
                            0 <= w < ls.len() && (#[trigger] ls[w]).0 == p2 && ls[w].1.contains(
                                order_id,
                            );
                        let jw = choose|jw: int|
                            0 <= jw < ls[w].1.len() && ls[w].1[jw] == order_id;
                        assert(bv.orders[order_id].order_type == OrderType::Limit(ls[w].0));
                    }
                    lemma_remove_entry_side(ls, p, order_id);
                    let ls2 = remove_entry_from_levels(ls, p, order_id);
                    assert(levels_ok(m2, side, ls2)) by {
                        assert forall|i: int, j: int|
                            0 <= i < ls2.len() && 0 <= j < ls2[i].1.len() implies {
                            &&& resting_ok(m2, #[trigger] ls2[i].1[j])
                            &&& m2[ls2[i].1[j]].side == side
                            &&& m2[ls2[i].1[j]].order_type == OrderType::Limit(ls2[i].0)
                        } by {
                            let id2 = ls2[i].1[j];
                            assert(ls2[i].1.contains(id2));
                            assert(level_entry(ls2, ls2[i].0, id2));
                            assert(id2 != order_id && level_entry(ls, ls2[i].0, id2));
                            let w = choose|w: int|
                                0 <= w < ls.len() && (#[trigger] ls[w]).0 == ls2[i].0
                                    && ls[w].1.contains(id2);
                            let jw = choose|jw: int|
                                0 <= jw < ls[w].1.len() && ls[w].1[jw] == id2;
                            assert(resting_ok(bv.orders, id2));
                        }
                    }
                    let other = if side == OrderSide::Buy {
                        bv.asks
                    } else {
                        bv.bids
                    };
                    let other_side = if side == OrderSide::Buy {
                        OrderSide::Sell
                    } else {
                        OrderSide::Buy
                    };
                    assert(levels_ok(m2, other_side, other)) by {
                        assert forall|i: int, j: int|
                            0 <= i < other.len() && 0 <= j < other[i].1.len() implies {
                            &&& resting_ok(m2, #[trigger] other[i].1[j])
                            &&& m2[other[i].1[j]].side == other_side
                            &&& m2[other[i].1[j]].order_type == OrderType::Limit(other[i].0)
                        } by {
                            assert(resting_ok(bv.orders, other[i].1[j]));
                            assert(other[i].1[j] != order_id);
                        }
                    }
                    assert(market_queue_ok(m2, OrderSide::Buy, bv.market_bids)) by {
                        assert forall|j: int|
                            0 <= j < bv.market_bids.len() implies {
                            &&& resting_ok(m2, #[trigger] bv.market_bids[j])
                            &&& m2[bv.market_bids[j]].side == OrderSide::Buy
                            &&& m2[bv.market_bids[j]].order_type == OrderType::Market
                        } by {
                            assert(resting_ok(bv.orders, bv.market_bids[j]));
                            assert(bv.market_bids[j] != order_id);
                        }
                    }
                    assert(market_queue_ok(m2, OrderSide::Sell, bv.market_asks)) by {
                        assert forall|j: int|
                            0 <= j < bv.market_asks.len() implies {
                            &&& resting_ok(m2, #[trigger] bv.market_asks[j])
                            &&& m2[bv.market_asks[j]].side == OrderSide::Sell
                            &&& m2[bv.market_asks[j]].order_type == OrderType::Market
                        } by {
                            assert(resting_ok(bv.orders, bv.market_asks[j]));
                            assert(bv.market_asks[j] != order_id);
                        }
                    }
                    if side == OrderSide::Buy {
                        lemma_crossed_lower_subset(bv.bids, bv.asks, ls2);
                    } else {
                        lemma_crossed_upper_subset(bv.bids, bv.asks, ls2);
                    }
                    assert(active_orders_queued(bv2)) by {
                        assert forall|id2: u32|
                            #[trigger] bv2.orders.contains_key(id2) && !bv2.orders[id2].is_canceled
                                && bv2.orders[id2].remaining_quantity > 0 implies (
                        match bv2.orders[id2].order_type {
                            OrderType::Limit(q) => if bv2.orders[id2].side == OrderSide::Buy {
                                level_entry(bv2.bids, q, id2)
                            } else {
                                level_entry(bv2.asks, q, id2)
                            },
                            OrderType::Market => if bv2.orders[id2].side == OrderSide::Buy {
                                bv2.market_bids.contains(id2)
                            } else {
                                bv2.market_asks.contains(id2)
                            },
                            OrderType::Stop(_) => true,
                        }) by {
                            assert(id2 != order_id);
                            assert(bv2.orders[id2] == bv.orders[id2]);
                        }
                    }
                },
                OrderType::Market => {
                    let side = o.side;
                    let mq = if side == OrderSide::Buy {
                        bv.market_bids
                    } else {
                        bv.market_asks
                    };
                    assert(mq.contains(order_id));
                    lemma_queue_without(mq, order_id);
                    let mq2 = queue_without(mq, order_id);
                    assert(market_queue_ok(m2, side, mq2)) by {
                        assert forall|j: int|
                            0 <= j < mq2.len() implies {
                            &&& resting_ok(m2, #[trigger] mq2[j])
                            &&& m2[mq2[j]].side == side
                            &&& m2[mq2[j]].order_type == OrderType::Market
                        } by {
                            assert(mq.contains(mq2[j]));
                            let w = choose|w: int| 0 <= w < mq.len() && mq[w] == mq2[j];
                            assert(resting_ok(bv.orders, mq[w]));
                            assert(mq2[j] != order_id);
                        }
                    }
                    let other_mq = if side == OrderSide::Buy {
                        bv.market_asks
                    } else {
                        bv.market_bids
                    };
                    let other_side = if side == OrderSide::Buy {
                        OrderSide::Sell
                    } else {
                        OrderSide::Buy
                    };
                    assert(market_queue_ok(m2, other_side, other_mq)) by {
                        assert forall|j: int|
                            0 <= j < other_mq.len() implies {
                            &&& resting_ok(m2, #[trigger] other_mq[j])
                            &&& m2[other_mq[j]].side == other_side
                            &&& m2[other_mq[j]].order_type == OrderType::Market
                        } by {
                            assert(resting_ok(bv.orders, other_mq[j]));
                            assert(other_mq[j] != order_id);
                        }
                    }
                    assert(levels_ok(m2, OrderSide::Buy, bv.bids)) by {
                        assert forall|i: int, j: int|
                            0 <= i < bv.bids.len() && 0 <= j < bv.bids[i].1.len() implies {
                            &&& resting_ok(m2, #[trigger] bv.bids[i].1[j])
                            &&& m2[bv.bids[i].1[j]].side == OrderSide::Buy
                            &&& m2[bv.bids[i].1[j]].order_type == OrderType::Limit(bv.bids[i].0)
                        } by {
                            assert(resting_ok(bv.orders, bv.bids[i].1[j]));
                            assert(bv.bids[i].1[j] != order_id);
                        }
                    }
                    assert(levels_ok(m2, OrderSide::Sell, bv.asks)) by {
                        assert forall|i: int, j: int|
                            0 <= i < bv.asks.len() && 0 <= j < bv.asks[i].1.len() implies {
                            &&& resting_ok(m2, #[trigger] bv.asks[i].1[j])
                            &&& m2[bv.asks[i].1[j]].side == OrderSide::Sell
                            &&& m2[bv.asks[i].1[j]].order_type == OrderType::Limit(bv.asks[i].0)
                        } by {
                            assert(resting_ok(bv.orders, bv.asks[i].1[j]));
                            assert(bv.asks[i].1[j] != order_id);
                        }
                    }
                    assert(active_orders_queued(bv2)) by {
                        assert forall|id2: u32|
                            #[trigger] bv2.orders.contains_key(id2) && !bv2.orders[id2].is_canceled
                                && bv2.orders[id2].remaining_quantity > 0 implies (
                        match bv2.orders[id2].order_type {
                            OrderType::Limit(q) => if bv2.orders[id2].side == OrderSide::Buy {
                                level_entry(bv2.bids, q, id2)
                            } else {
                                level_entry(bv2.asks, q, id2)
                            },
                            OrderType::Market => if bv2.orders[id2].side == OrderSide::Buy {
                                bv2.market_bids.contains(id2)
                            } else {
                                bv2.market_asks.contains(id2)
                            },
                            OrderType::Stop(_) => true,
                        }) by {
                            assert(id2 != order_id);
                            assert(bv2.orders[id2] == bv.orders[id2]);
                        }
                    }
                },
            }
        }
    }
}

/// An unbounded quantity clamped into a `u64`.
pub open spec fn sat_u64(x: int) -> u64 {
    if x > u64::MAX {
        u64::MAX
    } else if x < 0 {
        0u64
    } else {
        x as u64
    }
}

/// The top of the book: best bid price and aggregate resting size, best ask
/// price and aggregate resting size; an empty side reports zeroes.
pub open spec fn top_of_book(bv: BookView) -> (u64, u64, u64, u64) {
    let bid: (u64, u64) = if bv.bids.len() == 0 {
        (0u64, 0u64)
    } else {
        (bv.bids.last().0, sat_u64(queue_rem_sum(bv.orders, bv.bids.last().1)))
    };
    let ask: (u64, u64) = if bv.asks.len() == 0 {
        (0u64, 0u64)
    } else {
        (bv.asks.first().0, sat_u64(queue_rem_sum(bv.orders, bv.asks.first().1)))
    };
    (bid.0, bid.1, ask.0, ask.1)
}

/// The total resting quantity is never negative.
proof fn lemma_queue_rem_sum_nonneg(m: Map<u32, Order>, q: Seq<u32>)
    ensures
        queue_rem_sum(m, q) >= 0,
    decreases q.len(),
{
    if q.len() > 0 {
        lemma_queue_rem_sum_nonneg(m, q.drop_first());
    }
}

/// The prefix sum grows by the next order's remainder.
proof fn lemma_queue_rem_sum_take(m: Map<u32, Order>, q: Seq<u32>, k: int)
    requires
        0 <= k < q.len(),
    ensures
        queue_rem_sum(m, q.take(k + 1)) == queue_rem_sum(m, q.take(k))
            + m[q[k]].remaining_quantity,
    decreases k,
{
    if k == 0 {
        assert(q.take(1).drop_first() =~= q.take(0));
        assert(q.take(0).len() == 0);
    } else {
        lemma_queue_rem_sum_take(m, q.drop_first(), k - 1);
        assert(q.take(k + 1).drop_first() =~= q.drop_first().take(k));
        assert(q.take(k).drop_first() =~= q.drop_first().take(k - 1));
        assert(q.take(k + 1)[0] == q[0] && q.take(k)[0] == q[0]);
        assert(q.drop_first()[k - 1] == q[k]);
    }
}

/// One side's levels with the empty ones dropped, in order.
pub open spec fn prune_levels(ls: Seq<(u64, Seq<u32>)>) -> Seq<(u64, Seq<u32>)>
    decreases ls.len(),
{
    if ls.len() == 0 {
        ls
    } else {
        let rest = prune_levels(ls.drop_first());
        if ls[0].1.len() > 0 {
            seq![ls[0]] + rest
        } else {
            rest
        }
    }
}

/// Pruning a prefix extends by one element at a time.
proof fn lemma_prune_take(ls: Seq<(u64, Seq<u32>)>, k: int)
    requires
        0 <= k < ls.len(),
    ensures
        prune_levels(ls.take(k + 1)) == if ls[k].1.len() > 0 {
            prune_levels(ls.take(k)) + seq![ls[k]]
        } else {
            prune_levels(ls.take(k))
        },
    decreases k,
{
    if k == 0 {
        assert(ls.take(1).drop_first() =~= ls.take(0));
        if ls[0].1.len() > 0 {
            assert(prune_levels(ls.take(1)) =~= prune_levels(ls.take(0)) + seq![ls[0]]);
        }
    } else {
        lemma_prune_take(ls.drop_first(), k - 1);
        assert(ls.take(k + 1).drop_first() =~= ls.drop_first().take(k));
        assert(ls.take(k).drop_first() =~= ls.drop_first().take(k - 1));
        assert(ls.take(k + 1)[0] == ls[0] && ls.take(k)[0] == ls[0]);
        assert(ls.drop_first()[k - 1] == ls[k]);
        if ls[0].1.len() > 0 {
            if ls[k].1.len() > 0 {
                assert(prune_levels(ls.take(k + 1)) =~= prune_levels(ls.take(k)) + seq![ls[k]]);
            }
        } else {
            if ls[k].1.len() > 0 {
                assert(prune_levels(ls.take(k + 1)) =~= prune_levels(ls.take(k)) + seq![ls[k]]);
            }
        }
    }
}

/// LAW (level pruning): on a well-formed side, pruning changes nothing, since
/// no level is kept with an empty queue.
pub proof fn lemma_prune_nonempty(ls: Seq<(u64, Seq<u32>)>)
    requires
        levels_nonempty(ls),
    ensures
        prune_levels(ls) == ls,
    decreases ls.len(),
{
    if ls.len() > 0 {
        assert(forall|i: int| 0 <= i < ls.drop_first().len() ==> ls.drop_first()[i] == ls[i + 1]);
        lemma_prune_nonempty(ls.drop_first());
        assert(seq![ls[0]] + ls.drop_first() =~= ls);
    }
}

/// LAW (no crossed book): in any well-formed book with liquidity on both
/// sides, the best bid is priced strictly below the best ask. Every public
/// mutation of a book guarantees a well-formed book, so this holds after any
/// sequence of operations.
pub proof fn lemma_no_crossed_book(bv: BookView)
    requires
        bv.wf(),
        bv.bids.len() > 0,
        bv.asks.len() > 0,
    ensures
        bv.bids.last().0 < bv.asks.first().0,
{
    assert(bv.bids[bv.bids.len() - 1].0 < bv.asks[0].0);
}

/// LAW (level pruning): in any well-formed book, no price level rests with an
/// empty queue; an emptied level is absent from the side's level sequence.
pub proof fn lemma_no_empty_levels(bv: BookView)
    requires
        bv.wf(),
    ensures
        forall|i: int| 0 <= i < bv.bids.len() ==> (#[trigger] bv.bids[i]).1.len() > 0,
        forall|i: int| 0 <= i < bv.asks.len() ==> (#[trigger] bv.asks[i]).1.len() > 0,
{
}

/// LAW (idempotent cancel): canceling an order already canceled or already
/// fully filled reports its current terminal status and changes nothing.
pub proof fn lemma_cancel_idempotent(bv: BookView, order_id: u32)
    requires
        bv.orders.contains_key(order_id),
        bv.orders[order_id].is_canceled || bv.orders[order_id].remaining_quantity == 0,
    ensures
        cancel_model(bv, order_id).0 == bv,
        cancel_model(bv, order_id).1 == Ok::<OrderStatus, InvalidOrderId>(
            bv.orders[order_id].spec_status(),
        ),
{
}

/// A status or cancel request named an order id this book never saw.
#[derive(Debug, Clone, Copy, PartialEq, Eq, Structural)]
pub struct InvalidOrderId;

/// The resting liquidity for one instrument.
pub struct OrderBook {
    symbol: Symbol,
    pub bids: Vec<PriceLevel>,
    pub asks: Vec<PriceLevel>,
    pub market_bids: Vec<u32>,
    pub market_asks: Vec<u32>,
    orders: HashMap<u32, Order>,
}

impl View for OrderBook {
    type V = BookView;

    closed spec fn view(&self) -> BookView {
        BookView {
            bids: levels_view(self.bids@),
            asks: levels_view(self.asks@),
            market_bids: self.market_bids@,
            market_asks: self.market_asks@,
            orders: self.orders@,
        }
    }
}

impl OrderBook {
    pub closed spec fn spec_symbol(&self) -> Symbol {
        self.symbol
    }

    /// The instrument this book trades.
    pub fn symbol(&self) -> (r: &Symbol)
        ensures
            *r == self.spec_symbol(),
    {
        &self.symbol
    }

    /// A fresh copy of the instrument identity, equal ticker for ticker.
    pub fn symbol_owned(&self) -> (r: Symbol)
        ensures
            r@ == self.spec_symbol()@,
    {
        Symbol::new(self.symbol.ticker().clone())
    }

    pub fn new(symbol: Symbol) -> (r: OrderBook)
        ensures
            r@.bids == Seq::<(u64, Seq<u32>)>::empty(),
            r@.asks == Seq::<(u64, Seq<u32>)>::empty(),
            r@.market_bids == Seq::<u32>::empty(),
            r@.market_asks == Seq::<u32>::empty(),
            r@.orders == Map::<u32, Order>::empty(),
            r@.wf(),
            r.spec_symbol() == symbol,
    {
        let r = OrderBook {
            symbol,
            bids: Vec::new(),
            asks: Vec::new(),
            market_bids: Vec::new(),
            market_asks: Vec::new(),
            orders: HashMap::new(),
        };
        proof {
            assert(levels_view(r.bids@) =~= Seq::<(u64, Seq<u32>)>::empty());
            assert(levels_view(r.asks@) =~= Seq::<(u64, Seq<u32>)>::empty());
        }
        r
    }

    /// Looks up the current status of an order by id; pure, mutates nothing.
    pub fn status(&self, order_id: u32) -> (r: Result<OrderStatus, InvalidOrderId>)
        requires
            self@.wf(),
        ensures
            self@.orders.contains_key(order_id) ==> r == Ok::<OrderStatus, InvalidOrderId>(
                self@.orders[order_id].spec_status(),
            ),
            !self@.orders.contains_key(order_id) ==> r == Err::<OrderStatus, InvalidOrderId>(
                InvalidOrderId,
            ),
    {
        match self.orders.get(&order_id) {
            Some(order) => Ok(order.get_status_based_on_fill()),
            None => Err(InvalidOrderId),
        }
    }
}

} // verus!
