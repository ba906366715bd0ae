//! Inductive facts about the model of [`crate::book_model`] that the
//! executable book and the stated laws rely on.

use vstd::prelude::*;

use crate::book_model::{
    better, crosses, fills_volume, inv, level_pos, level_wf, opposite, orders_count_id,
    orders_qty_of_id,
    orders_remove_id, orders_volume, remove_ids, rest_insert, side_cancel, side_levels,
    side_order_count, side_volume, sweep, BookRec, FillRec, LevelRec, OrderRec, SweepRec,
};
use crate::order::OrderSide;

verus! {

/// A queue of positive quantities has a non-negative sum, positive as
/// soon as the queue is non-empty.
pub proof fn lemma_orders_volume_pos(orders: Seq<OrderRec>)
    requires
        forall|j: int| 0 <= j < orders.len() ==> (#[trigger] orders[j]).qty > 0,
    ensures
        orders_volume(orders) >= 0,
        orders.len() > 0 ==> orders_volume(orders) > 0,
    decreases orders.len(),
{
    if orders.len() > 0 {
        lemma_orders_volume_pos(orders.drop_first());
    }
}

/// A side whose orders all have positive quantity has a non-negative sum.
pub proof fn lemma_side_volume_nonneg(levels: Seq<LevelRec>)
    requires
        forall|i: int, j: int|
            0 <= i < levels.len() && 0 <= j < levels[i].orders.len() ==> (#[trigger] levels[i].orders[j]).qty
                > 0,
    ensures
        side_volume(levels) >= 0,
        levels.len() > 0 ==> side_volume(levels) >= orders_volume(levels[0].orders),
    decreases levels.len(),
{
    if levels.len() > 0 {
        assert(forall|j: int|
            0 <= j < levels[0].orders.len() ==> (#[trigger] levels[0].orders[j]).qty > 0);
        lemma_orders_volume_pos(levels[0].orders);
        lemma_side_volume_nonneg(levels.drop_first());
    }
}

/// The number of resting orders on a side is never negative.
pub proof fn lemma_side_order_count_nonneg(levels: Seq<LevelRec>)
    ensures
        side_order_count(levels) >= 0,
    decreases levels.len(),
{
    if levels.len() > 0 {
        lemma_side_order_count_nonneg(levels.drop_first());
    }
}

/// Removing the keys of `ids` and then one more key is removing the keys
/// of `ids.push(id)`.
pub proof fn lemma_remove_ids_push(m: Map<u64, (OrderSide, int)>, ids: Seq<u64>, id: u64)
    ensures
        remove_ids(m, ids.push(id)) == remove_ids(m, ids).remove(id),
    decreases ids.len(),
{
    if ids.len() == 0 {
        assert(ids.push(id).drop_first() =~= Seq::<u64>::empty());
        assert(remove_ids(m.remove(id), Seq::empty()) == m.remove(id));
    } else {
        assert(ids.push(id)[0] == ids[0]);
        assert(ids.push(id).drop_first() =~= ids.drop_first().push(id));
        lemma_remove_ids_push(m.remove(ids[0]), ids.drop_first(), id);
    }
}

/// Appending one fill adds its quantity to the sum of the sequence.
pub proof fn lemma_fills_volume_push(fills: Seq<FillRec>, f: FillRec)
    ensures
        fills_volume(fills.push(f)) == fills_volume(fills) + f.qty,
    decreases fills.len(),
{
    if fills.len() == 0 {
        assert(fills.push(f)[0] == f);
        assert(fills.push(f).drop_first() =~= Seq::<FillRec>::empty());
        assert(fills_volume(fills.push(f)) == f.qty + fills_volume(Seq::empty()));
    } else {
        assert(fills.push(f)[0] == fills[0]);
        assert(fills.push(f).drop_first() =~= fills.drop_first().push(f));
        lemma_fills_volume_push(fills.drop_first(), f);
        assert(fills_volume(fills.push(f)) == fills[0].qty + fills_volume(
            fills.drop_first().push(f)));
        assert(fills_volume(fills) == fills[0].qty + fills_volume(fills.drop_first()));
    }
}

/// Appending one order to a queue adds one to the count of its id and
/// nothing to any other count.
pub proof fn lemma_count_id_push(orders: Seq<OrderRec>, o: OrderRec, id: u64)
    ensures
        orders_count_id(orders.push(o), id) == orders_count_id(orders, id) + (if o.id == id {
            1int
        } else {
            0int
        }),
    decreases orders.len(),
{
    if orders.len() == 0 {
        assert(orders.push(o)[0] == o);
        assert(orders.push(o).drop_first() =~= Seq::<OrderRec>::empty());
        assert(orders_count_id(orders.push(o), id) == (if o.id == id {
            1int
        } else {
            0int
        }) + orders_count_id(Seq::empty(), id));
    } else {
        assert(orders.push(o)[0] == orders[0]);
        assert(orders.push(o).drop_first() =~= orders.drop_first().push(o));
        lemma_count_id_push(orders.drop_first(), o, id);
        assert(orders_count_id(orders.push(o), id) == (if orders[0].id == id {
            1int
        } else {
            0int
        }) + orders_count_id(orders.drop_first().push(o), id));
        assert(orders_count_id(orders, id) == (if orders[0].id == id {
            1int
        } else {
            0int
        }) + orders_count_id(orders.drop_first(), id));
    }
}

/// Appending one order to a queue adds its quantity to the sum.
pub proof fn lemma_orders_volume_push(orders: Seq<OrderRec>, o: OrderRec)
    ensures
        orders_volume(orders.push(o)) == orders_volume(orders) + o.qty,
    decreases orders.len(),
{
    if orders.len() == 0 {
        assert(orders.push(o)[0] == o);
        assert(orders.push(o).drop_first() =~= Seq::<OrderRec>::empty());
        assert(orders_volume(orders.push(o)) == o.qty + orders_volume(Seq::empty()));
    } else {
        assert(orders.push(o)[0] == orders[0]);
        assert(orders.push(o).drop_first() =~= orders.drop_first().push(o));
        lemma_orders_volume_push(orders.drop_first(), o);
        assert(orders_volume(orders.push(o)) == orders[0].qty + orders_volume(
            orders.drop_first().push(o)));
        assert(orders_volume(orders) == orders[0].qty + orders_volume(orders.drop_first()));
    }
}


/// Replacing one level changes the side volume by the difference of the
/// two level volumes.
pub proof fn lemma_side_volume_update(levels: Seq<LevelRec>, i: int, l: LevelRec)
    requires
        0 <= i < levels.len(),
    ensures
        side_volume(levels.update(i, l)) == side_volume(levels) - orders_volume(levels[i].orders)
            + orders_volume(l.orders),
        side_order_count(levels.update(i, l)) == side_order_count(levels) - levels[i].orders.len()
            + l.orders.len(),
    decreases levels.len(),
{
    let u = levels.update(i, l);
    if i == 0 {
        assert(u.drop_first() =~= levels.drop_first());
    } else {
        assert(u[0] == levels[0]);
        assert(u.drop_first() =~= levels.drop_first().update(i - 1, l));
        lemma_side_volume_update(levels.drop_first(), i - 1, l);
    }
}

/// Inserting one level adds its volume and order count to the side.
pub proof fn lemma_side_volume_insert(levels: Seq<LevelRec>, i: int, l: LevelRec)
    requires
        0 <= i <= levels.len(),
    ensures
        side_volume(levels.insert(i, l)) == side_volume(levels) + orders_volume(l.orders),
        side_order_count(levels.insert(i, l)) == side_order_count(levels) + l.orders.len(),
    decreases levels.len(),
{
    let u = levels.insert(i, l);
    if i == 0 {
        assert(u[0] == l);
        assert(u.drop_first() =~= levels);
    } else {
        assert(u[0] == levels[0]);
        assert(u.drop_first() =~= levels.drop_first().insert(i - 1, l));
        lemma_side_volume_insert(levels.drop_first(), i - 1, l);
    }
}

/// Removing one level takes its volume and order count from the side.
pub proof fn lemma_side_volume_remove(levels: Seq<LevelRec>, i: int)
    requires
        0 <= i < levels.len(),
    ensures
        side_volume(levels.remove(i)) == side_volume(levels) - orders_volume(levels[i].orders),
        side_order_count(levels.remove(i)) == side_order_count(levels) - levels[i].orders.len(),
    decreases levels.len(),
{
    let u = levels.remove(i);
    if i == 0 {
        assert(u =~= levels.drop_first());
    } else {
        assert(u[0] == levels[0]);
        assert(u.drop_first() =~= levels.drop_first().remove(i - 1));
        lemma_side_volume_remove(levels.drop_first(), i - 1);
    }
}

/// Each level's volume is at most the side volume, when all quantities
/// are positive.
pub proof fn lemma_level_volume_le_side(levels: Seq<LevelRec>, i: int)
    requires
        0 <= i < levels.len(),
        forall|k: int, j: int|
            0 <= k < levels.len() && 0 <= j < levels[k].orders.len() ==> (
            #[trigger] levels[k].orders[j]).qty > 0,
    ensures
        orders_volume(levels[i].orders) <= side_volume(levels),
    decreases i,
{
    if i == 0 {
        lemma_side_volume_nonneg(levels.drop_first());
        assert(forall|j: int|
            0 <= j < levels[0].orders.len() ==> (#[trigger] levels[0].orders[j]).qty > 0);
        lemma_orders_volume_pos(levels[0].orders);
    } else {
        lemma_level_volume_le_side(levels.drop_first(), i - 1);
        assert(forall|j: int|
            0 <= j < levels[0].orders.len() ==> (#[trigger] levels[0].orders[j]).qty > 0);
        lemma_orders_volume_pos(levels[0].orders);
    }
}

/// A queue in which no order carries `id` counts zero occurrences of it.
pub proof fn lemma_count_id_zero(orders: Seq<OrderRec>, id: u64)
    requires
        forall|j: int| 0 <= j < orders.len() ==> (#[trigger] orders[j]).id != id,
    ensures
        orders_count_id(orders, id) == 0,
    decreases orders.len(),
{
    if orders.len() > 0 {
        lemma_count_id_zero(orders.drop_first(), id);
    }
}

/// A level search never reports a negative position.
pub proof fn lemma_level_pos_nonneg(levels: Seq<LevelRec>, price: int)
    ensures
        level_pos(levels, price) >= 0,
    decreases levels.len(),
{
    if levels.len() > 0 && levels[0].price != price {
        lemma_level_pos_nonneg(levels.drop_first(), price);
    }
}

/// The first level keyed `price` is found at `i` when the prefix before
/// it holds no such key.
pub proof fn lemma_level_pos_found(levels: Seq<LevelRec>, price: int, i: int)
    requires
        0 <= i < levels.len(),
        forall|k: int| 0 <= k < i ==> (#[trigger] levels[k]).price != price,
        levels[i].price == price,
    ensures
        level_pos(levels, price) == i,
    decreases i,
{
    if i > 0 {
        lemma_level_pos_found(levels.drop_first(), price, i - 1);
    }
}

/// When no level carries `price`, the search runs off the end.
pub proof fn lemma_level_pos_missing(levels: Seq<LevelRec>, price: int)
    requires
        forall|k: int| 0 <= k < levels.len() ==> (#[trigger] levels[k]).price != price,
    ensures
        level_pos(levels, price) == levels.len(),
    decreases levels.len(),
{
    if levels.len() > 0 {
        lemma_level_pos_missing(levels.drop_first(), price);
    }
}

/// Splicing out the first order carrying `id` removes exactly the order
/// at its position, and its quantity is what the lookup reports.
pub proof fn lemma_orders_scan(orders: Seq<OrderRec>, id: u64, j: int)
    requires
        0 <= j < orders.len(),
        forall|k: int| 0 <= k < j ==> (#[trigger] orders[k]).id != id,
        orders[j].id == id,
    ensures
        orders_remove_id(orders, id) == orders.remove(j),
        orders_qty_of_id(orders, id) == orders[j].qty,
    decreases j,
{
    if j == 0 {
        assert(orders.remove(0) =~= orders.drop_first());
    } else {
        lemma_orders_scan(orders.drop_first(), id, j - 1);
        assert(orders.remove(j) =~= seq![orders[0]] + orders.drop_first().remove(j - 1));
    }
}


/// A positive count means some order in the queue carries the id.
pub proof fn lemma_count_id_pos(orders: Seq<OrderRec>, id: u64)
    requires
        orders_count_id(orders, id) > 0,
    ensures
        exists|j: int| 0 <= j < orders.len() && (#[trigger] orders[j]).id == id,
    decreases orders.len(),
{
    if orders.len() > 0 {
        if orders[0].id == id {
            assert(orders[0].id == id);
        } else {
            lemma_count_id_pos(orders.drop_first(), id);
            let j = choose|j: int|
                0 <= j < orders.drop_first().len() && (#[trigger] orders.drop_first()[j]).id == id;
            assert(orders[j + 1].id == id);
        }
    }
}


/// Removing the order at one position takes its quantity from the sum.
pub proof fn lemma_orders_volume_remove(orders: Seq<OrderRec>, j: int)
    requires
        0 <= j < orders.len(),
    ensures
        orders_volume(orders.remove(j)) == orders_volume(orders) - orders[j].qty,
    decreases orders.len(),
{
    let u = orders.remove(j);
    if j == 0 {
        assert(u =~= orders.drop_first());
    } else {
        assert(u[0] == orders[0]);
        assert(u.drop_first() =~= orders.drop_first().remove(j - 1));
        lemma_orders_volume_remove(orders.drop_first(), j - 1);
    }
}

/// Removing the order at one position drops one occurrence of its id and
/// none of any other.
pub proof fn lemma_orders_count_remove(orders: Seq<OrderRec>, j: int, id: u64)
    requires
        0 <= j < orders.len(),
    ensures
        orders_count_id(orders.remove(j), id) == orders_count_id(orders, id) - (if orders[j].id
            == id {
            1int
        } else {
            0int
        }),
    decreases orders.len(),
{
    let u = orders.remove(j);
    if j == 0 {
        assert(u =~= orders.drop_first());
    } else {
        assert(u[0] == orders[0]);
        assert(u.drop_first() =~= orders.drop_first().remove(j - 1));
        lemma_orders_count_remove(orders.drop_first(), j - 1, id);
    }
}


/// When some order carries `id` and all quantities are positive, the
/// reported quantity of `id` is positive.
pub proof fn lemma_qty_of_id_pos(orders: Seq<OrderRec>, id: u64)
    requires
        exists|j: int| 0 <= j < orders.len() && (#[trigger] orders[j]).id == id,
        forall|j: int| 0 <= j < orders.len() ==> (#[trigger] orders[j]).qty > 0,
    ensures
        orders_qty_of_id(orders, id) > 0,
    decreases orders.len(),
{
    if orders[0].id == id {
    } else {
        let j = choose|j: int| 0 <= j < orders.len() && (#[trigger] orders[j]).id == id;
        assert(orders.drop_first()[j - 1].id == id);
        lemma_qty_of_id_pos(orders.drop_first(), id);
    }
}


/// Every id the index knows was allocated earlier: it is below the
/// allocator's next value.
pub proof fn lemma_index_ids_below_next(b: BookRec)
    requires
        inv(b),
    ensures
        forall|id: u64| #[trigger] b.index.dom().contains(id) ==> id < b.next_id,
{
    assert forall|id: u64| #[trigger] b.index.dom().contains(id) implies id < b.next_id by {
        if b.index[id].0 == OrderSide::Buy {
            let k = choose|k: int|
                0 <= k < b.bids.len() && (#[trigger] b.bids[k]).price == b.index[id].1
                    && orders_count_id(b.bids[k].orders, id) == 1;
            lemma_count_id_pos(b.bids[k].orders, id);
            let j = choose|j: int|
                0 <= j < b.bids[k].orders.len() && (#[trigger] b.bids[k].orders[j]).id == id;
            assert(b.bids[k].orders[j].id < b.next_id);
        } else {
            let k = choose|k: int|
                0 <= k < b.asks.len() && (#[trigger] b.asks[k]).price == b.index[id].1
                    && orders_count_id(b.asks[k].orders, id) == 1;
            lemma_count_id_pos(b.asks[k].orders, id);
            let j = choose|j: int|
                0 <= j < b.asks[k].orders.len() && (#[trigger] b.asks[k].orders[j]).id == id;
            assert(b.asks[k].orders[j].id < b.next_id);
        }
    }
}

/// A sweep that produced no fill touched nothing: the levels, the
/// removals and the unfilled quantity are exactly as they started.
pub proof fn lemma_sweep_no_fill(
    side: OrderSide,
    limit: Option<int>,
    levels: Seq<LevelRec>,
    qty: int,
    taker: u64,
)
    requires
        qty > 0,
        forall|i: int| 0 <= i < levels.len() ==> level_wf(#[trigger] levels[i]),
        sweep(side, limit, levels, qty, taker).fills.len() == 0,
    ensures
        sweep(side, limit, levels, qty, taker) == (SweepRec {
            levels,
            fills: Seq::<FillRec>::empty(),
            removed: Seq::<u64>::empty(),
            remaining: qty,
        }),
{
    if levels.len() > 0 {
        assert(level_wf(levels[0]));
        assert(levels[0].orders.len() > 0);
    }
}

/// Removing the id of a freshly appended order undoes the append, and
/// that id's quantity reads back as the appended order's.
pub proof fn lemma_remove_push(orders: Seq<OrderRec>, o: OrderRec)
    requires
        forall|j: int| 0 <= j < orders.len() ==> (#[trigger] orders[j]).id != o.id,
    ensures
        orders_remove_id(orders.push(o), o.id) == orders,
        orders_qty_of_id(orders.push(o), o.id) == o.qty,
    decreases orders.len(),
{
    if orders.len() == 0 {
        assert(orders.push(o)[0] == o);
        assert(orders.push(o).drop_first() =~= orders);
    } else {
        assert(orders.push(o)[0] == orders[0]);
        assert(orders.push(o).drop_first() =~= orders.drop_first().push(o));
        lemma_remove_push(orders.drop_first(), o);
        assert(orders_remove_id(orders.push(o), o.id) =~= seq![orders[0]] + orders.drop_first());
        assert(seq![orders[0]] + orders.drop_first() =~= orders);
    }
}

/// Cancelling a freshly rested order undoes the rest exactly: the side
/// returns to what it was, and the cancelled quantity is the order's.
pub proof fn lemma_rest_insert_cancel(
    side: OrderSide,
    levels: Seq<LevelRec>,
    lvl: int,
    ord: OrderRec,
)
    requires
        crate::book_model::side_sorted(side, levels),
        forall|i: int| 0 <= i < levels.len() ==> level_wf(#[trigger] levels[i]),
        ord.qty > 0,
        forall|k: int, j: int|
            0 <= k < levels.len() && 0 <= j < levels[k].orders.len() ==> (
            #[trigger] levels[k].orders[j]).id != ord.id,
    ensures
        ({
            let r = rest_insert(side, levels, lvl, ord);
            &&& level_pos(r, lvl) < r.len()
            &&& side_cancel(r, lvl, ord.id) == levels
            &&& orders_qty_of_id(r[level_pos(r, lvl)].orders, ord.id) == ord.qty
        }),
    decreases levels.len(),
{
    let r = rest_insert(side, levels, lvl, ord);
    if levels.len() == 0 {
        assert(r == seq![LevelRec { price: lvl, orders: seq![ord] }]);
        assert(r[0].price == lvl);
        assert(level_pos(r, lvl) == 0);
        assert(orders_remove_id(r[0].orders, ord.id) =~= Seq::<OrderRec>::empty());
        assert(side_cancel(r, lvl, ord.id) =~= levels);
        assert(orders_qty_of_id(r[0].orders, ord.id) == ord.qty);
    } else if levels[0].price == lvl {
        let pushed = levels[0].orders.push(ord);
        assert(r == seq![LevelRec { price: lvl, orders: pushed }] + levels.drop_first());
        assert(r[0].price == lvl);
        assert(level_pos(r, lvl) == 0);
        assert(forall|j: int|
            0 <= j < levels[0].orders.len() ==> (#[trigger] levels[0].orders[j]).id != ord.id);
        lemma_remove_push(levels[0].orders, ord);
        assert(orders_remove_id(r[0].orders, ord.id) == levels[0].orders);
        assert(level_wf(levels[0]));
        assert(side_cancel(r, lvl, ord.id) == r.update(
            0,
            LevelRec { price: lvl, orders: levels[0].orders },
        ));
        assert(r.update(0, LevelRec { price: lvl, orders: levels[0].orders }) =~= levels);
    } else if better(side, levels[0].price, lvl) {
        let sub = rest_insert(side, levels.drop_first(), lvl, ord);
        assert(r == seq![levels[0]] + sub);
        assert(forall|i: int|
            0 <= i < levels.drop_first().len() ==> level_wf(#[trigger] levels.drop_first()[i]));
        assert(forall|k: int, j: int|
            0 <= k < levels.drop_first().len() && 0 <= j < levels.drop_first()[k].orders.len()
                ==> (#[trigger] levels.drop_first()[k].orders[j]).id != ord.id) by {
            assert(forall|k: int|
                0 <= k < levels.drop_first().len() ==> #[trigger] levels.drop_first()[k]
                    == levels[k + 1]);
        };
        lemma_rest_insert_cancel(side, levels.drop_first(), lvl, ord);
        let a0 = seq![levels[0]];
        assert(a0.len() == 1 && a0[0] == levels[0]);
        assert((a0 + sub).len() == 1 + sub.len());
        assert(r == a0 + sub);
        assert((a0 + sub)[0] == levels[0]);
        assert((a0 + sub).drop_first() =~= sub);
        assert(r[0] == (a0 + sub)[0]);
        assert(r.drop_first() == (a0 + sub).drop_first());
        assert(levels[0].price != lvl);
        let p1 = level_pos(sub, lvl);
        lemma_level_pos_nonneg(sub, lvl);
        assert(level_pos(r, lvl) == 1 + p1);
        assert(0 <= p1 < sub.len());
        assert((a0 + sub)[1 + p1] == sub[p1]);
        assert(r[1 + p1] == (a0 + sub)[1 + p1]);
        assert(orders_qty_of_id(r[1 + p1].orders, ord.id) == ord.qty);
        let orders1 = orders_remove_id(sub[p1].orders, ord.id);
        if orders1.len() == 0 {
            assert(side_cancel(sub, lvl, ord.id) == sub.remove(p1));
            assert(side_cancel(r, lvl, ord.id) == r.remove(1 + p1));
            assert(r.remove(1 + p1) == (a0 + sub).remove(1 + p1));
            assert((a0 + sub).remove(1 + p1) =~= a0 + sub.remove(p1));
            assert(a0 + levels.drop_first() =~= levels);
        } else {
            let upd = LevelRec { price: sub[p1].price, orders: orders1 };
            assert(side_cancel(sub, lvl, ord.id) == sub.update(p1, upd));
            assert(side_cancel(r, lvl, ord.id) == r.update(1 + p1, upd));
            assert(r.update(1 + p1, upd) == (a0 + sub).update(1 + p1, upd));
            assert((a0 + sub).update(1 + p1, upd) =~= a0 + sub.update(p1, upd));
            assert(a0 + levels.drop_first() =~= levels);
        }
    } else {
        assert(r == seq![LevelRec { price: lvl, orders: seq![ord] }] + levels);
        assert(r[0].price == lvl);
        assert(level_pos(r, lvl) == 0);
        assert(orders_remove_id(r[0].orders, ord.id) =~= Seq::<OrderRec>::empty());
        assert(side_cancel(r, lvl, ord.id) == r.remove(0));
        assert(r.remove(0) =~= levels);
        assert(orders_qty_of_id(r[0].orders, ord.id) == ord.qty);
    }
}


/// A sweep only ever consumes from the best end: if anything survives,
/// its best level is no better than the old best, and a sweep that left
/// quantity unfilled stopped against an empty side or a level its limit
/// does not cross.
pub proof fn lemma_sweep_keeps_order(
    side: OrderSide,
    limit: Option<int>,
    levels: Seq<LevelRec>,
    qty: int,
    taker: u64,
)
    requires
        crate::book_model::side_sorted(opposite(side), levels),
    ensures
        ({
            let s = sweep(side, limit, levels, qty, taker);
            &&& (s.levels.len() > 0 && levels.len() > 0 ==> !better(
                opposite(side),
                s.levels[0].price,
                levels[0].price,
            ))
            &&& (s.remaining > 0 ==> s.levels.len() == 0 || !crosses(
                side,
                limit,
                s.levels[0].price,
            ))
        }),
    decreases levels.len(), (if levels.len() > 0 {
        levels[0].orders.len()
    } else {
        0
    }),
{
    let bside = opposite(side);
    let s = sweep(side, limit, levels, qty, taker);
    if levels.len() == 0 {
    } else if levels[0].orders.len() == 0 {
        let tail = levels.drop_first();
        assert(forall|a: int, b: int|
            0 <= a < b < tail.len() ==> better(
                bside,
                (#[trigger] tail[a]).price,
                (#[trigger] tail[b]).price,
            )) by {
            assert(forall|k: int| 0 <= k < tail.len() ==> #[trigger] tail[k] == levels[k + 1]);
        };
        lemma_sweep_keeps_order(side, limit, tail, qty, taker);
        if s.levels.len() > 0 {
            assert(tail.len() > 0);
            assert(better(bside, levels[0].price, tail[0].price));
        }
    } else if qty <= 0 || !crosses(side, limit, levels[0].price) {
    } else {
        let head = levels[0].orders[0];
        if qty < head.qty {
        } else {
            let level1 = LevelRec { price: levels[0].price, orders: levels[0].orders.drop_first() };
            let mid = levels.update(0, level1);
            assert(forall|a: int, b: int|
                0 <= a < b < mid.len() ==> better(
                    bside,
                    (#[trigger] mid[a]).price,
                    (#[trigger] mid[b]).price,
                )) by {
                assert(forall|k: int| 0 <= k < mid.len() ==> (#[trigger] mid[k]).price
                    == levels[k].price);
            };
            lemma_sweep_keeps_order(side, limit, mid, qty - head.qty, taker);
        }
    }
}

} // verus!
