//! The central limit order book: two sides of resting limit orders with
//! price-time priority matching.
//!
//! Each operation's contract equates the book after the call with the
//! model transition in [`crate::book_model`], and every operation
//! preserves the model invariant [`inv`].

use vstd::prelude::*;

use std::collections::HashMap;

use crate::book_lemmas::{
    lemma_count_id_pos, lemma_count_id_push, lemma_index_ids_below_next, lemma_count_id_zero, lemma_fills_volume_push, lemma_level_pos_found,
    lemma_level_pos_missing, lemma_level_volume_le_side, lemma_orders_count_remove, lemma_orders_scan,
    lemma_orders_volume_pos, lemma_orders_volume_remove, lemma_orders_volume_push,
    lemma_qty_of_id_pos, lemma_remove_ids_push,
    lemma_side_order_count_nonneg, lemma_side_volume_insert, lemma_side_volume_nonneg,
    lemma_side_volume_remove, lemma_side_volume_update,
};
use crate::book_model::{
    add_total, better, crosses, fills_volume, has_level, inv, level_pos, level_wf, opposite, orders_count_id,
    orders_qty_of_id, orders_volume, remove_ids, rest_insert, side_cancel, side_indexed, side_levels, side_order_count, side_resolves, side_sorted,
    side_total, side_volume, spec_add_limit, spec_best, spec_best_volume, spec_cancel,
    spec_execute_market, spec_new, sweep, with_levels, BookRec,
    FillRec, LevelRec, OrderRec, SweepRec,
};
use crate::errors::BookError;
use crate::num::{Num, AMOUNT_CAP};
use crate::order::{fills_view, Fill, Order, OrderId, OrderSide, OrderType};
use crate::ticks::{snapped_units, Tick};

verus! {

broadcast use vstd::std_specs::hash::group_hash_axioms;

/// The resting orders at one price level, with cached aggregates.
///
/// Time priority is the order of the queue: new orders enter at the back
/// and matches consume from the front.
#[derive(Debug)]
pub struct Orders {
    orders: std::collections::VecDeque<Order>,
    total_volume: i128,
    order_count: usize,
}

impl View for Orders {
    type V = Seq<OrderRec>;

    /// The queue of resting orders, earliest first.
    closed spec fn view(&self) -> Seq<OrderRec> {
        self.orders@.map_values(|o: Order| o@)
    }
}

impl Orders {
    /// The cached aggregates agree with the queue.
    pub closed spec fn cache_ok(self) -> bool {
        &&& self.total_volume as int == orders_volume(self@)
        &&& self.order_count == self@.len()
    }
}

/// One price level of a side: the key in units and its queue.
#[derive(Debug)]
struct LevelEntry {
    price_units: i128,
    orders: Orders,
}

impl View for LevelEntry {
    type V = LevelRec;

    closed spec fn view(&self) -> LevelRec {
        LevelRec { price: self.price_units as int, orders: self.orders@ }
    }
}

/// The model of one side held as a vector of levels, best level first.
closed spec fn levels_view(v: Seq<LevelEntry>) -> Seq<LevelRec> {
    v.map_values(|e: LevelEntry| e@)
}

/// The order-location map lifted to the model: the same entries with the
/// level key widened to a mathematical integer.
pub closed spec fn loc_map(m: Map<u64, (OrderSide, i128)>) -> Map<u64, (OrderSide, int)> {
    Map::new(|id: u64| m.dom().contains(id), |id: u64| (m[id].0, m[id].1 as int))
}

/// A central limit order book with price-time priority matching.
///
/// Both sides keep their levels sorted best first; each level queues its
/// orders in arrival order; `order_lookup` locates any resting order by id
/// in one step; and the two aggregate volumes cache the per-side sums.
#[derive(Debug)]
pub struct OrderBook {
    tick_size: i128,
    bids: Vec<LevelEntry>,
    asks: Vec<LevelEntry>,
    next_id: OrderId,
    order_lookup: HashMap<OrderId, (OrderSide, i128)>,
    total_bid_volume: i128,
    total_ask_volume: i128,
}

impl View for OrderBook {
    type V = BookRec;

    /// The mathematical book this value represents.
    closed spec fn view(&self) -> BookRec {
        BookRec {
            tick_size: self.tick_size as int,
            bids: levels_view(self.bids@),
            asks: levels_view(self.asks@),
            next_id: self.next_id,
            index: loc_map(self.order_lookup@),
            bid_total: self.total_bid_volume as int,
            ask_total: self.total_ask_volume as int,
        }
    }
}

impl OrderBook {
    /// The per-level caches agree with the queues.
    pub closed spec fn caches_ok(self) -> bool {
        &&& forall|i: int|
            0 <= i < self.bids@.len() ==> (#[trigger] self.bids@[i]).orders.cache_ok()
        &&& forall|i: int|
            0 <= i < self.asks@.len() ==> (#[trigger] self.asks@[i]).orders.cache_ok()
    }

    /// The book is well formed: its caches agree with its queues and its
    /// model satisfies the invariant.
    pub closed spec fn wf(self) -> bool {
        &&& self.caches_ok()
        &&& inv(self@)
    }

    /// Creates an empty book over `tick_size`, rejecting a non-positive
    /// tick size.
    pub fn new(tick_size: Num) -> (r: Result<OrderBook, BookError>)
        requires
            tick_size@ <= AMOUNT_CAP as int,
        ensures
            r is Ok <==> tick_size@ > 0,
            r matches Ok(b) ==> b.wf() && b@ == spec_new(tick_size@),
            r matches Err(e) ==> e == BookError::InvalidTickSize,
    {
        if tick_size.units() <= 0 {
            return Err(BookError::InvalidTickSize);
        }
        let book = OrderBook {
            tick_size: tick_size.units(),
            bids: Vec::new(),
            asks: Vec::new(),
            next_id: 0,
            order_lookup: HashMap::new(),
            total_bid_volume: 0,
            total_ask_volume: 0,
        };
        proof {
            assert(levels_view(book.bids@) =~= Seq::<LevelRec>::empty());
            assert(levels_view(book.asks@) =~= Seq::<LevelRec>::empty());
            assert(loc_map(book.order_lookup@) =~= Map::<u64, (OrderSide, int)>::empty());
            assert(book@ == spec_new(tick_size@));
        }
        Ok(book)
    }

    /// Hands out the next order id and advances the allocator.
    fn next_order_id(&mut self) -> (id: OrderId)
        requires
            old(self).next_id < u64::MAX,
        ensures
            id == old(self).next_id,
            final(self).next_id == old(self).next_id + 1,
            final(self).tick_size == old(self).tick_size,
            final(self).bids == old(self).bids,
            final(self).asks == old(self).asks,
            final(self).order_lookup == old(self).order_lookup,
            final(self).total_bid_volume == old(self).total_bid_volume,
            final(self).total_ask_volume == old(self).total_ask_volume,
    {
        let id = self.next_id;
        self.next_id = self.next_id + 1;
        id
    }

    /// The best (highest) bid level, if any bid rests.
    pub fn best_bid(&self) -> (r: Option<Num>)
        ensures
            r is Some <==> self@.bids.len() > 0,
            r matches Some(n) ==> spec_best(self@.bids) == Some(n@),
    {
        if self.bids.len() > 0 {
            Some(Num::from_units(self.bids[0].price_units))
        } else {
            None
        }
    }

    /// The best (lowest) ask level, if any ask rests.
    pub fn best_ask(&self) -> (r: Option<Num>)
        ensures
            r is Some <==> self@.asks.len() > 0,
            r matches Some(n) ==> spec_best(self@.asks) == Some(n@),
    {
        if self.asks.len() > 0 {
            Some(Num::from_units(self.asks[0].price_units))
        } else {
            None
        }
    }

    /// The spread `best_ask - best_bid`, when both sides are non-empty.
    pub fn spread(&self) -> (r: Option<Num>)
        requires
            self.wf(),
        ensures
            r is Some <==> (self@.bids.len() > 0 && self@.asks.len() > 0),
            r matches Some(n) ==> n@ == self@.asks[0].price - self@.bids[0].price,
    {
        if self.bids.len() > 0 && self.asks.len() > 0 {
            proof {
                assert(level_wf(self@.bids[0]));
                assert(level_wf(self@.asks[0]));
                assert(self@.bids[0] == self.bids@[0]@);
                assert(self@.asks[0] == self.asks@[0]@);
            }
            Some(Num::from_units(self.asks[0].price_units - self.bids[0].price_units))
        } else {
            None
        }
    }

    /// The best bid and best ask together.
    pub fn best_prices(&self) -> (r: (Option<Num>, Option<Num>))
        ensures
            r.0 is Some <==> self@.bids.len() > 0,
            r.0 matches Some(n) ==> spec_best(self@.bids) == Some(n@),
            r.1 is Some <==> self@.asks.len() > 0,
            r.1 matches Some(n) ==> spec_best(self@.asks) == Some(n@),
    {
        (self.best_bid(), self.best_ask())
    }

    /// The volume resting at the best bid level, if any.
    pub fn best_bid_volume(&self) -> (r: Option<Num>)
        requires
            self.wf(),
        ensures
            r is Some <==> self@.bids.len() > 0,
            r matches Some(n) ==> spec_best_volume(self@.bids) == Some(n@),
    {
        if self.bids.len() > 0 {
            Some(Num::from_units(self.bids[0].orders.total_volume))
        } else {
            None
        }
    }

    /// The volume resting at the best ask level, if any.
    pub fn best_ask_volume(&self) -> (r: Option<Num>)
        requires
            self.wf(),
        ensures
            r is Some <==> self@.asks.len() > 0,
            r matches Some(n) ==> spec_best_volume(self@.asks) == Some(n@),
    {
        if self.asks.len() > 0 {
            Some(Num::from_units(self.asks[0].orders.total_volume))
        } else {
            None
        }
    }
}


/// An executable price limit as the model sees it.
spec fn opt_units(o: Option<i128>) -> Option<int> {
    match o {
        Option::Some(u) => Some(u as int),
        Option::None => None,
    }
}

proof fn lemma_loc_map_remove(m: Map<u64, (OrderSide, i128)>, id: u64)
    ensures
        loc_map(m.remove(id)) == loc_map(m).remove(id),
{
    assert(loc_map(m.remove(id)) =~= loc_map(m).remove(id));
}

proof fn lemma_loc_map_insert(m: Map<u64, (OrderSide, i128)>, id: u64, v: (OrderSide, i128))
    ensures
        loc_map(m.insert(id, v)) == loc_map(m).insert(id, (v.0, v.1 as int)),
{
    assert(loc_map(m.insert(id, v)) =~= loc_map(m).insert(id, (v.0, v.1 as int)));
}

proof fn lemma_loc_map_dom(m: Map<u64, (OrderSide, i128)>)
    ensures
        loc_map(m).dom() == m.dom(),
{
    assert(loc_map(m).dom() =~= m.dom());
}

/// The state a sweep maintains: the levels still standing, the index and
/// totals already adjusted, and the work done so far composing with the
/// work left to the exact outcome of the whole sweep.
spec fn sweep_inv(
    taker_side: OrderSide,
    limv: Option<int>,
    lv0: Seq<LevelRec>,
    m0: Map<u64, (OrderSide, int)>,
    qty0: int,
    taker: u64,
    next_id: u64,
    total0: int,
    cur: Seq<LevelRec>,
    m: Map<u64, (OrderSide, int)>,
    total: int,
    fillsv: Seq<FillRec>,
    removed: Seq<u64>,
    remaining: int,
) -> bool {
    let bside = opposite(taker_side);
    let s_cur = sweep(taker_side, limv, cur, remaining, taker);
    let s_all = sweep(taker_side, limv, lv0, qty0, taker);
    &&& 0 <= remaining <= qty0
    &&& side_sorted(bside, cur)
    &&& forall|i: int| 0 <= i < cur.len() ==> level_wf(#[trigger] cur[i])
    &&& side_indexed(bside, cur, m, next_id)
    &&& side_resolves(bside, cur, m)
    &&& m.dom().finite()
    &&& total == side_volume(cur)
    &&& total == total0 - (qty0 - remaining)
    &&& fills_volume(fillsv) == qty0 - remaining
    &&& s_all == (SweepRec {
        levels: s_cur.levels,
        fills: fillsv + s_cur.fills,
        removed: removed + s_cur.removed,
        remaining: s_cur.remaining,
    })
    &&& m == remove_ids(m0, removed)
    &&& m.dom().len() + removed.len() == m0.dom().len()
    &&& removed.len() + side_order_count(cur) == side_order_count(lv0)
    &&& forall|id: u64|
        #[trigger] m.dom().contains(id) ==> m0.dom().contains(id) && m[id] == m0[id]
    &&& forall|id: u64|
        #[trigger] m0.dom().contains(id) && m0[id].0 != opposite(taker_side) ==> m.dom().contains(
            id,
        )
}

/// One fill re-establishes the sweep state: consuming the head maker
/// (entirely when `f` equals its remaining quantity, else partially)
/// advances the done-so-far bookkeeping by exactly one unfolding of the
/// model `sweep`.
#[verifier::rlimit(60)]
proof fn restore_sweep_inv(
    taker_side: OrderSide,
    limv: Option<int>,
    lv0: Seq<LevelRec>,
    m0: Map<u64, (OrderSide, int)>,
    qty0: int,
    taker: u64,
    next_id: u64,
    total0: int,
    curp: Seq<LevelRec>,
    m_pre: Map<u64, (OrderSide, int)>,
    total_pre: int,
    fills_pre: Seq<FillRec>,
    removed_pre: Seq<u64>,
    rem_pre: int,
    cur_new: Seq<LevelRec>,
    m_new: Map<u64, (OrderSide, int)>,
    removed_new: Seq<u64>,
    f: int,
)
    requires
        sweep_inv(
            taker_side, limv, lv0, m0, qty0, taker, next_id, total0,
            curp, m_pre, total_pre, fills_pre, removed_pre, rem_pre,
        ),
        curp.len() > 0,
        curp[0].orders.len() > 0,
        rem_pre > 0,
        crosses(taker_side, limv, curp[0].price),
        f == (if rem_pre < curp[0].orders[0].qty {
            rem_pre
        } else {
            curp[0].orders[0].qty
        }),
        f == curp[0].orders[0].qty ==> {
            &&& m_new == m_pre.remove(curp[0].orders[0].id)
            &&& removed_new == removed_pre.push(curp[0].orders[0].id)
            &&& cur_new == (if curp[0].orders.len() == 1 {
                curp.drop_first()
            } else {
                curp.update(
                    0,
                    LevelRec { price: curp[0].price, orders: curp[0].orders.drop_first() },
                )
            })
        },
        f < curp[0].orders[0].qty ==> {
            &&& m_new == m_pre
            &&& removed_new == removed_pre
            &&& cur_new == curp.update(
                0,
                LevelRec {
                    price: curp[0].price,
                    orders: curp[0].orders.update(
                        0,
                        OrderRec { id: curp[0].orders[0].id, qty: curp[0].orders[0].qty - f },
                    ),
                },
            )
        },
    ensures
        sweep_inv(
            taker_side, limv, lv0, m0, qty0, taker, next_id, total0,
            cur_new, m_new, total_pre - f,
            fills_pre.push(
                FillRec { qty: f, price: curp[0].price, taker, maker: curp[0].orders[0].id },
            ),
            removed_new, rem_pre - f,
        ),
{
    let bside = opposite(taker_side);
    let head = curp[0].orders[0];
    let fill_rec = FillRec { qty: f, price: curp[0].price, taker, maker: head.id };
    let fills_new = fills_pre.push(fill_rec);
    let orders0 = curp[0].orders;
    let tail = curp.drop_first();
    assert(level_wf(curp[0]));
    assert(forall|j: int|
        0 <= j < orders0.drop_first().len() ==> (#[trigger] orders0.drop_first()[j]).qty > 0);
    lemma_orders_volume_pos(orders0.drop_first());
    lemma_fills_volume_push(fills_pre, fill_rec);
    assert(orders_volume(orders0) == head.qty + orders_volume(orders0.drop_first()));
    assert(side_volume(curp) == orders_volume(orders0) + side_volume(tail));
    assert(side_order_count(curp) == orders0.len() + side_order_count(tail));
    lemma_side_order_count_nonneg(tail);
    let s_pre = sweep(taker_side, limv, curp, rem_pre, taker);
    let s_all = sweep(taker_side, limv, lv0, qty0, taker);
    // every resting order on this side is indexed, in particular the head
    assert(m_pre.dom().contains(head.id) && m_pre[head.id] == (bside, curp[0].price) && head.id
        < next_id);
    if f == head.qty {
        let dropped = LevelRec { price: curp[0].price, orders: orders0.drop_first() };
        let cur_mid = curp.update(0, dropped);
        let s_mid = sweep(taker_side, limv, cur_mid, rem_pre - f, taker);
        assert(cur_mid.drop_first() =~= tail);
        assert(s_pre == (SweepRec {
            levels: s_mid.levels,
            fills: seq![fill_rec] + s_mid.fills,
            removed: seq![head.id] + s_mid.removed,
            remaining: s_mid.remaining,
        }));
        let s_new = sweep(taker_side, limv, cur_new, rem_pre - f, taker);
        if orders0.len() == 1 {
            assert(cur_new =~= tail);
            assert(s_mid == s_new);
            assert(side_volume(cur_new) == side_volume(curp) - f) by {
                assert(orders_volume(orders0.drop_first()) == 0);
            };
            assert(side_order_count(cur_new) + 1 == side_order_count(curp));
        } else {
            assert(cur_new == cur_mid);
            assert(side_volume(cur_mid) == orders_volume(dropped.orders) + side_volume(
                cur_mid.drop_first(),
            ));
            assert(side_volume(cur_new) == side_volume(curp) - f);
            assert(side_order_count(cur_new) + 1 == side_order_count(curp));
        }
        // the combined outcome is unchanged
        assert(fills_pre + (seq![fill_rec] + s_new.fills) =~= fills_new + s_new.fills);
        assert(removed_pre + (seq![head.id] + s_new.removed) =~= removed_new + s_new.removed);
        assert(s_all == (SweepRec {
            levels: s_new.levels,
            fills: fills_new + s_new.fills,
            removed: removed_new + s_new.removed,
            remaining: s_new.remaining,
        }));
        // index bookkeeping
        lemma_remove_ids_push(m0, removed_pre, head.id);
        assert(m_new.dom() == m_pre.dom().remove(head.id));
        vstd::set::axiom_set_remove_len(m_pre.dom(), head.id);
        // the other levels hold no order with the head id
        assert forall|i: int, j: int|
            1 <= i < curp.len() && 0 <= j < curp[i].orders.len() implies (
        #[trigger] curp[i].orders[j]).id != head.id by {
            if curp[i].orders[j].id == head.id {
                assert(m_pre[head.id] == (bside, curp[i].price));
                assert(better(bside, curp[0].price, curp[i].price));
            }
        }
        // structure of the surviving levels
        if orders0.len() == 1 {
            assert forall|i: int, j: int|
                0 <= i < cur_new.len() && 0 <= j < cur_new[i].orders.len() implies {
                let o = #[trigger] cur_new[i].orders[j];
                &&& m_new.dom().contains(o.id)
                &&& m_new[o.id] == (bside, cur_new[i].price)
                &&& o.id < next_id
            } by {
                assert(cur_new[i] == curp[i + 1]);
                assert(curp[i + 1].orders[j].id != head.id);
            }
            assert(side_sorted(bside, cur_new)) by {
                assert(forall|i: int| 0 <= i < cur_new.len() ==> #[trigger] cur_new[i] == curp[i
                    + 1]);
            };
            assert(forall|i: int| 0 <= i < cur_new.len() ==> level_wf(#[trigger] cur_new[i]));
        } else {
            assert forall|i: int, j: int|
                0 <= i < cur_new.len() && 0 <= j < cur_new[i].orders.len() implies {
                let o = #[trigger] cur_new[i].orders[j];
                &&& m_new.dom().contains(o.id)
                &&& m_new[o.id] == (bside, cur_new[i].price)
                &&& o.id < next_id
            } by {
                if i == 0 {
                    assert(cur_new[0].orders[j] == orders0[j + 1]);
                    assert(orders0[j + 1].id != orders0[0].id);
                } else {
                    assert(cur_new[i] == curp[i]);
                    assert(curp[i].orders[j].id != head.id);
                }
            }
            assert(side_sorted(bside, cur_new)) by {
                assert(forall|i: int|
                    0 <= i < cur_new.len() ==> (#[trigger] cur_new[i]).price == curp[i].price);
            };
            assert forall|i: int| 0 <= i < cur_new.len() implies level_wf(#[trigger] cur_new[i]) by {
                if i == 0 {
                    assert(forall|j: int|
                        0 <= j < cur_new[0].orders.len() ==> #[trigger] cur_new[0].orders[j]
                            == orders0[j + 1]);
                } else {
                    assert(cur_new[i] == curp[i]);
                }
            }
        }
        // every surviving indexed id still resolves
        assert forall|id: u64|
            #[trigger] m_new.dom().contains(id) && m_new[id].0 == bside implies exists|i: int|
            0 <= i < cur_new.len() && (#[trigger] cur_new[i]).price == m_new[id].1
                && orders_count_id(cur_new[i].orders, id) == 1 by {
            assert(id != head.id);
            assert(m_pre.dom().contains(id) && m_pre[id] == m_new[id]);
            let k = choose|k: int|
                0 <= k < curp.len() && (#[trigger] curp[k]).price == m_pre[id].1
                    && orders_count_id(curp[k].orders, id) == 1;
            if k == 0 {
                assert(orders_count_id(orders0, id) == 1);
                assert(orders_count_id(orders0.drop_first(), id) == 1);
                if orders0.len() == 1 {
                    assert(orders_count_id(orders0.drop_first(), id) == 0);
                    assert(false);
                } else {
                    assert(cur_new[0].price == m_new[id].1);
                    assert(orders_count_id(cur_new[0].orders, id) == 1);
                }
            } else {
                if orders0.len() == 1 {
                    assert(cur_new[k - 1] == curp[k]);
                } else {
                    assert(cur_new[k] == curp[k]);
                }
            }
        }
    } else {
        let shrunk = OrderRec { id: head.id, qty: head.qty - f };
        let level1 = LevelRec { price: curp[0].price, orders: orders0.update(0, shrunk) };
        assert(cur_new == curp.update(0, level1));
        assert(cur_new.drop_first() =~= tail);
        assert(orders0.update(0, shrunk).drop_first() =~= orders0.drop_first());
        let s_new = sweep(taker_side, limv, cur_new, 0, taker);
        assert(s_pre == (SweepRec {
            levels: cur_new,
            fills: seq![fill_rec],
            removed: Seq::<u64>::empty(),
            remaining: 0,
        }));
        assert(level_wf(level1)) by {
            assert(forall|j: int|
                1 <= j < level1.orders.len() ==> #[trigger] level1.orders[j] == orders0[j]);
            assert(level1.orders[0] == shrunk);
        };
        assert(s_new == (SweepRec {
            levels: cur_new,
            fills: Seq::<FillRec>::empty(),
            removed: Seq::<u64>::empty(),
            remaining: 0,
        }));
        assert(fills_pre + seq![fill_rec] =~= fills_new);
        assert(fills_new + s_new.fills =~= fills_new);
        assert(removed_pre + Seq::<u64>::empty() =~= removed_pre);
        assert(removed_new + s_new.removed =~= removed_new);
        assert(s_all == (SweepRec {
            levels: s_new.levels,
            fills: fills_new + s_new.fills,
            removed: removed_new + s_new.removed,
            remaining: s_new.remaining,
        }));
        assert(orders_volume(level1.orders) == orders_volume(orders0) - f) by {
            assert(orders_volume(level1.orders) == shrunk.qty + orders_volume(
                level1.orders.drop_first(),
            ));
        };
        assert(side_volume(cur_new) == side_volume(curp) - f);
        assert(side_order_count(cur_new) == side_order_count(curp));
        assert(side_sorted(bside, cur_new)) by {
            assert(forall|i: int|
                0 <= i < cur_new.len() ==> (#[trigger] cur_new[i]).price == curp[i].price);
        };
        assert forall|i: int| 0 <= i < cur_new.len() implies level_wf(#[trigger] cur_new[i]) by {
            if i != 0 {
                assert(cur_new[i] == curp[i]);
            }
        }
        assert forall|i: int, j: int|
            0 <= i < cur_new.len() && 0 <= j < cur_new[i].orders.len() implies {
            let o = #[trigger] cur_new[i].orders[j];
            &&& m_new.dom().contains(o.id)
            &&& m_new[o.id] == (bside, cur_new[i].price)
            &&& o.id < next_id
        } by {
            if i == 0 {
                if j == 0 {
                    assert(cur_new[0].orders[0].id == head.id);
                } else {
                    assert(cur_new[0].orders[j] == orders0[j]);
                }
            } else {
                assert(cur_new[i] == curp[i]);
            }
        }
        assert forall|id: u64|
            #[trigger] m_new.dom().contains(id) && m_new[id].0 == bside implies exists|i: int|
            0 <= i < cur_new.len() && (#[trigger] cur_new[i]).price == m_new[id].1
                && orders_count_id(cur_new[i].orders, id) == 1 by {
            let k = choose|k: int|
                0 <= k < curp.len() && (#[trigger] curp[k]).price == m_pre[id].1
                    && orders_count_id(curp[k].orders, id) == 1;
            if k == 0 {
                assert(orders_count_id(level1.orders, id) == orders_count_id(orders0, id)) by {
                    assert(orders_count_id(level1.orders, id) == (if shrunk.id == id {
                        1int
                    } else {
                        0int
                    }) + orders_count_id(level1.orders.drop_first(), id));
                };
                assert(cur_new[0].price == m_new[id].1);
            } else {
                assert(cur_new[k] == curp[k]);
            }
        }
    }
}

/// Consumes resting liquidity for one taker: walks `levels` best level
/// first and FIFO within each level, producing fills, releasing consumed
/// volume from `total`, and forgetting fully consumed makers in `lookup`,
/// until the taker is filled, the side is exhausted, or the limit price no
/// longer crosses. Behaves exactly as the model `sweep`.
#[verifier::rlimit(80)]
fn sweep_side(
    levels: &mut Vec<LevelEntry>,
    lookup: &mut HashMap<OrderId, (OrderSide, i128)>,
    total: &mut i128,
    fills: &mut Vec<Fill>,
    taker_side: OrderSide,
    limit: Option<i128>,
    qty: i128,
    taker: OrderId,
    Ghost(next_id): Ghost<u64>,
) -> (remaining: i128)
    requires
        0 <= qty <= AMOUNT_CAP,
        side_sorted(opposite(taker_side), levels_view(old(levels)@)),
        forall|i: int|
            0 <= i < old(levels)@.len() ==> level_wf(#[trigger] levels_view(old(levels)@)[i]),
        forall|i: int|
            0 <= i < old(levels)@.len() ==> (#[trigger] old(levels)@[i]).orders.cache_ok(),
        side_indexed(
            opposite(taker_side),
            levels_view(old(levels)@),
            loc_map(old(lookup)@),
            next_id,
        ),
        side_resolves(opposite(taker_side), levels_view(old(levels)@), loc_map(old(lookup)@)),
        loc_map(old(lookup)@).dom().finite(),
        *old(total) == side_volume(levels_view(old(levels)@)),
        old(fills)@.len() == 0,
    ensures
        0 <= remaining <= qty,
        ({
            let lv0 = levels_view(old(levels)@);
            let m0 = loc_map(old(lookup)@);
            let mf = loc_map(final(lookup)@);
            let s = sweep(taker_side, opt_units(limit), lv0, qty as int, taker);
            &&& levels_view(final(levels)@) == s.levels
            &&& fills_view(final(fills)@) == s.fills
            &&& remaining == s.remaining
            &&& mf == remove_ids(m0, s.removed)
            &&& *final(total) == side_volume(s.levels)
            &&& *final(total) == *old(total) - (qty - remaining)
            &&& fills_volume(s.fills) == qty - remaining
            &&& side_sorted(opposite(taker_side), s.levels)
            &&& (forall|i: int| 0 <= i < s.levels.len() ==> level_wf(#[trigger] s.levels[i]))
            &&& (forall|i: int|
                0 <= i < final(levels)@.len() ==> (#[trigger] final(levels)@[i]).orders.cache_ok())
            &&& side_indexed(opposite(taker_side), s.levels, mf, next_id)
            &&& side_resolves(opposite(taker_side), s.levels, mf)
            &&& mf.dom().finite()
            &&& mf.dom().len() + s.removed.len() == m0.dom().len()
            &&& s.removed.len() + side_order_count(s.levels) == side_order_count(lv0)
            &&& (forall|id: u64|
                #[trigger] mf.dom().contains(id) ==> m0.dom().contains(id) && mf[id] == m0[id])
            &&& (forall|id: u64|
                #[trigger] m0.dom().contains(id) && m0[id].0 != opposite(taker_side)
                    ==> mf.dom().contains(id))
            &&& (remaining > 0 ==> s.levels.len() == 0 || !crosses(
                taker_side,
                opt_units(limit),
                s.levels[0].price,
            ))
        }),
{
    let ghost bside = opposite(taker_side);
    let ghost lv0 = levels_view(levels@);
    let ghost m0 = loc_map(lookup@);
    let ghost limv = opt_units(limit);
    let ghost qty0 = qty as int;
    let ghost total0 = *total as int;
    let ghost mut removed: Seq<u64> = Seq::empty();
    let mut remaining: i128 = qty;

    proof {
        let s_goal = sweep(taker_side, limv, lv0, qty0, taker);
        assert(fills_view(fills@) =~= Seq::<FillRec>::empty());
        assert(removed + s_goal.removed =~= s_goal.removed);
        assert(fills_view(fills@) + s_goal.fills =~= s_goal.fills);
        assert(remove_ids(m0, removed) == m0);
    }
    loop
        invariant
            qty0 == qty as int,
            limv == opt_units(limit),
            0 <= qty <= AMOUNT_CAP,
            0 <= remaining <= qty,
            sweep_inv(
                taker_side,
                limv,
                lv0,
                m0,
                qty0,
                taker,
                next_id,
                total0,
                levels_view(levels@),
                loc_map(lookup@),
                *total as int,
                fills_view(fills@),
                removed,
                remaining as int,
            ),
            forall|i: int| 0 <= i < levels@.len() ==> (#[trigger] levels@[i]).orders.cache_ok(),
        ensures
            0 <= remaining <= qty,
            sweep_inv(
                taker_side,
                limv,
                lv0,
                m0,
                qty0,
                taker,
                next_id,
                total0,
                levels_view(levels@),
                loc_map(lookup@),
                *total as int,
                fills_view(fills@),
                removed,
                remaining as int,
            ),
            forall|i: int| 0 <= i < levels@.len() ==> (#[trigger] levels@[i]).orders.cache_ok(),
            remaining == 0 || levels@.len() == 0 || !crosses(
                taker_side,
                limv,
                levels_view(levels@)[0].price,
            ),
        decreases (if remaining > 0 {
            1int
        } else {
            0int
        }) + side_order_count(levels_view(levels@)),
    {
        proof {
            lemma_side_order_count_nonneg(levels_view(levels@));
        }
        if levels.len() == 0 {
            break;
        }
        if remaining <= 0 {
            break;
        }
        let best_price = levels[0].price_units;
        proof {
            assert(levels_view(levels@)[0] == levels@[0]@);
        }
        match limit {
            Option::Some(l) => {
                match taker_side {
                    OrderSide::Buy => {
                        if l < best_price {
                            break;
                        }
                    },
                    OrderSide::Sell => {
                        if l > best_price {
                            break;
                        }
                    },
                }
            },
            Option::None => {},
        }
        let ghost cur_pre = levels_view(levels@);
        let mut entry = levels.remove(0);
        let ghost rest = levels_view(levels@);
        let ghost n0 = entry@.orders.len() as int;
        proof {
            assert(rest =~= cur_pre.drop_first());
            assert(cur_pre =~= seq![entry@] + rest);
            assert(crosses(taker_side, limv, entry@.price));
            assert(level_wf(cur_pre[0]));
            assert(side_order_count(cur_pre) == n0 + side_order_count(rest));
            lemma_side_order_count_nonneg(rest);
        }
        while remaining > 0 && entry.orders.order_count > 0
            invariant
                qty0 == qty as int,
                limv == opt_units(limit),
                0 <= qty <= AMOUNT_CAP,
                0 <= remaining <= qty,
                entry@.price == best_price as int,
                crosses(taker_side, limv, entry@.price),
                entry@.orders.len() <= n0,
                entry.orders.cache_ok(),
                levels_view(levels@) == rest,
                forall|i: int|
                    0 <= i < levels@.len() ==> (#[trigger] levels@[i]).orders.cache_ok(),
                sweep_inv(
                    taker_side,
                    limv,
                    lv0,
                    m0,
                    qty0,
                    taker,
                    next_id,
                    total0,
                    (if entry@.orders.len() == 0 {
                        rest
                    } else {
                        seq![entry@] + rest
                    }),
                    loc_map(lookup@),
                    *total as int,
                    fills_view(fills@),
                    removed,
                    remaining as int,
                ),
            decreases (if remaining > 0 {
                1int
            } else {
                0int
            }) + entry.orders.order_count,
        {
            let ghost curp = seq![entry@] + rest;
            let ghost m_pre = loc_map(lookup@);
            let ghost fills_pre = fills_view(fills@);
            let ghost removed_pre = removed;
            let ghost rem_pre = remaining as int;
            let ghost tot_pre = *total as int;
            let ghost orders_pre = entry@.orders;
            proof {
                assert(entry@.orders.len() == entry.orders.order_count);
                assert(curp[0] == entry@);
                assert(level_wf(curp[0]));
                assert(forall|j: int|
                    0 <= j < orders_pre.drop_first().len() ==> (#[trigger] orders_pre.drop_first()[j]).qty
                        > 0);
                lemma_orders_volume_pos(orders_pre.drop_first());
                assert(orders_volume(orders_pre) == orders_pre[0].qty + orders_volume(
                    orders_pre.drop_first(),
                ));
                assert(forall|i: int, j: int|
                    0 <= i < curp.len() && 0 <= j < curp[i].orders.len() ==> (
                    #[trigger] curp[i].orders[j]).qty > 0) by {
                    assert(forall|i: int| 0 <= i < curp.len() ==> level_wf(#[trigger] curp[i]));
                };
                lemma_side_volume_nonneg(curp);
                assert(side_volume(curp) == orders_volume(orders_pre) + side_volume(rest)) by {
                    assert(curp.drop_first() =~= rest);
                };
                assert forall|i: int, j: int|
                    0 <= i < rest.len() && 0 <= j < rest[i].orders.len() implies (
                #[trigger] rest[i].orders[j]).qty > 0 by {
                    assert(rest[i] == curp[i + 1]);
                    assert(curp[i + 1].orders[j].qty > 0);
                }
                lemma_side_volume_nonneg(rest);
            }
            let head = entry.orders.orders.pop_front().unwrap();
            let head_qty = head.quantity.units();
            proof {
                assert(head@ == orders_pre[0]);
                assert(entry.orders.orders@.map_values(|o: Order| o@) =~= orders_pre.drop_first());
            }
            let f = if remaining < head_qty {
                remaining
            } else {
                head_qty
            };
            fills.push(
                Fill {
                    quantity: Num::from_units(f),
                    price: Num::from_units(entry.price_units),
                    taker_order_id: taker,
                    maker_order_id: head.id,
                },
            );
            remaining = remaining - f;
            entry.orders.total_volume = entry.orders.total_volume - f;
            *total = *total - f;
            let ghost fill_rec = FillRec { qty: f as int, price: entry@.price, taker, maker: head.id };
            proof {
                assert(fills_view(fills@) =~= fills_pre.push(fill_rec));
            }
            if f == head_qty {
                entry.orders.order_count = entry.orders.order_count - 1;
                let ghost lk_pre = lookup@;
                lookup.remove(&head.id);
                proof {
                    removed = removed.push(head.id);
                    lemma_loc_map_remove(lk_pre, head.id);
                    assert(loc_map(lookup@) == m_pre.remove(head.id));
                    assert(entry@.orders =~= orders_pre.drop_first());
                    let cur_new = (if orders_pre.len() == 1 {
                        curp.drop_first()
                    } else {
                        curp.update(
                            0,
                            LevelRec { price: curp[0].price, orders: orders_pre.drop_first() },
                        )
                    });
                    restore_sweep_inv(
                        taker_side, limv, lv0, m0, qty0, taker, next_id, total0,
                        curp, m_pre, tot_pre, fills_pre, removed_pre, rem_pre,
                        cur_new, m_pre.remove(head.id), removed_pre.push(head.id), f as int,
                    );
                    if orders_pre.len() == 1 {
                        assert(entry@.orders.len() == 0);
                        assert(cur_new =~= rest) by {
                            assert(curp.drop_first() =~= rest);
                        };
                    } else {
                        assert(entry@.orders.len() > 0);
                        assert(cur_new =~= seq![entry@] + rest);
                    }
                }
            } else {
                let shrunk = Order {
                    id: head.id,
                    quantity: Num::from_units(head_qty - f),
                    order_type: head.order_type,
                    order_side: head.order_side,
                };
                entry.orders.orders.push_front(shrunk);
                proof {
                    let shrunk_rec = OrderRec { id: head.id, qty: head_qty - f };
                    assert(entry@.orders =~= orders_pre.update(0, shrunk_rec));
                    assert(orders_volume(orders_pre.update(0, shrunk_rec)) == orders_volume(
                        orders_pre,
                    ) - f) by {
                        assert(orders_pre.update(0, shrunk_rec).drop_first() =~= orders_pre.drop_first());
                        assert(orders_volume(orders_pre.update(0, shrunk_rec)) == shrunk_rec.qty
                            + orders_volume(orders_pre.update(0, shrunk_rec).drop_first()));
                    };
                    assert(entry@ == (LevelRec {
                        price: curp[0].price,
                        orders: orders_pre.update(0, shrunk_rec),
                    }));
                    let cur_mid = curp.update(
                        0,
                        LevelRec { price: curp[0].price, orders: orders_pre.update(0, shrunk_rec) },
                    );
                    restore_sweep_inv(
                        taker_side, limv, lv0, m0, qty0, taker, next_id, total0,
                        curp, m_pre, tot_pre, fills_pre, removed_pre, rem_pre,
                        cur_mid, m_pre, removed_pre, f as int,
                    );
                    assert(cur_mid =~= seq![entry@] + rest);
                }
            }
        }
        if entry.orders.order_count > 0 {
            let ghost rest_pre = levels_view(levels@);
            levels.insert(0, entry);
            proof {
                assert(levels_view(levels@) =~= seq![entry@] + rest_pre);
                assert(side_order_count(seq![entry@] + rest) == entry@.orders.len()
                    + side_order_count(rest)) by {
                    assert((seq![entry@] + rest).drop_first() =~= rest);
                };
            }
        } else {
            proof {
                assert(entry@.orders.len() == 0);
            }
        }
    }
    proof {
        let cur = levels_view(levels@);
        let s_cur = sweep(taker_side, limv, cur, remaining as int, taker);
        assert(s_cur == (SweepRec {
            levels: cur,
            fills: Seq::<FillRec>::empty(),
            removed: Seq::<u64>::empty(),
            remaining: remaining as int,
        }));
        assert(fills_view(fills@) + s_cur.fills =~= fills_view(fills@));
        assert(removed + s_cur.removed =~= removed);
        let s = sweep(taker_side, limv, lv0, qty0, taker);
        assert(s.levels == cur && s.fills == fills_view(fills@) && s.removed == removed
            && s.remaining == remaining as int);
        lemma_loc_map_dom(lookup@);
    }
    remaining
}


/// Whether `a` is strictly better than `b` for a resting order on `side`.
fn price_better(side: OrderSide, a: i128, b: i128) -> (r: bool)
    ensures
        r == better(side, a as int, b as int),
{
    match side {
        OrderSide::Buy => a > b,
        OrderSide::Sell => a < b,
    }
}

/// Entering one fresh order keeps a side indexed and resolved, once its
/// location is recorded.
proof fn lemma_indexed_after_insert(
    side: OrderSide,
    lv0: Seq<LevelRec>,
    lvf: Seq<LevelRec>,
    price: int,
    ord: OrderRec,
    m: Map<u64, (OrderSide, int)>,
    next_id: u64,
    pos: int,
)
    requires
        side_indexed(side, lv0, m, next_id),
        side_resolves(side, lv0, m),
        forall|k: int, j: int|
            0 <= k < lv0.len() && 0 <= j < lv0[k].orders.len() ==> (
            #[trigger] lv0[k].orders[j]).id != ord.id,
        !m.dom().contains(ord.id),
        ord.id < next_id,
        0 <= pos <= lv0.len(),
        (pos < lv0.len() && lv0[pos].price == price && lvf == lv0.update(
            pos,
            LevelRec { price, orders: lv0[pos].orders.push(ord) },
        )) || lvf == lv0.insert(pos, LevelRec { price, orders: seq![ord] }),
    ensures
        side_indexed(side, lvf, m.insert(ord.id, (side, price)), next_id),
        side_resolves(side, lvf, m.insert(ord.id, (side, price))),
{
    let m2 = m.insert(ord.id, (side, price));
    if pos < lv0.len() && lv0[pos].price == price && lvf == lv0.update(
        pos,
        LevelRec { price, orders: lv0[pos].orders.push(ord) },
    ) {
        let pushed = lv0[pos].orders.push(ord);
        assert forall|i: int, j: int|
            0 <= i < lvf.len() && 0 <= j < lvf[i].orders.len() implies {
            let o = #[trigger] lvf[i].orders[j];
            &&& m2.dom().contains(o.id)
            &&& m2[o.id] == (side, lvf[i].price)
            &&& o.id < next_id
        } by {
            if i == pos {
                if j < lv0[pos].orders.len() {
                    assert(lvf[i].orders[j] == lv0[pos].orders[j]);
                } else {
                    assert(lvf[i].orders[j] == ord);
                }
            } else {
                assert(lvf[i] == lv0[i]);
            }
        }
        assert forall|id2: u64|
            #[trigger] m2.dom().contains(id2) && m2[id2].0 == side implies exists|i: int|
            0 <= i < lvf.len() && (#[trigger] lvf[i]).price == m2[id2].1 && orders_count_id(
                lvf[i].orders,
                id2,
            ) == 1 by {
            if id2 == ord.id {
                assert(forall|j: int|
                    0 <= j < lv0[pos].orders.len() ==> (#[trigger] lv0[pos].orders[j]).id
                        != ord.id);
                lemma_count_id_zero(lv0[pos].orders, ord.id);
                lemma_count_id_push(lv0[pos].orders, ord, ord.id);
                assert(lvf[pos].price == m2[id2].1);
                assert(orders_count_id(lvf[pos].orders, id2) == 1);
            } else {
                let k = choose|k: int|
                    0 <= k < lv0.len() && (#[trigger] lv0[k]).price == m[id2].1
                        && orders_count_id(lv0[k].orders, id2) == 1;
                if k == pos {
                    lemma_count_id_push(lv0[pos].orders, ord, id2);
                    assert(lvf[pos].price == m2[id2].1);
                    assert(orders_count_id(lvf[pos].orders, id2) == 1);
                } else {
                    assert(lvf[k] == lv0[k]);
                }
            }
        }
    } else {
        assert(lvf == lv0.insert(pos, LevelRec { price, orders: seq![ord] }));
        assert forall|i: int, j: int|
            0 <= i < lvf.len() && 0 <= j < lvf[i].orders.len() implies {
            let o = #[trigger] lvf[i].orders[j];
            &&& m2.dom().contains(o.id)
            &&& m2[o.id] == (side, lvf[i].price)
            &&& o.id < next_id
        } by {
            if i < pos {
                assert(lvf[i] == lv0[i]);
            } else if i == pos {
                assert(lvf[i].orders == seq![ord]);
                assert(lvf[i].orders[j] == ord);
            } else {
                assert(lvf[i] == lv0[i - 1]);
            }
        }
        assert forall|id2: u64|
            #[trigger] m2.dom().contains(id2) && m2[id2].0 == side implies exists|i: int|
            0 <= i < lvf.len() && (#[trigger] lvf[i]).price == m2[id2].1 && orders_count_id(
                lvf[i].orders,
                id2,
            ) == 1 by {
            if id2 == ord.id {
                assert(lvf[pos].price == m2[id2].1);
                assert(orders_count_id(lvf[pos].orders, id2) == (if ord.id == id2 {
                    1int
                } else {
                    0int
                }) + orders_count_id(lvf[pos].orders.drop_first(), id2));
                assert(lvf[pos].orders.drop_first() =~= Seq::<OrderRec>::empty());
            } else {
                let k = choose|k: int|
                    0 <= k < lv0.len() && (#[trigger] lv0[k]).price == m[id2].1
                        && orders_count_id(lv0[k].orders, id2) == 1;
                if k < pos {
                    assert(lvf[k] == lv0[k]);
                } else {
                    assert(lvf[k + 1] == lv0[k]);
                }
            }
        }
    }
}

/// Rests one order on its own side: appended to the queue of the level
/// keyed `price_units` if it exists, else on a fresh level inserted so
/// that the side stays sorted best first. Behaves exactly as the model
/// `rest_insert`.
#[verifier::rlimit(60)]
fn insert_resting(levels: &mut Vec<LevelEntry>, side: OrderSide, price_units: i128, ord: Order) -> (
    r: Ghost<int>)
    requires
        side_sorted(side, levels_view(old(levels)@)),
        forall|i: int|
            0 <= i < old(levels)@.len() ==> level_wf(#[trigger] levels_view(old(levels)@)[i]),
        forall|i: int|
            0 <= i < old(levels)@.len() ==> (#[trigger] old(levels)@[i]).orders.cache_ok(),
        forall|k: int, j: int|
            0 <= k < levels_view(old(levels)@).len() && 0 <= j < levels_view(old(levels)@)[k].orders.len()
                ==> (#[trigger] levels_view(old(levels)@)[k].orders[j]).id != ord.id,
        ord.quantity@ > 0,
        0 <= price_units,
        side_volume(levels_view(old(levels)@)) + ord.quantity@ <= i128::MAX as int,
        side_volume(levels_view(old(levels)@)) >= 0,
    ensures
        ({
            let lv0 = levels_view(old(levels)@);
            let lvf = levels_view(final(levels)@);
            let pos = r@;
            &&& lvf == rest_insert(side, lv0, price_units as int, ord@)
            &&& (forall|i: int|
                0 <= i < final(levels)@.len() ==> (#[trigger] final(levels)@[i]).orders.cache_ok())
            &&& side_sorted(side, lvf)
            &&& (forall|i: int| 0 <= i < lvf.len() ==> level_wf(#[trigger] lvf[i]))
            &&& side_volume(lvf) == side_volume(lv0) + ord.quantity@
            &&& side_order_count(lvf) == side_order_count(lv0) + 1
            &&& 0 <= pos <= lv0.len()
            &&& ((pos < lv0.len() && lv0[pos].price == price_units as int && lvf == lv0.update(
                pos,
                LevelRec { price: price_units as int, orders: lv0[pos].orders.push(ord@) },
            )) || lvf == lv0.insert(
                pos,
                LevelRec { price: price_units as int, orders: seq![ord@] },
            ))
        }),
{
    let ghost lv0 = levels_view(levels@);
    let ghost p = price_units as int;
    let ghost ordv = ord@;
    let qty_units = ord.quantity.units();
    proof {
        assert(lv0.take(0) =~= Seq::<LevelRec>::empty());
        assert(lv0.skip(0) =~= lv0);
        assert(lv0.take(0) + rest_insert(side, lv0.skip(0), p, ordv) =~= rest_insert(
            side,
            lv0,
            p,
            ordv,
        ));
    }
    let mut i: usize = 0;
    loop
        invariant
            0 <= i <= lv0.len(),
            levels_view(levels@) == lv0,
            forall|k: int| 0 <= k < i ==> better(side, (#[trigger] lv0[k]).price, p),
            rest_insert(side, lv0, p, ordv) == lv0.take(i as int) + rest_insert(
                side,
                lv0.skip(i as int),
                p,
                ordv,
            ),
            side_sorted(side, lv0),
            forall|k: int| 0 <= k < lv0.len() ==> level_wf(#[trigger] lv0[k]),
            p == price_units as int,
            ordv == ord@,
        ensures
            0 <= i <= lv0.len(),
            levels_view(levels@) == lv0,
            forall|k: int| 0 <= k < i ==> better(side, (#[trigger] lv0[k]).price, p),
            rest_insert(side, lv0, p, ordv) == lv0.take(i as int) + rest_insert(
                side,
                lv0.skip(i as int),
                p,
                ordv,
            ),
            i == lv0.len() || !better(side, lv0[i as int].price, p),
        decreases lv0.len() - i,
    {
        if i >= levels.len() {
            break;
        }
        proof {
            assert(levels_view(levels@)[i as int] == levels@[i as int]@);
        }
        if !price_better(side, levels[i].price_units, price_units) {
            break;
        }
        proof {
            let sk = lv0.skip(i as int);
            assert(sk[0] == lv0[i as int]);
            assert(sk.drop_first() =~= lv0.skip(i as int + 1));
            assert(rest_insert(side, sk, p, ordv) == seq![lv0[i as int]] + rest_insert(
                side,
                lv0.skip(i as int + 1),
                p,
                ordv,
            ));
            assert(lv0.take(i as int) + (seq![lv0[i as int]] + rest_insert(
                side,
                lv0.skip(i as int + 1),
                p,
                ordv,
            )) =~= lv0.take(i as int + 1) + rest_insert(side, lv0.skip(i as int + 1), p, ordv));
        }
        i = i + 1;
    }
    let ghost pos = i as int;
    if i < levels.len() && levels[i].price_units == price_units {
        proof {
            assert(levels_view(levels@)[pos] == levels@[pos]@);
            assert(lv0[pos].price == p);
        }
        let mut e = levels.remove(i);
        proof {
            assert(forall|k: int, j: int|
                0 <= k < lv0.len() && 0 <= j < lv0[k].orders.len() ==> (
                #[trigger] lv0[k].orders[j]).qty > 0) by {
                assert(forall|k: int| 0 <= k < lv0.len() ==> level_wf(#[trigger] lv0[k]));
            };
            lemma_level_volume_le_side(lv0, pos);
            lemma_orders_volume_pos(lv0[pos].orders);
            assert(e.orders.total_volume as int == orders_volume(lv0[pos].orders));
        }
        e.orders.orders.push_back(ord);
        e.orders.total_volume = e.orders.total_volume + qty_units;
        let c = e.orders.orders.len();
        e.orders.order_count = c;
        proof {
            assert(e@.orders =~= lv0[pos].orders.push(ordv));
            lemma_orders_volume_push(lv0[pos].orders, ordv);
        }
        levels.insert(i, e);
        let ghost upd = LevelRec { price: p, orders: lv0[pos].orders.push(ordv) };
        proof {
            assert(e@ == upd);
            assert(levels_view(levels@) =~= lv0.update(pos, upd));
            let sk = lv0.skip(pos);
            assert(sk[0] == lv0[pos]);
            assert(sk.drop_first() =~= lv0.skip(pos + 1));
            assert(rest_insert(side, sk, p, ordv) == seq![upd] + sk.drop_first());
            assert(lv0.take(pos) + (seq![upd] + lv0.skip(pos + 1)) =~= lv0.update(pos, upd));
            lemma_side_volume_update(lv0, pos, upd);
            // the grown level is still well formed
            assert(level_wf(upd)) by {
                assert(forall|j: int|
                    0 <= j < lv0[pos].orders.len() ==> #[trigger] upd.orders[j]
                        == lv0[pos].orders[j]);
                assert(upd.orders[lv0[pos].orders.len() as int] == ordv);
                assert(level_wf(lv0[pos]));
            };
            assert(forall|ii: int|
                0 <= ii < levels_view(levels@).len() ==> level_wf(
                    #[trigger] levels_view(levels@)[ii],
                )) by {
                assert(forall|ii: int|
                    0 <= ii < lv0.len() && ii != pos ==> levels_view(levels@)[ii] == lv0[ii]);
                assert(levels_view(levels@)[pos] == upd);
            };
            assert(side_sorted(side, levels_view(levels@))) by {
                assert(forall|ii: int|
                    0 <= ii < lv0.len() ==> (#[trigger] levels_view(levels@)[ii]).price
                        == lv0[ii].price);
            };
        }
        Ghost(pos)
    } else {
        let mut q: std::collections::VecDeque<Order> = std::collections::VecDeque::new();
        q.push_back(ord);
        let e = LevelEntry {
            price_units,
            orders: Orders { orders: q, total_volume: qty_units, order_count: 1 },
        };
        let ghost fresh = LevelRec { price: p, orders: seq![ordv] };
        proof {
            assert(e@.orders =~= seq![ordv]);
            assert(e@ == fresh);
            assert(seq![ordv].drop_first() =~= Seq::<OrderRec>::empty());
            assert(orders_volume(Seq::<OrderRec>::empty()) == 0);
            assert(seq![ordv][0] == ordv);
            assert(orders_volume(seq![ordv]) == ordv.qty + orders_volume(
                seq![ordv].drop_first(),
            ));
        }
        levels.insert(i, e);
        proof {
            assert(levels_view(levels@) =~= lv0.insert(pos, fresh));
            let sk = lv0.skip(pos);
            if pos < lv0.len() {
                assert(sk[0] == lv0[pos]);
                assert(lv0[pos].price != p);
                assert(!better(side, lv0[pos].price, p));
                assert(rest_insert(side, sk, p, ordv) == seq![fresh] + sk);
            } else {
                assert(sk =~= Seq::<LevelRec>::empty());
                assert(rest_insert(side, sk, p, ordv) == seq![fresh]);
                assert(seq![fresh] =~= seq![fresh] + sk);
            }
            assert(lv0.take(pos) + (seq![fresh] + sk) =~= lv0.insert(pos, fresh));
            lemma_side_volume_insert(lv0, pos, fresh);
            assert(level_wf(fresh));
            assert(forall|ii: int|
                0 <= ii < levels_view(levels@).len() ==> level_wf(
                    #[trigger] levels_view(levels@)[ii],
                )) by {
                assert(forall|ii: int| 0 <= ii < pos ==> levels_view(levels@)[ii] == lv0[ii]);
                assert(forall|ii: int|
                    pos < ii < lv0.len() + 1 ==> levels_view(levels@)[ii] == lv0[ii - 1]);
                assert(levels_view(levels@)[pos] == fresh);
            };
            assert(side_sorted(side, levels_view(levels@))) by {
                let lvf = levels_view(levels@);
                assert forall|a: int, b: int| 0 <= a < b < lvf.len() implies better(
                    side,
                    (#[trigger] lvf[a]).price,
                    (#[trigger] lvf[b]).price,
                ) by {
                    if a < pos {
                        assert(lvf[a] == lv0[a]);
                    } else if a == pos {
                        assert(lvf[a] == fresh);
                    } else {
                        assert(lvf[a] == lv0[a - 1]);
                    }
                    if b < pos {
                        assert(lvf[b] == lv0[b]);
                    } else if b == pos {
                        assert(lvf[b] == fresh);
                    } else {
                        assert(lvf[b] == lv0[b - 1]);
                    }
                    if b == pos {
                        // everything before the fresh level is strictly better
                        assert(better(side, lv0[a].price, p));
                    } else if a == pos && b > pos {
                        assert(!better(side, lv0[pos].price, p) && lv0[pos].price != p);
                        if b - 1 > pos {
                            assert(better(side, lv0[pos].price, lv0[b - 1].price));
                        }
                    }
                }
            };
        }
        Ghost(pos)
    }
}


/// After a sweep of the opposite side, the whole book is well formed
/// again once the allocator advances: the facts a sweep guarantees about
/// the swept side combine with the untouched side into the invariant.
#[verifier::rlimit(60)]
proof fn lemma_inv_after_sweep(b0: BookRec, order_side: OrderSide, limit: Option<int>, qty: int)
    requires
        inv(b0),
        b0.next_id < u64::MAX,
        0 <= qty <= AMOUNT_CAP as int,
        ({
            let s = sweep(order_side, limit, side_levels(b0, opposite(order_side)), qty, b0.next_id);
            let mf = remove_ids(b0.index, s.removed);
            &&& side_sorted(opposite(order_side), s.levels)
            &&& (forall|i: int| 0 <= i < s.levels.len() ==> level_wf(#[trigger] s.levels[i]))
            &&& side_indexed(opposite(order_side), s.levels, mf, b0.next_id)
            &&& side_resolves(opposite(order_side), s.levels, mf)
            &&& mf.dom().finite()
            &&& mf.dom().len() + s.removed.len() == b0.index.dom().len()
            &&& s.removed.len() + side_order_count(s.levels) == side_order_count(
                side_levels(b0, opposite(order_side)),
            )
            &&& (forall|id: u64|
                #[trigger] mf.dom().contains(id) ==> b0.index.dom().contains(id) && mf[id]
                    == b0.index[id])
            &&& (forall|id: u64|
                #[trigger] b0.index.dom().contains(id) && b0.index[id].0 != opposite(order_side)
                    ==> mf.dom().contains(id))
            &&& 0 <= s.remaining <= qty
            &&& side_volume(s.levels) == side_total(b0, opposite(order_side)) - (qty - s.remaining)
        }),
    ensures
        ({
            let s = sweep(order_side, limit, side_levels(b0, opposite(order_side)), qty, b0.next_id);
            let mf = remove_ids(b0.index, s.removed);
            let b1 = BookRec {
                next_id: (b0.next_id + 1) as u64,
                index: mf,
                ..with_levels(
                    add_total(b0, opposite(order_side), -(qty - s.remaining)),
                    opposite(order_side),
                    s.levels,
                )
            };
            &&& inv(b1)
            &&& b1.bid_total + b1.ask_total + s.remaining <= b1.next_id as int * AMOUNT_CAP as int
        }),
{
    let oside = opposite(order_side);
    let s = sweep(order_side, limit, side_levels(b0, oside), qty, b0.next_id);
    let mf = remove_ids(b0.index, s.removed);
    let b1 = BookRec {
        next_id: (b0.next_id + 1) as u64,
        index: mf,
        ..with_levels(add_total(b0, oside, -(qty - s.remaining)), oside, s.levels)
    };
    let own = side_levels(b0, order_side);
    // the untouched side stays indexed and resolved under the pruned map
    assert forall|i: int, j: int|
        0 <= i < own.len() && 0 <= j < own[i].orders.len() implies {
        let o = #[trigger] own[i].orders[j];
        &&& mf.dom().contains(o.id)
        &&& mf[o.id] == (order_side, own[i].price)
        &&& o.id < b1.next_id
    } by {
        let o = own[i].orders[j];
        assert(b0.index.dom().contains(o.id) && b0.index[o.id] == (order_side, own[i].price));
        assert(b0.index[o.id].0 != oside);
    }
    assert forall|id: u64|
        #[trigger] mf.dom().contains(id) && mf[id].0 == order_side implies exists|i: int|
        0 <= i < own.len() && (#[trigger] own[i]).price == mf[id].1 && orders_count_id(
            own[i].orders,
            id,
        ) == 1 by {
        assert(b0.index.dom().contains(id) && b0.index[id] == mf[id]);
    }
    // the swept side under the advanced allocator
    assert forall|i: int, j: int|
        0 <= i < s.levels.len() && 0 <= j < s.levels[i].orders.len() implies {
        let o = #[trigger] s.levels[i].orders[j];
        &&& mf.dom().contains(o.id)
        &&& mf[o.id] == (oside, s.levels[i].price)
        &&& o.id < b1.next_id
    } by {
        assert(side_indexed(oside, s.levels, mf, b0.next_id));
    }
    match order_side {
        OrderSide::Buy => {
            assert(b1.bids == b0.bids && b1.asks == s.levels);
            assert(side_indexed(OrderSide::Buy, b1.bids, b1.index, b1.next_id));
            assert(side_indexed(OrderSide::Sell, b1.asks, b1.index, b1.next_id));
            assert(side_resolves(OrderSide::Buy, b1.bids, b1.index));
            assert(side_resolves(OrderSide::Sell, b1.asks, b1.index));
        },
        OrderSide::Sell => {
            assert(b1.asks == b0.asks && b1.bids == s.levels);
            assert(side_indexed(OrderSide::Buy, b1.bids, b1.index, b1.next_id));
            assert(side_indexed(OrderSide::Sell, b1.asks, b1.index, b1.next_id));
            assert(side_resolves(OrderSide::Buy, b1.bids, b1.index));
            assert(side_resolves(OrderSide::Sell, b1.asks, b1.index));
        },
    }
    assert(b1.bid_total + b1.ask_total + (qty - s.remaining) == b0.bid_total + b0.ask_total);
    assert(b0.bid_total + b0.ask_total <= b0.next_id as int * AMOUNT_CAP as int);
    assert(b0.next_id as int * AMOUNT_CAP as int + AMOUNT_CAP as int == (b0.next_id as int + 1)
        * AMOUNT_CAP as int) by (nonlinear_arith);
    assert(b1.index.dom().len() == side_order_count(b1.bids) + side_order_count(b1.asks));
}

/// Resting a fresh order on its own side keeps the whole book well
/// formed, once its location is recorded in the index.
#[verifier::rlimit(60)]
proof fn lemma_inv_after_rest(
    b1: BookRec,
    order_side: OrderSide,
    lvl: int,
    ord: OrderRec,
    lvf: Seq<LevelRec>,
    pos: int,
)
    requires
        inv(b1),
        ord.qty > 0,
        0 <= lvl,
        !b1.index.dom().contains(ord.id),
        ord.id < b1.next_id,
        b1.bid_total + b1.ask_total + ord.qty <= b1.next_id as int * AMOUNT_CAP as int,
        0 <= pos <= side_levels(b1, order_side).len(),
        ({
            let own = side_levels(b1, order_side);
            (pos < own.len() && own[pos].price == lvl && lvf == own.update(
                pos,
                LevelRec { price: lvl, orders: own[pos].orders.push(ord) },
            )) || lvf == own.insert(pos, LevelRec { price: lvl, orders: seq![ord] })
        }),
        side_sorted(order_side, lvf),
        forall|i: int| 0 <= i < lvf.len() ==> level_wf(#[trigger] lvf[i]),
        side_volume(lvf) == side_volume(side_levels(b1, order_side)) + ord.qty,
        side_order_count(lvf) == side_order_count(side_levels(b1, order_side)) + 1,
    ensures
        ({
            let b2 = BookRec {
                index: b1.index.insert(ord.id, (order_side, lvl)),
                ..with_levels(add_total(b1, order_side, ord.qty), order_side, lvf)
            };
            inv(b2)
        }),
{
    let own = side_levels(b1, order_side);
    let other = side_levels(b1, opposite(order_side));
    let m2 = b1.index.insert(ord.id, (order_side, lvl));
    let b2 = BookRec {
        index: m2,
        ..with_levels(add_total(b1, order_side, ord.qty), order_side, lvf)
    };
    // no resting order already carries the fresh id
    assert forall|k: int, j: int|
        0 <= k < own.len() && 0 <= j < own[k].orders.len() implies (
    #[trigger] own[k].orders[j]).id != ord.id by {
        assert(b1.index.dom().contains(own[k].orders[j].id));
    }
    lemma_indexed_after_insert(order_side, own, lvf, lvl, ord, b1.index, b1.next_id, pos);
    // the other side is untouched: its orders keep their entries
    assert forall|i: int, j: int|
        0 <= i < other.len() && 0 <= j < other[i].orders.len() implies {
        let o = #[trigger] other[i].orders[j];
        &&& m2.dom().contains(o.id)
        &&& m2[o.id] == (opposite(order_side), other[i].price)
        &&& o.id < b1.next_id
    } by {
        assert(b1.index.dom().contains(other[i].orders[j].id));
        assert(other[i].orders[j].id != ord.id);
    }
    assert forall|id2: u64|
        #[trigger] m2.dom().contains(id2) && m2[id2].0 == opposite(order_side) implies exists|
        i: int,
    |
        0 <= i < other.len() && (#[trigger] other[i]).price == m2[id2].1 && orders_count_id(
            other[i].orders,
            id2,
        ) == 1 by {
        if id2 != ord.id {
            assert(b1.index.dom().contains(id2) && b1.index[id2] == m2[id2]);
        }
    }
    vstd::set::axiom_set_insert_len(b1.index.dom(), ord.id);
    match order_side {
        OrderSide::Buy => {
            assert(b2.bids == lvf && b2.asks == b1.asks);
            assert(side_indexed(OrderSide::Buy, b2.bids, b2.index, b2.next_id));
            assert(side_indexed(OrderSide::Sell, b2.asks, b2.index, b2.next_id));
            assert(side_resolves(OrderSide::Buy, b2.bids, b2.index));
            assert(side_resolves(OrderSide::Sell, b2.asks, b2.index));
        },
        OrderSide::Sell => {
            assert(b2.bids == b1.bids && b2.asks == lvf);
            assert(side_indexed(OrderSide::Buy, b2.bids, b2.index, b2.next_id));
            assert(side_indexed(OrderSide::Sell, b2.asks, b2.index, b2.next_id));
            assert(side_resolves(OrderSide::Buy, b2.bids, b2.index));
            assert(side_resolves(OrderSide::Sell, b2.asks, b2.index));
        },
    }
    assert(b2.index.dom().len() == side_order_count(b2.bids) + side_order_count(b2.asks));
}


impl OrderBook {
    /// Adds a limit order with price-time priority matching.
    ///
    /// The order first consumes crossing liquidity from the opposite
    /// side, best level first and FIFO within a level; crossing is
    /// inclusive, so a price equal to the opposite best matches. Any
    /// residual quantity rests at the price snapped to the tick grid. An
    /// id is allocated unconditionally once the inputs validate, whether
    /// or not anything rests. A non-positive price is rejected first,
    /// then a non-positive quantity, in both cases leaving the book
    /// unchanged.
    #[verifier::rlimit(100)]
    pub fn add_limit_order(
        &mut self,
        order_side: OrderSide,
        price: Num,
        quantity: Num,
    ) -> (result: Result<(OrderId, Vec<Fill>), BookError>)
        requires
            old(self).wf(),
            old(self)@.next_id < u64::MAX,
            quantity@ <= AMOUNT_CAP as int,
            price@ + old(self)@.tick_size <= AMOUNT_CAP as int,
        ensures
            final(self).wf(),
            inv(final(self)@),
            ({
                let r = spec_add_limit(old(self)@, order_side, price@, quantity@);
                &&& final(self)@ == r.book
                &&& (match result {
                    Ok(p) => r.out == Ok::<(u64, Seq<FillRec>), BookError>(
                        (p.0, fills_view(p.1@)),
                    ),
                    Err(e) => r.out == Err::<(u64, Seq<FillRec>), BookError>(e),
                })
            }),
            result is Ok <==> (price@ > 0 && quantity@ > 0),
            result is Err ==> final(self)@ == old(self)@,
    {
        let ghost b0 = self@;
        if price.units() <= 0 {
            return Err(BookError::InvalidPrice);
        }
        if quantity.units() <= 0 {
            return Err(BookError::InvalidQuantity);
        }
        proof {
            // every id the index knows is below the allocator
            lemma_index_ids_below_next(b0);
        }
        let order_id = self.next_order_id();
        let mut fills: Vec<Fill> = Vec::new();
        let ghost oside = opposite(order_side);
        let ghost limv = Some(price@);
        let ghost qty0 = quantity@;
        let ghost lv_opp = side_levels(b0, oside);
        let ghost s = sweep(order_side, limv, lv_opp, qty0, order_id);
        let ghost mf = remove_ids(b0.index, s.removed);
        let ghost b1 = BookRec {
            next_id: (b0.next_id + 1) as u64,
            index: mf,
            ..with_levels(add_total(b0, oside, -(qty0 - s.remaining)), oside, s.levels)
        };
        let ghost old_opp = (match order_side {
            OrderSide::Buy => self.asks@,
            OrderSide::Sell => self.bids@,
        });
        let remaining: i128 = match order_side {
            OrderSide::Buy => sweep_side(
                &mut self.asks,
                &mut self.order_lookup,
                &mut self.total_ask_volume,
                &mut fills,
                OrderSide::Buy,
                Some(price.units()),
                quantity.units(),
                order_id,
                Ghost(order_id),
            ),
            OrderSide::Sell => sweep_side(
                &mut self.bids,
                &mut self.order_lookup,
                &mut self.total_bid_volume,
                &mut fills,
                OrderSide::Sell,
                Some(price.units()),
                quantity.units(),
                order_id,
                Ghost(order_id),
            ),
        };
        proof {
            match order_side {
                OrderSide::Buy => {
                assert(lv_opp == levels_view(old_opp));
                assert(s == sweep(order_side, limv, lv_opp, qty0, order_id));
                assert(levels_view(self.asks@) == s.levels);
                assert(loc_map(self.order_lookup@) == mf);
                assert(self.total_ask_volume as int == side_volume(s.levels));
                assert(self.total_ask_volume as int == side_total(b0, oside) - (qty0
                    - s.remaining));
                assert(remaining == s.remaining);
                assert(fills_view(fills@) == s.fills);
                assert(fills_volume(s.fills) == qty0 - s.remaining);
                assert(side_sorted(oside, s.levels));
                assert(forall|i: int| 0 <= i < s.levels.len() ==> level_wf(#[trigger] s.levels[i]));
                assert(side_indexed(oside, s.levels, mf, order_id));
                assert(side_resolves(oside, s.levels, mf));
                assert(mf.dom().finite());
                assert(mf.dom().len() + s.removed.len() == b0.index.dom().len());
                assert(s.removed.len() + side_order_count(s.levels) == side_order_count(lv_opp));
                assert(forall|id: u64|
                    #[trigger] mf.dom().contains(id) ==> b0.index.dom().contains(id) && mf[id]
                        == b0.index[id]);
                assert(forall|id: u64|
                    #[trigger] b0.index.dom().contains(id) && b0.index[id].0 != oside
                        ==> mf.dom().contains(id));
                assert(self@ == b1);
                assert(self.caches_ok());
            },
                OrderSide::Sell => {
                assert(lv_opp == levels_view(old_opp));
                assert(s == sweep(order_side, limv, lv_opp, qty0, order_id));
                assert(levels_view(self.bids@) == s.levels);
                assert(loc_map(self.order_lookup@) == mf);
                assert(self.total_bid_volume as int == side_volume(s.levels));
                assert(self.total_bid_volume as int == side_total(b0, oside) - (qty0
                    - s.remaining));
                assert(remaining == s.remaining);
                assert(fills_view(fills@) == s.fills);
                assert(fills_volume(s.fills) == qty0 - s.remaining);
                assert(side_sorted(oside, s.levels));
                assert(forall|i: int| 0 <= i < s.levels.len() ==> level_wf(#[trigger] s.levels[i]));
                assert(side_indexed(oside, s.levels, mf, order_id));
                assert(side_resolves(oside, s.levels, mf));
                assert(mf.dom().finite());
                assert(mf.dom().len() + s.removed.len() == b0.index.dom().len());
                assert(s.removed.len() + side_order_count(s.levels) == side_order_count(lv_opp));
                assert(forall|id: u64|
                    #[trigger] mf.dom().contains(id) ==> b0.index.dom().contains(id) && mf[id]
                        == b0.index[id]);
                assert(forall|id: u64|
                    #[trigger] b0.index.dom().contains(id) && b0.index[id].0 != oside
                        ==> mf.dom().contains(id));
                assert(self@ == b1);
                assert(self.caches_ok());
            },
            }
            lemma_inv_after_sweep(b0, order_side, limv, qty0);
            assert(inv(b1));
        }
        if remaining > 0 {
            let tick = match Tick::new(price, Num::from_units(self.tick_size)) {
                Ok(t) => t,
                Err(e) => {
                    proof {
                        assert(false);
                    }
                    return Err(e);
                },
            };
            let lvl_units = tick.level().units();
            let ghost lvl = snapped_units(price@, b0.tick_size);
            let ghost ordv = OrderRec { id: order_id, qty: remaining as int };
            let resting = Order {
                id: order_id,
                quantity: Num::from_units(remaining),
                order_type: OrderType::Limit,
                order_side,
            };
            proof {
                assert(lvl_units as int == lvl);
                assert(!mf.dom().contains(order_id));
                assert(side_volume(side_levels(b1, order_side)) + remaining as int <= i128::MAX
                    as int) by {
                    assert(side_volume(side_levels(b1, order_side)) == side_total(b1, order_side));
                    assert(b1.bid_total >= 0 && b1.ask_total >= 0) by {
                        lemma_side_volume_nonneg_book(b1);
                    };
                };
                assert forall|k: int, j: int|
                    0 <= k < side_levels(b1, order_side).len() && 0 <= j < side_levels(
                        b1,
                        order_side,
                    )[k].orders.len() implies (#[trigger] side_levels(b1, order_side)[k].orders[j]).id
                    != order_id by {
                    assert(mf.dom().contains(side_levels(b1, order_side)[k].orders[j].id));
                };
            }
            let pos: Ghost<int> = match order_side {
                OrderSide::Buy => {
                    proof {
                        assert(levels_view(self.bids@) == b1.bids);
                        assert forall|i: int| 0 <= i < self.bids@.len() implies level_wf(
                            #[trigger] levels_view(self.bids@)[i],
                        ) by {
                            assert(levels_view(self.bids@)[i] == b1.bids[i]);
                        }
                        assert forall|k: int, j: int|
                            0 <= k < levels_view(self.bids@).len() && 0 <= j < levels_view(
                                self.bids@,
                            )[k].orders.len() implies (#[trigger] levels_view(
                            self.bids@,
                        )[k].orders[j]).id != order_id by {
                            assert(levels_view(self.bids@)[k] == b1.bids[k]);
                            assert(mf.dom().contains(b1.bids[k].orders[j].id));
                        }
                        assert(side_volume(levels_view(self.bids@)) == b1.bid_total);
                        lemma_side_volume_nonneg_book(b1);
                    }
                    insert_resting(&mut self.bids, OrderSide::Buy, lvl_units, resting)
                },
                OrderSide::Sell => {
                    proof {
                        assert(levels_view(self.asks@) == b1.asks);
                        assert forall|i: int| 0 <= i < self.asks@.len() implies level_wf(
                            #[trigger] levels_view(self.asks@)[i],
                        ) by {
                            assert(levels_view(self.asks@)[i] == b1.asks[i]);
                        }
                        assert forall|k: int, j: int|
                            0 <= k < levels_view(self.asks@).len() && 0 <= j < levels_view(
                                self.asks@,
                            )[k].orders.len() implies (#[trigger] levels_view(
                            self.asks@,
                        )[k].orders[j]).id != order_id by {
                            assert(levels_view(self.asks@)[k] == b1.asks[k]);
                            assert(mf.dom().contains(b1.asks[k].orders[j].id));
                        }
                        assert(side_volume(levels_view(self.asks@)) == b1.ask_total);
                        lemma_side_volume_nonneg_book(b1);
                    }
                    insert_resting(&mut self.asks, OrderSide::Sell, lvl_units, resting)
                },
            };
            let ghost lvf = rest_insert(order_side, side_levels(b1, order_side), lvl, ordv);
            match order_side {
                OrderSide::Buy => {
                    proof {
                        assert(levels_view(self.bids@) == lvf);
                        assert(self.caches_ok());
                    }
                    self.total_bid_volume = self.total_bid_volume + remaining;
                },
                OrderSide::Sell => {
                    proof {
                        assert(levels_view(self.asks@) == lvf);
                        assert(self.caches_ok());
                    }
                    self.total_ask_volume = self.total_ask_volume + remaining;
                },
            }
            let ghost lk_mid = self.order_lookup@;
            self.order_lookup.insert(order_id, (order_side, lvl_units));
            proof {
                lemma_loc_map_insert(lk_mid, order_id, (order_side, lvl_units));
                lemma_inv_after_rest(b1, order_side, lvl, ordv, lvf, pos@);
                let b2 = BookRec {
                    index: b1.index.insert(order_id, (order_side, lvl)),
                    ..with_levels(add_total(b1, order_side, ordv.qty), order_side, lvf)
                };
                assert(self@ == b2);
                assert(inv(self@));
                let r = spec_add_limit(b0, order_side, price@, quantity@);
                assert(r.book == b2);
                assert(r.out == Ok::<(u64, Seq<FillRec>), BookError>((order_id, s.fills)));
            }
        } else {
            proof {
                assert(self@ == b1);
                let r = spec_add_limit(b0, order_side, price@, quantity@);
                assert(r.book == b1);
                assert(r.out == Ok::<(u64, Seq<FillRec>), BookError>((order_id, s.fills)));
            }
        }
        Ok((order_id, fills))
    }
}

/// Both cached aggregates of a well-formed book are sums of positive
/// quantities, hence non-negative.
proof fn lemma_side_volume_nonneg_book(b: BookRec)
    requires
        inv(b),
    ensures
        b.bid_total >= 0,
        b.ask_total >= 0,
{
    assert(forall|i: int, j: int|
        0 <= i < b.bids.len() && 0 <= j < b.bids[i].orders.len() ==> (
        #[trigger] b.bids[i].orders[j]).qty > 0) by {
        assert(forall|i: int| 0 <= i < b.bids.len() ==> level_wf(#[trigger] b.bids[i]));
    };
    assert(forall|i: int, j: int|
        0 <= i < b.asks.len() && 0 <= j < b.asks[i].orders.len() ==> (
        #[trigger] b.asks[i].orders[j]).qty > 0) by {
        assert(forall|i: int| 0 <= i < b.asks.len() ==> level_wf(#[trigger] b.asks[i]));
    };
    lemma_side_volume_nonneg(b.bids);
    lemma_side_volume_nonneg(b.asks);
}


impl OrderBook {
    /// Executes a market order against the opposite side.
    ///
    /// The available liquidity is checked first: if the opposite
    /// aggregate volume is below the requested quantity, the call fails
    /// with no state change and no id allocated. Otherwise an id is
    /// allocated and the opposite side is consumed best level first and
    /// FIFO within a level, with no price barrier, until the quantity is
    /// filled. The fill quantities sum to exactly the request, the
    /// opposite aggregate drops by exactly the request, and nothing
    /// rests.
    #[verifier::rlimit(100)]
    pub fn execute_market_order(&mut self, side: OrderSide, quantity: Num) -> (result: Result<
        Vec<Fill>,
        BookError,
    >)
        requires
            old(self).wf(),
            quantity@ <= AMOUNT_CAP as int,
            quantity@ <= side_total(old(self)@, opposite(side)) ==> old(self)@.next_id < u64::MAX,
        ensures
            final(self).wf(),
            inv(final(self)@),
            ({
                let r = spec_execute_market(old(self)@, side, quantity@);
                &&& final(self)@ == r.book
                &&& (match result {
                    Ok(f) => r.out == Ok::<Seq<FillRec>, BookError>(fills_view(f@)),
                    Err(e) => r.out == Err::<Seq<FillRec>, BookError>(e),
                })
            }),
            result is Ok <==> quantity@ <= side_total(old(self)@, opposite(side)),
            result is Err ==> final(self)@ == old(self)@ && result == Err::<Vec<Fill>, BookError>(
                BookError::InsufficientLiquidity,
            ),
            (match result {
                Ok(f) => quantity@ >= 0 ==> fills_volume(fills_view(f@)) == quantity@
                    && side_total(final(self)@, opposite(side)) == side_total(
                    old(self)@,
                    opposite(side),
                ) - quantity@ && side_levels(final(self)@, side) == side_levels(old(self)@, side),
                Err(_) => true,
            }),
            result is Ok && quantity@ == side_total(old(self)@, opposite(side)) ==> side_levels(
                final(self)@,
                opposite(side),
            ).len() == 0 && side_total(final(self)@, opposite(side)) == 0,
    {
        let ghost b0 = self@;
        let available = match side {
            OrderSide::Buy => self.total_ask_volume,
            OrderSide::Sell => self.total_bid_volume,
        };
        if available < quantity.units() {
            return Err(BookError::InsufficientLiquidity);
        }
        let order_id = self.next_order_id();
        let mut fills: Vec<Fill> = Vec::new();
        let ghost oside = opposite(side);
        let ghost limv = None::<int>;
        let ghost qty0 = quantity@;
        let ghost lv_opp = side_levels(b0, oside);
        let ghost s = sweep(side, limv, lv_opp, qty0, order_id);
        let ghost mf = remove_ids(b0.index, s.removed);
        let ghost b1 = BookRec {
            next_id: (b0.next_id + 1) as u64,
            index: mf,
            ..with_levels(add_total(b0, oside, -(qty0 - s.remaining)), oside, s.levels)
        };
        let ghost old_opp = (match side {
            OrderSide::Buy => self.asks@,
            OrderSide::Sell => self.bids@,
        });
        let remaining: i128;
        if quantity.units() < 0 {
            remaining = quantity.units();
            proof {
                if lv_opp.len() > 0 {
                    assert(level_wf(lv_opp[0]));
                }
                assert(s == (SweepRec {
                    levels: lv_opp,
                    fills: Seq::<FillRec>::empty(),
                    removed: Seq::<u64>::empty(),
                    remaining: qty0,
                }));
                assert(fills_view(fills@) =~= s.fills);
                assert(self@ == b1);
                assert(self.caches_ok());
                // the invariant survives an allocator step alone
                assert(side_indexed(OrderSide::Buy, b1.bids, b1.index, b1.next_id));
                assert(side_indexed(OrderSide::Sell, b1.asks, b1.index, b1.next_id));
                assert(b0.next_id as int * AMOUNT_CAP as int + AMOUNT_CAP as int == (b0.next_id
                    as int + 1) * AMOUNT_CAP as int) by (nonlinear_arith);
                assert(inv(b1));
            }
        } else {
            remaining = match side {
                OrderSide::Buy => sweep_side(
                    &mut self.asks,
                    &mut self.order_lookup,
                    &mut self.total_ask_volume,
                    &mut fills,
                    OrderSide::Buy,
                    None,
                    quantity.units(),
                    order_id,
                    Ghost(order_id),
                ),
                OrderSide::Sell => sweep_side(
                    &mut self.bids,
                    &mut self.order_lookup,
                    &mut self.total_bid_volume,
                    &mut fills,
                    OrderSide::Sell,
                    None,
                    quantity.units(),
                    order_id,
                    Ghost(order_id),
                ),
            };
            proof {
                match side {
                    OrderSide::Buy => {
                    assert(lv_opp == levels_view(old_opp));
                    assert(s == sweep(side, limv, lv_opp, qty0, order_id));
                    assert(levels_view(self.asks@) == s.levels);
                    assert(loc_map(self.order_lookup@) == mf);
                    assert(self.total_ask_volume as int == side_volume(s.levels));
                    assert(self.total_ask_volume as int == side_total(b0, oside) - (qty0
                        - s.remaining));
                    assert(remaining == s.remaining);
                    assert(fills_view(fills@) == s.fills);
                    assert(fills_volume(s.fills) == qty0 - s.remaining);
                    assert(side_sorted(oside, s.levels));
                    assert(forall|i: int|
                        0 <= i < s.levels.len() ==> level_wf(#[trigger] s.levels[i]));
                    assert(side_indexed(oside, s.levels, mf, order_id));
                    assert(side_resolves(oside, s.levels, mf));
                    assert(mf.dom().finite());
                    assert(mf.dom().len() + s.removed.len() == b0.index.dom().len());
                    assert(s.removed.len() + side_order_count(s.levels) == side_order_count(
                        lv_opp,
                    ));
                    assert(forall|id: u64|
                        #[trigger] mf.dom().contains(id) ==> b0.index.dom().contains(id) && mf[id]
                            == b0.index[id]);
                    assert(forall|id: u64|
                        #[trigger] b0.index.dom().contains(id) && b0.index[id].0 != oside
                            ==> mf.dom().contains(id));
                    assert(remaining > 0 ==> s.levels.len() == 0);
                    assert(self@ == b1);
                    assert(self.caches_ok());
                },
                    OrderSide::Sell => {
                    assert(lv_opp == levels_view(old_opp));
                    assert(s == sweep(side, limv, lv_opp, qty0, order_id));
                    assert(levels_view(self.bids@) == s.levels);
                    assert(loc_map(self.order_lookup@) == mf);
                    assert(self.total_bid_volume as int == side_volume(s.levels));
                    assert(self.total_bid_volume as int == side_total(b0, oside) - (qty0
                        - s.remaining));
                    assert(remaining == s.remaining);
                    assert(fills_view(fills@) == s.fills);
                    assert(fills_volume(s.fills) == qty0 - s.remaining);
                    assert(side_sorted(oside, s.levels));
                    assert(forall|i: int|
                        0 <= i < s.levels.len() ==> level_wf(#[trigger] s.levels[i]));
                    assert(side_indexed(oside, s.levels, mf, order_id));
                    assert(side_resolves(oside, s.levels, mf));
                    assert(mf.dom().finite());
                    assert(mf.dom().len() + s.removed.len() == b0.index.dom().len());
                    assert(s.removed.len() + side_order_count(s.levels) == side_order_count(
                        lv_opp,
                    ));
                    assert(forall|id: u64|
                        #[trigger] mf.dom().contains(id) ==> b0.index.dom().contains(id) && mf[id]
                            == b0.index[id]);
                    assert(forall|id: u64|
                        #[trigger] b0.index.dom().contains(id) && b0.index[id].0 != oside
                            ==> mf.dom().contains(id));
                    assert(remaining > 0 ==> s.levels.len() == 0);
                    assert(self@ == b1);
                    assert(self.caches_ok());
                },
                }
                lemma_inv_after_sweep(b0, side, limv, qty0);
                assert(inv(b1));
                // the precheck guarantees complete execution
                lemma_side_volume_nonneg_book(b0);
                if remaining > 0 {
                    assert(s.levels.len() == 0);
                    assert(side_volume(s.levels) == 0);
                    assert(s.remaining <= 0);
                }
                assert(remaining == 0);
            }
        }
        proof {
            let r = spec_execute_market(b0, side, qty0);
            assert(r.book == b1);
            assert(r.out == Ok::<Seq<FillRec>, BookError>(s.fills));
            assert(self@ == b1);
            lemma_side_volume_nonneg_book(b0);
            if qty0 == side_total(b0, oside) {
                // consuming everything leaves the opposite side empty
                assert(side_total(b1, oside) == 0);
                if s.levels.len() > 0 {
                    assert(level_wf(s.levels[0]));
                    assert(forall|j: int|
                        0 <= j < s.levels[0].orders.len() ==> (#[trigger] s.levels[0].orders[j]).qty
                            > 0);
                    lemma_orders_volume_pos(s.levels[0].orders);
                    assert(forall|i: int, j: int|
                        0 <= i < s.levels.len() && 0 <= j < s.levels[i].orders.len() ==> (
                        #[trigger] s.levels[i].orders[j]).qty > 0) by {
                        assert(forall|i: int|
                            0 <= i < s.levels.len() ==> level_wf(#[trigger] s.levels[i]));
                    };
                    lemma_side_volume_nonneg(s.levels);
                    assert(false);
                }
            }
        }
        Ok(fills)
    }
}


/// Splices the resting order `order_id` out of the side it rests on,
/// dropping its level if that empties it, and returns the removed
/// quantity. Behaves exactly as the model `side_cancel`.
#[verifier::rlimit(100)]
fn cancel_in_side(
    levels: &mut Vec<LevelEntry>,
    side: OrderSide,
    price_units: i128,
    order_id: u64,
    Ghost(m): Ghost<Map<u64, (OrderSide, int)>>,
    Ghost(next_id): Ghost<u64>,
) -> (qty: i128)
    requires
        side_sorted(side, levels_view(old(levels)@)),
        forall|i: int|
            0 <= i < old(levels)@.len() ==> level_wf(#[trigger] levels_view(old(levels)@)[i]),
        forall|i: int|
            0 <= i < old(levels)@.len() ==> (#[trigger] old(levels)@[i]).orders.cache_ok(),
        side_indexed(side, levels_view(old(levels)@), m, next_id),
        side_resolves(side, levels_view(old(levels)@), m),
        m.dom().contains(order_id),
        m[order_id] == (side, price_units as int),
    ensures
        ({
            let lv0 = levels_view(old(levels)@);
            let p = price_units as int;
            let lvf = side_cancel(lv0, p, order_id);
            &&& levels_view(final(levels)@) == lvf
            &&& qty as int == orders_qty_of_id(lv0[level_pos(lv0, p)].orders, order_id)
            &&& 0 < qty
            &&& qty as int <= side_volume(lv0)
            &&& (forall|i: int|
                0 <= i < final(levels)@.len() ==> (#[trigger] final(levels)@[i]).orders.cache_ok())
            &&& side_sorted(side, lvf)
            &&& (forall|i: int| 0 <= i < lvf.len() ==> level_wf(#[trigger] lvf[i]))
            &&& side_volume(lvf) == side_volume(lv0) - qty
            &&& side_order_count(lvf) == side_order_count(lv0) - 1
            &&& side_indexed(side, lvf, m.remove(order_id), next_id)
            &&& side_resolves(side, lvf, m.remove(order_id))
        }),
{
    let ghost lv0 = levels_view(levels@);
    let ghost p = price_units as int;
    let ghost kw = choose|k: int|
        0 <= k < lv0.len() && (#[trigger] lv0[k]).price == p && orders_count_id(
            lv0[k].orders,
            order_id,
        ) == 1;
    let mut i: usize = 0;
    loop
        invariant
            0 <= i <= lv0.len(),
            levels_view(levels@) == lv0,
            side_sorted(side, lv0),
            forall|k: int| 0 <= k < i ==> (#[trigger] lv0[k]).price != p,
            p == price_units as int,
            0 <= kw < lv0.len() && lv0[kw].price == p && orders_count_id(lv0[kw].orders, order_id)
                == 1,
        ensures
            levels_view(levels@) == lv0,
            forall|k: int| 0 <= k < i ==> (#[trigger] lv0[k]).price != p,
            i < lv0.len() && lv0[i as int].price == p,
            orders_count_id(lv0[i as int].orders, order_id) == 1,
        decreases lv0.len() - i,
    {
        if i >= levels.len() {
            proof {
                assert(lv0[kw].price != p);
                assert(false);
            }
            break;
        }
        proof {
            assert(levels_view(levels@)[i as int] == levels@[i as int]@);
        }
        if levels[i].price_units == price_units {
            proof {
                // the level keyed `p` is unique, so it is the witness
                if i as int != kw {
                    assert(better(side, lv0[i as int].price, lv0[kw].price) || better(
                        side,
                        lv0[kw].price,
                        lv0[i as int].price,
                    ));
                }
                assert(i as int == kw);
            }
            break;
        }
        i = i + 1;
    }
    proof {
        lemma_level_pos_found(lv0, p, i as int);
    }
    let mut entry = levels.remove(i);
    let ghost rest_shape = levels_view(levels@);
    let ghost orders0 = lv0[i as int].orders;
    proof {
        assert(entry@ == lv0[i as int]);
        assert(entry@.orders == orders0);
        assert(rest_shape =~= lv0.remove(i as int));
        lemma_count_id_pos(orders0, order_id);
    }
    let ghost jw = choose|j: int| 0 <= j < orders0.len() && (#[trigger] orders0[j]).id == order_id;
    let mut j: usize = 0;
    loop
        invariant
            0 <= j <= orders0.len(),
            entry@.orders == orders0,
            entry@ == lv0[i as int],
            entry.orders.cache_ok(),
            forall|k: int| 0 <= k < j ==> (#[trigger] orders0[k]).id != order_id,
            0 <= jw < orders0.len() && orders0[jw].id == order_id,
        ensures
            entry@.orders == orders0,
            entry@ == lv0[i as int],
            entry.orders.cache_ok(),
            forall|k: int| 0 <= k < j ==> (#[trigger] orders0[k]).id != order_id,
            j < orders0.len() && orders0[j as int].id == order_id,
        decreases orders0.len() - j,
    {
        if j >= entry.orders.order_count {
            proof {
                assert(orders0.len() == entry.orders.order_count);
                assert(orders0[jw].id != order_id);
                assert(false);
            }
            break;
        }
        proof {
            assert(entry@.orders[j as int] == entry.orders.orders@[j as int]@);
        }
        if entry.orders.orders[j].id == order_id {
            break;
        }
        j = j + 1;
    }
    let removed_order = entry.orders.orders.remove(j).unwrap();
    let qty = removed_order.quantity.units();
    proof {
        assert(removed_order@ == orders0[j as int]);
        assert(entry.orders.orders@.map_values(|o: Order| o@) =~= orders0.remove(j as int));
        lemma_orders_scan(orders0, order_id, j as int);
        lemma_orders_volume_remove(orders0, j as int);
        assert(level_wf(lv0[i as int]));
        assert(forall|k: int|
            0 <= k < orders0.remove(j as int).len() ==> (#[trigger] orders0.remove(
                j as int,
            )[k]).qty > 0) by {
            assert(forall|k: int| 0 <= k < orders0.len() ==> (#[trigger] orders0[k]).qty > 0);
        };
        lemma_orders_volume_pos(orders0.remove(j as int));
        assert(forall|ii: int, jj: int|
            0 <= ii < lv0.len() && 0 <= jj < lv0[ii].orders.len() ==> (
            #[trigger] lv0[ii].orders[jj]).qty > 0) by {
            assert(forall|ii: int| 0 <= ii < lv0.len() ==> level_wf(#[trigger] lv0[ii]));
        };
        lemma_level_volume_le_side(lv0, i as int);
    }
    entry.orders.total_volume = entry.orders.total_volume - qty;
    entry.orders.order_count = entry.orders.order_count - 1;
    let ghost orders1 = orders0.remove(j as int);
    let ghost mr = m.remove(order_id);
    proof {
        // no other order anywhere on this side carries the cancelled id
        assert forall|ii: int, jj: int|
            0 <= ii < lv0.len() && 0 <= jj < lv0[ii].orders.len() && !(ii == i as int && jj == j
                as int) implies (#[trigger] lv0[ii].orders[jj]).id != order_id by {
            if lv0[ii].orders[jj].id == order_id {
                assert(m[order_id] == (side, lv0[ii].price));
                if ii != i as int {
                    assert(better(side, lv0[ii].price, lv0[i as int].price) || better(
                        side,
                        lv0[i as int].price,
                        lv0[ii].price,
                    ));
                } else {
                    lemma_orders_count_remove(orders0, j as int, order_id);
                    lemma_count_id_pos(orders1, order_id);
                    let j2 = choose|j2: int|
                        0 <= j2 < orders1.len() && (#[trigger] orders1[j2]).id == order_id;
                    assert(false);
                }
            }
        }
    }
    if entry.orders.order_count > 0 {
        levels.insert(i, entry);
        proof {
            let upd = LevelRec { price: p, orders: orders1 };
            assert(entry@ == upd);
            assert(levels_view(levels@) =~= lv0.update(i as int, upd));
            assert(side_cancel(lv0, p, order_id) == lv0.update(i as int, upd));
            lemma_side_volume_update(lv0, i as int, upd);
            let lvf = lv0.update(i as int, upd);
            assert(level_wf(upd)) by {
                assert(forall|k1: int, k2: int|
                    0 <= k1 < k2 < orders1.len() ==> (#[trigger] orders1[k1]).id != (
                    #[trigger] orders1[k2]).id) by {
                    assert(forall|k: int|
                        0 <= k < orders1.len() ==> orders1[k] == (if k < j as int {
                            orders0[k]
                        } else {
                            orders0[k + 1]
                        }));
                };
            };
            assert(forall|ii: int|
                0 <= ii < lvf.len() ==> level_wf(#[trigger] lvf[ii])) by {
                assert(forall|ii: int| 0 <= ii < lvf.len() && ii != i as int ==> lvf[ii] == lv0[ii]);
            };
            assert(side_sorted(side, lvf)) by {
                assert(forall|ii: int|
                    0 <= ii < lvf.len() ==> (#[trigger] lvf[ii]).price == lv0[ii].price);
            };
            assert forall|ii: int, jj: int|
                0 <= ii < lvf.len() && 0 <= jj < lvf[ii].orders.len() implies {
                let o = #[trigger] lvf[ii].orders[jj];
                &&& mr.dom().contains(o.id)
                &&& mr[o.id] == (side, lvf[ii].price)
                &&& o.id < next_id
            } by {
                if ii == i as int {
                    assert(lvf[ii].orders[jj] == (if jj < j as int {
                        orders0[jj]
                    } else {
                        orders0[jj + 1]
                    }));
                } else {
                    assert(lvf[ii] == lv0[ii]);
                }
            }
            assert forall|id2: u64|
                #[trigger] mr.dom().contains(id2) && mr[id2].0 == side implies exists|ii: int|
                0 <= ii < lvf.len() && (#[trigger] lvf[ii]).price == mr[id2].1 && orders_count_id(
                    lvf[ii].orders,
                    id2,
                ) == 1 by {
                let k = choose|k: int|
                    0 <= k < lv0.len() && (#[trigger] lv0[k]).price == m[id2].1 && orders_count_id(
                        lv0[k].orders,
                        id2,
                    ) == 1;
                if k == i as int {
                    lemma_orders_count_remove(orders0, j as int, id2);
                    assert(orders_count_id(lvf[k].orders, id2) == 1);
                } else {
                    assert(lvf[k] == lv0[k]);
                }
            }
        }
    } else {
        proof {
            assert(orders1.len() == 0);
            assert(levels_view(levels@) == rest_shape);
            assert(side_cancel(lv0, p, order_id) == lv0.remove(i as int));
            assert(rest_shape =~= lv0.remove(i as int));
            lemma_side_volume_remove(lv0, i as int);
            let lvf = lv0.remove(i as int);
            assert(forall|ii: int|
                0 <= ii < lvf.len() ==> #[trigger] lvf[ii] == (if ii < i as int {
                    lv0[ii]
                } else {
                    lv0[ii + 1]
                }));
            assert(forall|ii: int| 0 <= ii < lvf.len() ==> level_wf(#[trigger] lvf[ii]));
            assert(side_sorted(side, lvf));
            assert forall|ii: int, jj: int|
                0 <= ii < lvf.len() && 0 <= jj < lvf[ii].orders.len() implies {
                let o = #[trigger] lvf[ii].orders[jj];
                &&& mr.dom().contains(o.id)
                &&& mr[o.id] == (side, lvf[ii].price)
                &&& o.id < next_id
            } by {
                if ii < i as int {
                    assert(lvf[ii] == lv0[ii]);
                } else {
                    assert(lvf[ii] == lv0[ii + 1]);
                }
            }
            assert forall|id2: u64|
                #[trigger] mr.dom().contains(id2) && mr[id2].0 == side implies exists|ii: int|
                0 <= ii < lvf.len() && (#[trigger] lvf[ii]).price == mr[id2].1 && orders_count_id(
                    lvf[ii].orders,
                    id2,
                ) == 1 by {
                let k = choose|k: int|
                    0 <= k < lv0.len() && (#[trigger] lv0[k]).price == m[id2].1 && orders_count_id(
                        lv0[k].orders,
                        id2,
                    ) == 1;
                if k == i as int {
                    // the emptied level held only the cancelled order
                    lemma_count_id_pos(lv0[k].orders, id2);
                    let j2 = choose|j2: int|
                        0 <= j2 < orders0.len() && (#[trigger] orders0[j2]).id == id2;
                    assert(orders0[j2].id != order_id);
                    assert(orders0.len() == 1);
                    assert(false);
                } else if k < i as int {
                    assert(lvf[k] == lv0[k]);
                } else {
                    assert(lvf[k - 1] == lv0[k]);
                }
            }
        }
    }
    qty
}


/// After one resting order is cancelled on its side and released from
/// the index, the whole book is well formed again.
#[verifier::rlimit(60)]
proof fn lemma_inv_after_cancel(b0: BookRec, sd: OrderSide, order_id: u64)
    requires
        inv(b0),
        b0.index.dom().contains(order_id),
        b0.index[order_id].0 == sd,
        ({
            let p = b0.index[order_id].1;
            let lv0 = side_levels(b0, sd);
            let lvf = side_cancel(lv0, p, order_id);
            let q = orders_qty_of_id(lv0[level_pos(lv0, p)].orders, order_id);
            &&& side_sorted(sd, lvf)
            &&& (forall|i: int| 0 <= i < lvf.len() ==> level_wf(#[trigger] lvf[i]))
            &&& side_volume(lvf) == side_volume(lv0) - q
            &&& side_order_count(lvf) == side_order_count(lv0) - 1
            &&& side_indexed(sd, lvf, b0.index.remove(order_id), b0.next_id)
            &&& side_resolves(sd, lvf, b0.index.remove(order_id))
        }),
    ensures
        ({
            let p = b0.index[order_id].1;
            let lv0 = side_levels(b0, sd);
            let lvf = side_cancel(lv0, p, order_id);
            let q = orders_qty_of_id(lv0[level_pos(lv0, p)].orders, order_id);
            let b1 = BookRec {
                index: b0.index.remove(order_id),
                ..with_levels(add_total(b0, sd, -q), sd, lvf)
            };
            inv(b1)
        }),
{
    let p = b0.index[order_id].1;
    let lv0 = side_levels(b0, sd);
    let lvf = side_cancel(lv0, p, order_id);
    let q = orders_qty_of_id(lv0[level_pos(lv0, p)].orders, order_id);
    let mr = b0.index.remove(order_id);
    let b1 = BookRec { index: mr, ..with_levels(add_total(b0, sd, -q), sd, lvf) };
    let other = side_levels(b0, opposite(sd));
    // the untouched side never held the cancelled id
    assert forall|i: int, j: int|
        0 <= i < other.len() && 0 <= j < other[i].orders.len() implies {
        let o = #[trigger] other[i].orders[j];
        &&& mr.dom().contains(o.id)
        &&& mr[o.id] == (opposite(sd), other[i].price)
        &&& o.id < b1.next_id
    } by {
        assert(b0.index.dom().contains(other[i].orders[j].id));
        assert(b0.index[other[i].orders[j].id].0 == opposite(sd));
    }
    assert forall|id2: u64|
        #[trigger] mr.dom().contains(id2) && mr[id2].0 == opposite(sd) implies exists|i: int|
        0 <= i < other.len() && (#[trigger] other[i]).price == mr[id2].1 && orders_count_id(
            other[i].orders,
            id2,
        ) == 1 by {
        assert(b0.index.dom().contains(id2) && b0.index[id2] == mr[id2]);
    }
    vstd::set::axiom_set_remove_len(b0.index.dom(), order_id);
    match sd {
        OrderSide::Buy => {
            assert(b1.bids == lvf && b1.asks == b0.asks);
            assert(side_indexed(OrderSide::Buy, b1.bids, b1.index, b1.next_id));
            assert(side_indexed(OrderSide::Sell, b1.asks, b1.index, b1.next_id));
            assert(side_resolves(OrderSide::Buy, b1.bids, b1.index));
            assert(side_resolves(OrderSide::Sell, b1.asks, b1.index));
        },
        OrderSide::Sell => {
            assert(b1.asks == lvf && b1.bids == b0.bids);
            assert(side_indexed(OrderSide::Buy, b1.bids, b1.index, b1.next_id));
            assert(side_indexed(OrderSide::Sell, b1.asks, b1.index, b1.next_id));
            assert(side_resolves(OrderSide::Buy, b1.bids, b1.index));
            assert(side_resolves(OrderSide::Sell, b1.asks, b1.index));
        },
    }
    // cancelled quantity is positive, so the capped bound only loosens
    assert(q > 0) by {
        assert(side_resolves(sd, lv0, b0.index));
        let kk = choose|kk: int|
            0 <= kk < lv0.len() && (#[trigger] lv0[kk]).price == p && orders_count_id(
                lv0[kk].orders,
                order_id,
            ) == 1;
        assert forall|k2: int| 0 <= k2 < kk implies (#[trigger] lv0[k2]).price != p by {
            if lv0[k2].price == p {
                assert(better(sd, lv0[k2].price, lv0[kk].price));
            }
        }
        lemma_level_pos_found(lv0, p, kk);
        lemma_count_id_pos(lv0[kk].orders, order_id);
        assert(level_wf(lv0[kk]));
        lemma_qty_of_id_pos(lv0[kk].orders, order_id);
    };
    assert(b1.index.dom().len() == side_order_count(b1.bids) + side_order_count(b1.asks));
}


impl OrderBook {
    /// Cancels a resting limit order by id.
    ///
    /// The order is located through the order index in one step, spliced
    /// out of its level, its quantity released from its side's aggregate
    /// volume, its level dropped if that empties it, and its id
    /// forgotten. An id that is not resting (never rested, already
    /// filled, or already cancelled) fails with no state change.
    #[verifier::rlimit(100)]
    pub fn cancel_limit_order(&mut self, order_id: OrderId) -> (result: Result<(), BookError>)
        requires
            old(self).wf(),
        ensures
            final(self).wf(),
            inv(final(self)@),
            ({
                let r = spec_cancel(old(self)@, order_id);
                &&& final(self)@ == r.book
                &&& (match result {
                    Ok(u) => r.out == Ok::<(), BookError>(()),
                    Err(e) => r.out == Err::<(), BookError>(e),
                })
            }),
            result is Ok <==> old(self)@.index.dom().contains(order_id),
            result is Err ==> final(self)@ == old(self)@ && result == Err::<(), BookError>(
                BookError::NotFound,
            ),
    {
        let ghost b0 = self@;
        let loc = match self.order_lookup.get(&order_id) {
            Some(v) => *v,
            None => {
                proof {
                    assert(!b0.index.dom().contains(order_id));
                }
                return Err(BookError::NotFound);
            },
        };
        let side = loc.0;
        let price_units = loc.1;
        proof {
            assert(self.order_lookup@.contains_key(order_id));
            assert(b0.index.dom().contains(order_id));
            assert(b0.index[order_id] == (side, price_units as int));
        }
        let q = match side {
            OrderSide::Buy => cancel_in_side(
                &mut self.bids,
                OrderSide::Buy,
                price_units,
                order_id,
                Ghost(b0.index),
                Ghost(b0.next_id),
            ),
            OrderSide::Sell => cancel_in_side(
                &mut self.asks,
                OrderSide::Sell,
                price_units,
                order_id,
                Ghost(b0.index),
                Ghost(b0.next_id),
            ),
        };
        let ghost p = price_units as int;
        let ghost lv0 = side_levels(b0, side);
        let ghost lvf = side_cancel(lv0, p, order_id);
        let ghost qs = orders_qty_of_id(lv0[level_pos(lv0, p)].orders, order_id);
        let ghost b1 = BookRec {
            index: b0.index.remove(order_id),
            ..with_levels(add_total(b0, side, -qs), side, lvf)
        };
        match side {
            OrderSide::Buy => {
                proof {
                    assert(levels_view(self.bids@) == lvf);
                    assert(q as int == qs);
                }
                self.total_bid_volume = self.total_bid_volume - q;
            },
            OrderSide::Sell => {
                proof {
                    assert(levels_view(self.asks@) == lvf);
                    assert(q as int == qs);
                }
                self.total_ask_volume = self.total_ask_volume - q;
            },
        }
        let ghost lk_pre = self.order_lookup@;
        self.order_lookup.remove(&order_id);
        proof {
            lemma_loc_map_remove(lk_pre, order_id);
            lemma_inv_after_cancel(b0, side, order_id);
            match side {
                OrderSide::Buy => {
                    assert(self@ == b1);
                    assert(self.caches_ok());
                },
                OrderSide::Sell => {
                    assert(self@ == b1);
                    assert(self.caches_ok());
                },
            }
            let r = spec_cancel(b0, order_id);
            assert(r.book == b1);
            assert(r.out == Ok::<(), BookError>(()));
        }
        Ok(())
    }
}


/// Finds the position of the level keyed `price_units`, scanning from
/// the best level: exactly where the model `level_pos` points.
fn find_level(levels: &Vec<LevelEntry>, price_units: i128) -> (r: Option<usize>)
    ensures
        ({
            let lv = levels_view(levels@);
            let p = price_units as int;
            &&& (r is Some <==> has_level(lv, p))
            &&& (r matches Some(i) ==> i < lv.len() && lv[i as int].price == p && level_pos(lv, p)
                == i as int)
        }),
{
    let ghost lv = levels_view(levels@);
    let ghost p = price_units as int;
    let mut i: usize = 0;
    loop
        invariant
            0 <= i <= lv.len(),
            lv == levels_view(levels@),
            p == price_units as int,
            forall|k: int| 0 <= k < i ==> (#[trigger] lv[k]).price != p,
        ensures
            lv == levels_view(levels@),
            forall|k: int| 0 <= k < i ==> (#[trigger] lv[k]).price != p,
            i <= lv.len(),
            i < lv.len() ==> lv[i as int].price == p,
            i == lv.len() ==> !has_level(lv, p),
        decreases lv.len() - i,
    {
        if i >= levels.len() {
            proof {
                lemma_level_pos_missing(lv, p);
            }
            break;
        }
        proof {
            assert(lv[i as int] == levels@[i as int]@);
        }
        if levels[i].price_units == price_units {
            break;
        }
        i = i + 1;
    }
    if i < levels.len() {
        proof {
            lemma_level_pos_found(lv, p, i as int);
        }
        Some(i)
    } else {
        None
    }
}

impl OrderBook {
    /// How many price levels currently rest on the bid side.
    pub fn bid_level_count(&self) -> (r: usize)
        ensures
            r == self@.bids.len(),
    {
        self.bids.len()
    }

    /// How many price levels currently rest on the ask side.
    pub fn ask_level_count(&self) -> (r: usize)
        ensures
            r == self@.asks.len(),
    {
        self.asks.len()
    }

    /// The number of resting orders at the level of `tick` on `side`, or
    /// nothing when no order rests there.
    pub fn level_order_count(&self, side: OrderSide, tick: &Tick) -> (r: Option<usize>)
        requires
            self.wf(),
        ensures
            r is Some <==> has_level(side_levels(self@, side), tick.level_spec()),
            r matches Some(n) ==> n as int == side_levels(self@, side)[level_pos(
                side_levels(self@, side),
                tick.level_spec(),
            )].orders.len(),
    {
        let price_units = tick.level().units();
        let found = match side {
            OrderSide::Buy => find_level(&self.bids, price_units),
            OrderSide::Sell => find_level(&self.asks, price_units),
        };
        match found {
            Some(i) => {
                let n = match side {
                    OrderSide::Buy => self.bids[i].orders.order_count,
                    OrderSide::Sell => self.asks[i].orders.order_count,
                };
                proof {
                    match side {
                        OrderSide::Buy => {
                            assert(side_levels(self@, side)[i as int] == self.bids@[i as int]@);
                        },
                        OrderSide::Sell => {
                            assert(side_levels(self@, side)[i as int] == self.asks@[i as int]@);
                        },
                    }
                }
                Some(n)
            },
            None => None,
        }
    }

    /// The total resting volume at the level of `tick` on `side`, or
    /// nothing when no order rests there.
    pub fn level_total_volume(&self, side: OrderSide, tick: &Tick) -> (r: Option<Num>)
        requires
            self.wf(),
        ensures
            r is Some <==> has_level(side_levels(self@, side), tick.level_spec()),
            r matches Some(n) ==> n@ == orders_volume(
                side_levels(self@, side)[level_pos(
                    side_levels(self@, side),
                    tick.level_spec(),
                )].orders,
            ),
    {
        let price_units = tick.level().units();
        let found = match side {
            OrderSide::Buy => find_level(&self.bids, price_units),
            OrderSide::Sell => find_level(&self.asks, price_units),
        };
        match found {
            Some(i) => {
                let v = match side {
                    OrderSide::Buy => self.bids[i].orders.total_volume,
                    OrderSide::Sell => self.asks[i].orders.total_volume,
                };
                proof {
                    match side {
                        OrderSide::Buy => {
                            assert(side_levels(self@, side)[i as int] == self.bids@[i as int]@);
                            assert(self.bids@[i as int].orders.cache_ok());
                        },
                        OrderSide::Sell => {
                            assert(side_levels(self@, side)[i as int] == self.asks@[i as int]@);
                            assert(self.asks@[i as int].orders.cache_ok());
                        },
                    }
                }
                Some(Num::from_units(v))
            },
            None => None,
        }
    }

    /// Whether an order with this id currently rests in the book.
    pub fn contains_order(&self, order_id: OrderId) -> (r: bool)
        ensures
            r == self@.index.dom().contains(order_id),
    {
        self.order_lookup.contains_key(&order_id)
    }

    /// The side and normalized level an order rests at, or nothing when
    /// the id is not resting.
    pub fn order_location(&self, order_id: OrderId) -> (r: Option<(OrderSide, Num)>)
        ensures
            r is Some <==> self@.index.dom().contains(order_id),
            r matches Some(loc) ==> self@.index[order_id] == (loc.0, loc.1@),
    {
        match self.order_lookup.get(&order_id) {
            Some(v) => Some((v.0, Num::from_units(v.1))),
            None => None,
        }
    }

    /// How many orders currently rest in the book, over both sides.
    pub fn open_order_count(&self) -> (r: usize)
        ensures
            r == self@.index.dom().len(),
    {
        proof {
            lemma_loc_map_dom(self.order_lookup@);
        }
        self.order_lookup.len()
    }

    /// The aggregate resting volume of the bid side.
    pub fn total_bid_volume(&self) -> (r: Num)
        ensures
            r@ == self@.bid_total,
    {
        Num::from_units(self.total_bid_volume)
    }

    /// The aggregate resting volume of the ask side.
    pub fn total_ask_volume(&self) -> (r: Num)
        ensures
            r@ == self@.ask_total,
    {
        Num::from_units(self.total_ask_volume)
    }
}


} // verus!
