//! Laws of the order book, stated and proved over the model.
//!
//! Each law is a public proof function whose hypotheses are only the
//! model invariant and what the law itself assumes; the conclusions are
//! stated over the same model transitions that the executable operations
//! are specified against.

use vstd::prelude::*;

use crate::book_lemmas::{
    lemma_index_ids_below_next, lemma_level_pos_found, lemma_rest_insert_cancel,
    lemma_sweep_keeps_order, lemma_sweep_no_fill,
};
use crate::book_model::{
    better, crosses, inv, level_pos, level_wf, no_cross, opposite, orders_count_id,
    orders_qty_of_id, rest_insert, side_cancel, side_levels, side_order_count, side_resolves,
    side_sorted, side_volume, spec_add_limit, spec_cancel, spec_execute_market, sweep, BookRec,
    OrderRec,
};
use crate::errors::BookError;
use crate::order::OrderSide;

verus! {

/// The cached aggregate volume of each side equals the sum of its level
/// volumes.
pub proof fn law_aggregate_volumes(b: BookRec)
    requires
        inv(b),
    ensures
        b.bid_total == side_volume(b.bids),
        b.ask_total == side_volume(b.asks),
{
}

/// The order index holds exactly one entry per resting order: its size
/// is the sum of the order counts over both sides.
pub proof fn law_index_size(b: BookRec)
    requires
        inv(b),
    ensures
        b.index.dom().len() == side_order_count(b.bids) + side_order_count(b.asks),
{
}

/// Every entry of the order index resolves to exactly one resting order
/// with that id, at the side and level the entry records.
pub proof fn law_index_resolves(b: BookRec, id: u64)
    requires
        inv(b),
        b.index.dom().contains(id),
    ensures
        exists|i: int|
            0 <= i < side_levels(b, b.index[id].0).len() && (#[trigger] side_levels(
                b,
                b.index[id].0,
            )[i]).price == b.index[id].1 && orders_count_id(
                side_levels(b, b.index[id].0)[i].orders,
                id,
            ) == 1,
{
    match b.index[id].0 {
        OrderSide::Buy => {
            assert(side_resolves(OrderSide::Buy, b.bids, b.index));
            let k = choose|k: int|
                0 <= k < b.bids.len() && (#[trigger] b.bids[k]).price == b.index[id].1
                    && orders_count_id(b.bids[k].orders, id) == 1;
            assert(side_levels(b, b.index[id].0) == b.bids);
            assert(side_levels(b, b.index[id].0)[k].price == b.index[id].1 && orders_count_id(
                side_levels(b, b.index[id].0)[k].orders,
                id,
            ) == 1);
        },
        OrderSide::Sell => {
            assert(side_resolves(OrderSide::Sell, b.asks, b.index));
            let k = choose|k: int|
                0 <= k < b.asks.len() && (#[trigger] b.asks[k]).price == b.index[id].1
                    && orders_count_id(b.asks[k].orders, id) == 1;
            assert(side_levels(b, b.index[id].0) == b.asks);
            assert(side_levels(b, b.index[id].0)[k].price == b.index[id].1 && orders_count_id(
                side_levels(b, b.index[id].0)[k].orders,
                id,
            ) == 1);
        },
    }
}

/// No side ever holds a level with an empty queue.
pub proof fn law_no_empty_levels(b: BookRec)
    requires
        inv(b),
    ensures
        forall|i: int| 0 <= i < b.bids.len() ==> (#[trigger] b.bids[i]).orders.len() > 0,
        forall|i: int| 0 <= i < b.asks.len() ==> (#[trigger] b.asks[i]).orders.len() > 0,
{
    assert(forall|i: int| 0 <= i < b.bids.len() ==> level_wf(#[trigger] b.bids[i]));
    assert(forall|i: int| 0 <= i < b.asks.len() ==> level_wf(#[trigger] b.asks[i]));
}

/// Accepted orders receive strictly increasing ids: two successive
/// successful submissions return the allocator's values in order.
pub proof fn law_ids_strictly_increase(
    b: BookRec,
    side1: OrderSide,
    p1: int,
    q1: int,
    side2: OrderSide,
    p2: int,
    q2: int,
)
    requires
        b.next_id < u64::MAX,
        spec_add_limit(b, side1, p1, q1).out is Ok,
        spec_add_limit(spec_add_limit(b, side1, p1, q1).book, side2, p2, q2).out is Ok,
    ensures
        ({
            let r1 = spec_add_limit(b, side1, p1, q1);
            let r2 = spec_add_limit(r1.book, side2, p2, q2);
            r1.out->Ok_0.0 < r2.out->Ok_0.0
        }),
{
}

/// Cancelling the same id twice: the first call succeeds and the second
/// returns `NotFound` leaving the book exactly as the first left it.
pub proof fn law_cancel_twice(b: BookRec, id: u64)
    requires
        inv(b),
        b.index.dom().contains(id),
    ensures
        spec_cancel(b, id).out == Ok::<(), BookError>(()),
        spec_cancel(spec_cancel(b, id).book, id).out == Err::<(), BookError>(BookError::NotFound),
        spec_cancel(spec_cancel(b, id).book, id).book == spec_cancel(b, id).book,
{
    let b1 = spec_cancel(b, id).book;
    assert(!b1.index.dom().contains(id));
}

/// A limit order priced exactly at the opposite best matches: crossing
/// is inclusive.
pub proof fn law_inclusive_crossing(b: BookRec, side: OrderSide, qty: int)
    requires
        inv(b),
        side_levels(b, opposite(side)).len() > 0,
        qty > 0,
        0 < side_levels(b, opposite(side))[0].price,
    ensures
        ({
            let price = side_levels(b, opposite(side))[0].price;
            let r = spec_add_limit(b, side, price, qty);
            &&& r.out is Ok
            &&& r.out->Ok_0.1.len() > 0
        }),
{
    let opp = side_levels(b, opposite(side));
    let price = opp[0].price;
    assert(level_wf(opp[0]));
    assert(opp[0].orders.len() > 0);
    let s = sweep(side, Some(price), opp, qty, b.next_id);
    assert(crosses(side, Some(price), opp[0].price));
    assert(s.fills.len() > 0);
}


/// An add that produced no fills, followed by a cancel of the returned
/// id, restores the whole book: every level, both aggregate volumes and
/// the order index are exactly as before; only the id allocator has
/// advanced.
#[verifier::rlimit(60)]
pub proof fn law_add_then_cancel_restores(b: BookRec, side: OrderSide, price: int, qty: int)
    requires
        inv(b),
        b.next_id < u64::MAX,
        spec_add_limit(b, side, price, qty).out is Ok,
        spec_add_limit(b, side, price, qty).out->Ok_0.1.len() == 0,
    ensures
        ({
            let r = spec_add_limit(b, side, price, qty);
            let c = spec_cancel(r.book, r.out->Ok_0.0);
            &&& c.out == Ok::<(), BookError>(())
            &&& c.book == (BookRec { next_id: (b.next_id + 1) as u64, ..b })
        }),
{
    let r = spec_add_limit(b, side, price, qty);
    assert(price > 0 && qty > 0);
    let id = b.next_id;
    let oside = opposite(side);
    let opp = side_levels(b, oside);
    let own = side_levels(b, side);
    let s = sweep(side, Some(price), opp, qty, id);
    assert(s.fills.len() == 0);
    assert forall|i: int| 0 <= i < opp.len() implies level_wf(#[trigger] opp[i]) by {
        match oside {
            OrderSide::Buy => {
                assert(opp[i] == b.bids[i]);
                assert(level_wf(b.bids[i]));
            },
            OrderSide::Sell => {
                assert(opp[i] == b.asks[i]);
                assert(level_wf(b.asks[i]));
            },
        }
    }
    lemma_sweep_no_fill(side, Some(price), opp, qty, id);
    assert(s.remaining == qty);
    assert(crate::book_model::remove_ids(b.index, Seq::empty()) == b.index);
    let lvl = crate::ticks::snapped_units(price, b.tick_size);
    let ordv = OrderRec { id, qty };
    let rested = rest_insert(side, own, lvl, ordv);
    // the fresh id rests nowhere yet
    lemma_index_ids_below_next(b);
    assert(!b.index.dom().contains(id));
    assert forall|k: int, j: int|
        0 <= k < own.len() && 0 <= j < own[k].orders.len() implies (
    #[trigger] own[k].orders[j]).id != id by {
        match side {
            OrderSide::Buy => {
                assert(own[k] == b.bids[k]);
                assert(b.index.dom().contains(b.bids[k].orders[j].id));
            },
            OrderSide::Sell => {
                assert(own[k] == b.asks[k]);
                assert(b.index.dom().contains(b.asks[k].orders[j].id));
            },
        }
    }
    assert forall|i: int| 0 <= i < own.len() implies level_wf(#[trigger] own[i]) by {
        match side {
            OrderSide::Buy => {
                assert(own[i] == b.bids[i]);
                assert(level_wf(b.bids[i]));
            },
            OrderSide::Sell => {
                assert(own[i] == b.asks[i]);
                assert(level_wf(b.asks[i]));
            },
        }
    }
    assert(side_sorted(side, own));
    lemma_rest_insert_cancel(side, own, lvl, ordv);
    // the rested book holds the fresh order exactly where the index says
    assert(r.book.index == b.index.insert(id, (side, lvl)));
    assert(side_levels(r.book, side) == rested);
    assert(side_levels(r.book, oside) == opp);
    let c = spec_cancel(r.book, id);
    assert(r.book.index.dom().contains(id));
    assert(r.book.index[id] == (side, lvl));
    assert(orders_qty_of_id(rested[level_pos(rested, lvl)].orders, id) == qty);
    assert(side_cancel(rested, lvl, id) == own);
    assert(b.index.insert(id, (side, lvl)).remove(id) =~= b.index);
    let expected = BookRec { next_id: (b.next_id + 1) as u64, ..b };
    match side {
        OrderSide::Buy => {
            assert(c.book.bids == b.bids);
            assert(c.book.asks == b.asks);
            assert(c.book.bid_total == b.bid_total + qty - qty);
            assert(c.book == expected);
        },
        OrderSide::Sell => {
            assert(c.book.asks == b.asks);
            assert(c.book.bids == b.bids);
            assert(c.book.ask_total == b.ask_total + qty - qty);
            assert(c.book == expected);
        },
    }
}


/// A cancellation never crosses the book: the best bid stays strictly
/// below the best ask whenever both sides remain non-empty.
#[verifier::rlimit(60)]
pub proof fn law_no_cross_after_cancel(b: BookRec, id: u64)
    requires
        inv(b),
        no_cross(b),
    ensures
        no_cross(spec_cancel(b, id).book),
{
    if b.index.dom().contains(id) {
        let sd = b.index[id].0;
        let p = b.index[id].1;
        let lv = side_levels(b, sd);
        match sd {
            OrderSide::Buy => {
                assert(side_resolves(OrderSide::Buy, b.bids, b.index));
            },
            OrderSide::Sell => {
                assert(side_resolves(OrderSide::Sell, b.asks, b.index));
            },
        }
        let kk = choose|k: int|
            0 <= k < lv.len() && (#[trigger] lv[k]).price == p && orders_count_id(
                lv[k].orders,
                id,
            ) == 1;
        assert(side_sorted(sd, lv)) by {
            match sd {
                OrderSide::Buy => assert(lv == b.bids),
                OrderSide::Sell => assert(lv == b.asks),
            }
        };
        assert forall|k2: int| 0 <= k2 < kk implies (#[trigger] lv[k2]).price != p by {
            if lv[k2].price == p {
                assert(better(sd, lv[k2].price, lv[kk].price));
            }
        }
        lemma_level_pos_found(lv, p, kk);
        let lvf = side_cancel(lv, p, id);
        // whatever the cancellation did, the surviving best is no better
        assert(lvf.len() > 0 && lv.len() > 0 ==> !better(sd, lvf[0].price, lv[0].price)) by {
            let orders1 = crate::book_model::orders_remove_id(lv[kk].orders, id);
            if orders1.len() == 0 {
                if lvf.len() > 0 {
                    if kk == 0 {
                        assert(lvf[0] == lv[1]);
                        assert(better(sd, lv[0].price, lv[1].price));
                    } else {
                        assert(lvf[0] == lv[0]);
                    }
                }
            } else {
                assert(lvf[0].price == lv[0].price);
            }
        };
        let b1 = spec_cancel(b, id).book;
        match sd {
            OrderSide::Buy => {
                assert(b1.asks == b.asks);
                assert(b1.bids == lvf);
            },
            OrderSide::Sell => {
                assert(b1.bids == b.bids);
                assert(b1.asks == lvf);
            },
        }
    }
}

/// A market order never crosses the book: it only consumes the opposite
/// side from its best end.
#[verifier::rlimit(60)]
pub proof fn law_no_cross_after_market(b: BookRec, side: OrderSide, qty: int)
    requires
        inv(b),
        no_cross(b),
    ensures
        no_cross(spec_execute_market(b, side, qty).book),
{
    let r = spec_execute_market(b, side, qty);
    if r.out is Ok {
        let oside = opposite(side);
        let opp = side_levels(b, oside);
        assert(side_sorted(oside, opp)) by {
            match oside {
                OrderSide::Buy => assert(opp == b.bids),
                OrderSide::Sell => assert(opp == b.asks),
            }
        };
        lemma_sweep_keeps_order(side, None, opp, qty, b.next_id);
        let s = sweep(side, None, opp, qty, b.next_id);
        match side {
            OrderSide::Buy => {
                assert(r.book.bids == b.bids);
                assert(r.book.asks == s.levels);
                if r.book.bids.len() > 0 && r.book.asks.len() > 0 {
                    assert(opp.len() > 0);
                    assert(!better(OrderSide::Sell, s.levels[0].price, b.asks[0].price));
                }
            },
            OrderSide::Sell => {
                assert(r.book.asks == b.asks);
                assert(r.book.bids == s.levels);
                if r.book.bids.len() > 0 && r.book.asks.len() > 0 {
                    assert(opp.len() > 0);
                    assert(!better(OrderSide::Buy, s.levels[0].price, b.bids[0].price));
                }
            },
        }
    }
}

/// A limit order whose price lies on the tick grid never crosses the
/// book: it consumes everything its price entitles it to before any
/// residual rests, and the residual rests strictly inside the spread.
/// The hypothesis states grid alignment exactly: the tick snapper leaves
/// the price unchanged. A price off the grid may round towards the
/// opposite side and rest level-to-level with it, so it is excluded.
#[verifier::rlimit(60)]
pub proof fn law_no_cross_after_aligned_add(b: BookRec, side: OrderSide, price: int, qty: int)
    requires
        inv(b),
        no_cross(b),
        crate::ticks::snapped_units(price, b.tick_size) == price,
        spec_add_limit(b, side, price, qty).out is Ok,
    ensures
        no_cross(spec_add_limit(b, side, price, qty).book),
{
    let r = spec_add_limit(b, side, price, qty);
    assert(price > 0 && qty > 0);
    let id = b.next_id;
    let oside = opposite(side);
    let opp = side_levels(b, oside);
    let own = side_levels(b, side);
    assert(side_sorted(oside, opp) && side_sorted(side, own)) by {
        match side {
            OrderSide::Buy => assert(own == b.bids && opp == b.asks),
            OrderSide::Sell => assert(own == b.asks && opp == b.bids),
        }
    };
    lemma_sweep_keeps_order(side, Some(price), opp, qty, id);
    let s = sweep(side, Some(price), opp, qty, id);
    if s.remaining > 0 {
        let rested = rest_insert(side, own, price, OrderRec { id, qty: s.remaining });
        // the new best on the order's own side is its own price or the old best
        assert(rested.len() > 0 && (rested[0].price == price || (own.len() > 0 && rested[0].price
            == own[0].price)));
        match side {
            OrderSide::Buy => {
                assert(r.book.bids == rested);
                assert(r.book.asks == s.levels);
                if r.book.bids.len() > 0 && r.book.asks.len() > 0 {
                    assert(opp.len() > 0);
                    assert(!crosses(OrderSide::Buy, Some(price), s.levels[0].price));
                    assert(price < s.levels[0].price);
                    assert(!better(OrderSide::Sell, s.levels[0].price, b.asks[0].price));
                    if rested[0].price != price {
                        assert(b.bids[0].price < b.asks[0].price);
                    }
                }
            },
            OrderSide::Sell => {
                assert(r.book.asks == rested);
                assert(r.book.bids == s.levels);
                if r.book.bids.len() > 0 && r.book.asks.len() > 0 {
                    assert(opp.len() > 0);
                    assert(!crosses(OrderSide::Sell, Some(price), s.levels[0].price));
                    assert(price > s.levels[0].price);
                    assert(!better(OrderSide::Buy, s.levels[0].price, b.bids[0].price));
                    if rested[0].price != price {
                        assert(b.asks[0].price > b.bids[0].price);
                    }
                }
            },
        }
    } else {
        match side {
            OrderSide::Buy => {
                assert(r.book.bids == b.bids);
                assert(r.book.asks == s.levels);
                if r.book.bids.len() > 0 && r.book.asks.len() > 0 {
                    assert(opp.len() > 0);
                    assert(!better(OrderSide::Sell, s.levels[0].price, b.asks[0].price));
                }
            },
            OrderSide::Sell => {
                assert(r.book.asks == b.asks);
                assert(r.book.bids == s.levels);
                if r.book.bids.len() > 0 && r.book.asks.len() > 0 {
                    assert(opp.len() > 0);
                    assert(!better(OrderSide::Buy, s.levels[0].price, b.bids[0].price));
                }
            },
        }
    }
}

} // verus!
