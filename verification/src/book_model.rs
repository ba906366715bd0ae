//! The mathematical model of the book.
//!
//! Every executable operation of [`crate::order_book::OrderBook`] is
//! specified against the transition functions in this module: `spec_add_limit`,
//! `spec_execute_market` and `spec_cancel` say, over sequences and maps, what
//! the matching engine does, and `inv` states the well-formedness that every
//! operation preserves.

use vstd::prelude::*;

use crate::errors::BookError;
use crate::num::AMOUNT_CAP;
use crate::order::OrderSide;
use crate::ticks::snapped_units;

verus! {

/// A resting order as the model sees it: its id and remaining quantity
/// in units.
pub struct OrderRec {
    pub id: u64,
    pub qty: int,
}

/// One price level: its key in units and the FIFO queue of resting orders,
/// earliest first.
pub struct LevelRec {
    pub price: int,
    pub orders: Seq<OrderRec>,
}

/// An execution as the model sees it.
pub struct FillRec {
    pub qty: int,
    pub price: int,
    pub taker: u64,
    pub maker: u64,
}

/// The whole book: both sides ordered best level first, the id allocator,
/// the order-location index and the cached per-side volumes.
pub struct BookRec {
    pub tick_size: int,
    pub bids: Seq<LevelRec>,
    pub asks: Seq<LevelRec>,
    pub next_id: u64,
    pub index: Map<u64, (OrderSide, int)>,
    pub bid_total: int,
    pub ask_total: int,
}

/// What a sweep over one side leaves behind: the surviving levels, the
/// fills produced, the ids of fully consumed makers in consumption order,
/// and the taker quantity still unfilled.
pub struct SweepRec {
    pub levels: Seq<LevelRec>,
    pub fills: Seq<FillRec>,
    pub removed: Seq<u64>,
    pub remaining: int,
}

/// Outcome of `spec_add_limit`.
pub struct AddRec {
    pub book: BookRec,
    pub out: Result<(u64, Seq<FillRec>), BookError>,
}

/// Outcome of `spec_execute_market`.
pub struct MarketRec {
    pub book: BookRec,
    pub out: Result<Seq<FillRec>, BookError>,
}

/// Outcome of `spec_cancel`.
pub struct CancelRec {
    pub book: BookRec,
    pub out: Result<(), BookError>,
}

/// The side a taker consumes from.
pub open spec fn opposite(side: OrderSide) -> OrderSide {
    match side {
        OrderSide::Buy => OrderSide::Sell,
        OrderSide::Sell => OrderSide::Buy,
    }
}

/// The levels resting on `side` of the book, best first.
pub open spec fn side_levels(b: BookRec, side: OrderSide) -> Seq<LevelRec> {
    match side {
        OrderSide::Buy => b.bids,
        OrderSide::Sell => b.asks,
    }
}

/// The cached aggregate volume of `side`.
pub open spec fn side_total(b: BookRec, side: OrderSide) -> int {
    match side {
        OrderSide::Buy => b.bid_total,
        OrderSide::Sell => b.ask_total,
    }
}

/// `b` with the levels of `side` replaced.
pub open spec fn with_levels(b: BookRec, side: OrderSide, levels: Seq<LevelRec>) -> BookRec {
    match side {
        OrderSide::Buy => (BookRec { bids: levels, ..b }),
        OrderSide::Sell => (BookRec { asks: levels, ..b }),
    }
}

/// `b` with `delta` added to the aggregate volume of `side`.
pub open spec fn add_total(b: BookRec, side: OrderSide, delta: int) -> BookRec {
    match side {
        OrderSide::Buy => (BookRec { bid_total: b.bid_total + delta, ..b }),
        OrderSide::Sell => (BookRec { ask_total: b.ask_total + delta, ..b }),
    }
}

/// A price for a resting order on a `side` book: on the bid side higher is
/// better, on the ask side lower is better.
pub open spec fn better(side: OrderSide, a: int, b: int) -> bool {
    match side {
        OrderSide::Buy => a > b,
        OrderSide::Sell => a < b,
    }
}

/// Whether a taker on `side`, constrained by `limit`, may consume a maker
/// level at `price`. Crossing is inclusive: equal prices match. A market
/// taker has no limit and crosses unconditionally.
pub open spec fn crosses(side: OrderSide, limit: Option<int>, price: int) -> bool {
    match limit {
        Option::None => true,
        Option::Some(p) => match side {
            OrderSide::Buy => p >= price,
            OrderSide::Sell => p <= price,
        },
    }
}

/// Sum of the remaining quantities of a queue of orders.
pub open spec fn orders_volume(orders: Seq<OrderRec>) -> int
    decreases orders.len(),
{
    if orders.len() == 0 {
        0
    } else {
        orders[0].qty + orders_volume(orders.drop_first())
    }
}

/// Sum of the level volumes of one side.
pub open spec fn side_volume(levels: Seq<LevelRec>) -> int
    decreases levels.len(),
{
    if levels.len() == 0 {
        0
    } else {
        orders_volume(levels[0].orders) + side_volume(levels.drop_first())
    }
}

/// Number of resting orders on one side.
pub open spec fn side_order_count(levels: Seq<LevelRec>) -> int
    decreases levels.len(),
{
    if levels.len() == 0 {
        0
    } else {
        levels[0].orders.len() + side_order_count(levels.drop_first())
    }
}

/// How many orders in a queue carry `id`.
pub open spec fn orders_count_id(orders: Seq<OrderRec>, id: u64) -> int
    decreases orders.len(),
{
    if orders.len() == 0 {
        0
    } else {
        (if orders[0].id == id {
            1int
        } else {
            0int
        }) + orders_count_id(orders.drop_first(), id)
    }
}

/// Sum of the fill quantities of a sequence of fills.
pub open spec fn fills_volume(fills: Seq<FillRec>) -> int
    decreases fills.len(),
{
    if fills.len() == 0 {
        0
    } else {
        fills[0].qty + fills_volume(fills.drop_first())
    }
}

/// Position of the level keyed `price`, or `levels.len()` if absent.
pub open spec fn level_pos(levels: Seq<LevelRec>, price: int) -> int
    decreases levels.len(),
{
    if levels.len() == 0 {
        0
    } else if levels[0].price == price {
        0
    } else {
        1 + level_pos(levels.drop_first(), price)
    }
}

/// Whether some level is keyed `price`.
pub open spec fn has_level(levels: Seq<LevelRec>, price: int) -> bool {
    level_pos(levels, price) < levels.len()
}

/// The queue with the first order carrying `id` spliced out.
pub open spec fn orders_remove_id(orders: Seq<OrderRec>, id: u64) -> Seq<OrderRec>
    decreases orders.len(),
{
    if orders.len() == 0 {
        orders
    } else if orders[0].id == id {
        orders.drop_first()
    } else {
        seq![orders[0]] + orders_remove_id(orders.drop_first(), id)
    }
}

/// The remaining quantity of the first order carrying `id`, or zero.
pub open spec fn orders_qty_of_id(orders: Seq<OrderRec>, id: u64) -> int
    decreases orders.len(),
{
    if orders.len() == 0 {
        0
    } else if orders[0].id == id {
        orders[0].qty
    } else {
        orders_qty_of_id(orders.drop_first(), id)
    }
}

/// `m` with the keys of `ids` removed, one at a time from the front.
pub open spec fn remove_ids(m: Map<u64, (OrderSide, int)>, ids: Seq<u64>) -> Map<
    u64,
    (OrderSide, int),
>
    decreases ids.len(),
{
    if ids.len() == 0 {
        m
    } else {
        remove_ids(m.remove(ids[0]), ids.drop_first())
    }
}

/// One taker sweeping the levels of the opposite side, best level first and
/// FIFO within a level. Each unfolding consumes one maker order (entirely,
/// or partially when the taker is exhausted first), drops a level once its
/// queue is empty, and stops when the taker is filled, the side is empty,
/// or the limit no longer crosses the best surviving level.
pub open spec fn sweep(
    side: OrderSide,
    limit: Option<int>,
    levels: Seq<LevelRec>,
    qty: int,
    taker: u64,
) -> SweepRec
    decreases levels.len(), (if levels.len() > 0 {
        levels[0].orders.len()
    } else {
        0
    }),
{
    if levels.len() == 0 {
        SweepRec { levels, fills: Seq::empty(), removed: Seq::empty(), remaining: qty }
    } else if levels[0].orders.len() == 0 {
        sweep(side, limit, levels.drop_first(), qty, taker)
    } else if qty <= 0 || !crosses(side, limit, levels[0].price) {
        SweepRec { levels, fills: Seq::empty(), removed: Seq::empty(), remaining: qty }
    } else {
        let head = levels[0].orders[0];
        if qty < head.qty {
            let shrunk = OrderRec { id: head.id, qty: head.qty - qty };
            let level1 = LevelRec {
                price: levels[0].price,
                orders: levels[0].orders.update(0, shrunk),
            };
            SweepRec {
                levels: levels.update(0, level1),
                fills: seq![
                    FillRec { qty, price: levels[0].price, taker, maker: head.id },
                ],
                removed: Seq::empty(),
                remaining: 0,
            }
        } else {
            let level1 = LevelRec { price: levels[0].price, orders: levels[0].orders.drop_first() };
            let sub = sweep(side, limit, levels.update(0, level1), qty - head.qty, taker);
            SweepRec {
                levels: sub.levels,
                fills: seq![
                    FillRec { qty: head.qty, price: levels[0].price, taker, maker: head.id },
                ] + sub.fills,
                removed: seq![head.id] + sub.removed,
                remaining: sub.remaining,
            }
        }
    }
}

/// Where a residual order enters its own side: behind every strictly better
/// level, appended to the queue of an equal level, or as a new level.
pub open spec fn rest_insert(
    side: OrderSide,
    levels: Seq<LevelRec>,
    price: int,
    ord: OrderRec,
) -> Seq<LevelRec>
    decreases levels.len(),
{
    if levels.len() == 0 {
        seq![LevelRec { price, orders: seq![ord] }]
    } else if levels[0].price == price {
        (seq![
            LevelRec { price, orders: levels[0].orders.push(ord) },
        ] + levels.drop_first())
    } else if better(side, levels[0].price, price) {
        seq![levels[0]] + rest_insert(side, levels.drop_first(), price, ord)
    } else {
        (seq![LevelRec { price, orders: seq![ord] }] + levels)
    }
}

/// One side after cancelling the order `id` resting at the level keyed
/// `price`: the order is spliced out and the level is dropped if it empties.
pub open spec fn side_cancel(levels: Seq<LevelRec>, price: int, id: u64) -> Seq<LevelRec> {
    let p = level_pos(levels, price);
    let orders1 = orders_remove_id(levels[p].orders, id);
    if orders1.len() == 0 {
        levels.remove(p)
    } else {
        levels.update(p, LevelRec { price: levels[p].price, orders: orders1 })
    }
}

/// The empty book over a tick size.
pub open spec fn spec_new(tick_size: int) -> BookRec {
    BookRec {
        tick_size,
        bids: Seq::empty(),
        asks: Seq::empty(),
        next_id: 0,
        index: Map::empty(),
        bid_total: 0,
        ask_total: 0,
    }
}

/// Adding a limit order: validate, allocate the id, sweep the opposite
/// side under the limit price, then rest any residual at the snapped tick
/// on the order's own side.
pub open spec fn spec_add_limit(b: BookRec, side: OrderSide, price: int, qty: int) -> AddRec {
    if price <= 0 {
        AddRec { book: b, out: Err(BookError::InvalidPrice) }
    } else if qty <= 0 {
        AddRec { book: b, out: Err(BookError::InvalidQuantity) }
    } else {
        let id = b.next_id;
        let s = sweep(side, Some(price), side_levels(b, opposite(side)), qty, id);
        let consumed = qty - s.remaining;
        let b1 = BookRec {
            next_id: (b.next_id + 1) as u64,
            index: remove_ids(b.index, s.removed),
            ..with_levels(add_total(b, opposite(side), -consumed), opposite(side), s.levels)
        };
        let b2 = if s.remaining > 0 {
            let lvl = snapped_units(price, b.tick_size);
            let rested = rest_insert(
                side,
                side_levels(b1, side),
                lvl,
                OrderRec { id, qty: s.remaining },
            );
            BookRec {
                index: b1.index.insert(id, (side, lvl)),
                ..with_levels(add_total(b1, side, s.remaining), side, rested)
            }
        } else {
            b1
        };
        AddRec { book: b2, out: Ok((id, s.fills)) }
    }
}

/// Executing a market order: precheck the opposite aggregate, and only on
/// success allocate an id and sweep with no price barrier.
pub open spec fn spec_execute_market(b: BookRec, side: OrderSide, qty: int) -> MarketRec {
    if side_total(b, opposite(side)) < qty {
        MarketRec { book: b, out: Err(BookError::InsufficientLiquidity) }
    } else {
        let id = b.next_id;
        let s = sweep(side, None, side_levels(b, opposite(side)), qty, id);
        let consumed = qty - s.remaining;
        let b1 = BookRec {
            next_id: (b.next_id + 1) as u64,
            index: remove_ids(b.index, s.removed),
            ..with_levels(add_total(b, opposite(side), -consumed), opposite(side), s.levels)
        };
        MarketRec { book: b1, out: Ok(s.fills) }
    }
}

/// Cancelling a resting order: look it up, splice it out of its level,
/// drop the level if it empties, release its volume and forget its id.
pub open spec fn spec_cancel(b: BookRec, id: u64) -> CancelRec {
    if !b.index.dom().contains(id) {
        CancelRec { book: b, out: Err(BookError::NotFound) }
    } else {
        let side = b.index[id].0;
        let price = b.index[id].1;
        let levels = side_levels(b, side);
        let qty = orders_qty_of_id(levels[level_pos(levels, price)].orders, id);
        let b1 = BookRec {
            index: b.index.remove(id),
            ..with_levels(add_total(b, side, -qty), side, side_cancel(levels, price, id))
        };
        CancelRec { book: b1, out: Ok(()) }
    }
}

/// The best (first) level key of one side, if any.
pub open spec fn spec_best(levels: Seq<LevelRec>) -> Option<int> {
    if levels.len() > 0 {
        Some(levels[0].price)
    } else {
        None
    }
}

/// The volume of the best level of one side, if any.
pub open spec fn spec_best_volume(levels: Seq<LevelRec>) -> Option<int> {
    if levels.len() > 0 {
        Some(orders_volume(levels[0].orders))
    } else {
        None
    }
}

/// A well-formed level: a non-empty queue of positive remaining quantities
/// with pairwise distinct ids, at a non-negative key.
pub open spec fn level_wf(l: LevelRec) -> bool {
    &&& l.orders.len() > 0
    &&& 0 <= l.price
    &&& forall|j: int| 0 <= j < l.orders.len() ==> (#[trigger] l.orders[j]).qty > 0
    &&& forall|j1: int, j2: int|
        0 <= j1 < j2 < l.orders.len() ==> (#[trigger] l.orders[j1]).id != (
        #[trigger] l.orders[j2]).id
}

/// Levels strictly ordered best first: higher first on the bid side,
/// lower first on the ask side.
pub open spec fn side_sorted(side: OrderSide, levels: Seq<LevelRec>) -> bool {
    forall|i: int, j: int|
        0 <= i < j < levels.len() ==> better(
            side,
            (#[trigger] levels[i]).price,
            (#[trigger] levels[j]).price,
        )
}

/// Every order resting on `side` is in the index, located at exactly its
/// side and level, and carries an id the allocator has already passed.
pub open spec fn side_indexed(
    side: OrderSide,
    levels: Seq<LevelRec>,
    index: Map<u64, (OrderSide, int)>,
    next_id: u64,
) -> bool {
    forall|i: int, j: int|
        0 <= i < levels.len() && 0 <= j < levels[i].orders.len() ==> {
            let o = #[trigger] levels[i].orders[j];
            &&& index.dom().contains(o.id)
            &&& index[o.id] == (side, levels[i].price)
            &&& o.id < next_id
        }
}

/// Every id the index records on `side` resolves to exactly one resting
/// order in `levels`, at the level the index records.
pub open spec fn side_resolves(
    side: OrderSide,
    levels: Seq<LevelRec>,
    index: Map<u64, (OrderSide, int)>,
) -> bool {
    forall|id: u64|
        #[trigger] index.dom().contains(id) && index[id].0 == side ==> exists|i: int|
            0 <= i < levels.len() && (#[trigger] levels[i]).price == index[id].1
                && orders_count_id(levels[i].orders, id) == 1
}

/// Every id in the index resolves to exactly one resting order, at the
/// side and level the index records.
pub open spec fn index_resolves(b: BookRec) -> bool {
    &&& side_resolves(OrderSide::Buy, b.bids, b.index)
    &&& side_resolves(OrderSide::Sell, b.asks, b.index)
}

/// Well-formedness of the whole book, preserved by every operation: a
/// positive capped tick size, both sides sorted with well-formed levels,
/// the index and the sides consistent in both directions, the cached
/// aggregates equal to the level sums, and the grand total bounded by what
/// the allocator has handed out.
pub open spec fn inv(b: BookRec) -> bool {
    &&& 0 < b.tick_size <= AMOUNT_CAP as int
    &&& side_sorted(OrderSide::Buy, b.bids)
    &&& side_sorted(OrderSide::Sell, b.asks)
    &&& forall|i: int| 0 <= i < b.bids.len() ==> level_wf(#[trigger] b.bids[i])
    &&& forall|i: int| 0 <= i < b.asks.len() ==> level_wf(#[trigger] b.asks[i])
    &&& side_indexed(OrderSide::Buy, b.bids, b.index, b.next_id)
    &&& side_indexed(OrderSide::Sell, b.asks, b.index, b.next_id)
    &&& index_resolves(b)
    &&& b.bid_total == side_volume(b.bids)
    &&& b.ask_total == side_volume(b.asks)
    &&& b.bid_total + b.ask_total <= b.next_id as int * AMOUNT_CAP as int
    &&& b.index.dom().finite()
    &&& b.index.dom().len() == side_order_count(b.bids) + side_order_count(b.asks)
}

/// The book never crosses: whenever both sides are non-empty, the best bid
/// is strictly below the best ask.
pub open spec fn no_cross(b: BookRec) -> bool {
    b.bids.len() > 0 && b.asks.len() > 0 ==> b.bids[0].price < b.asks[0].price
}

} // verus!
