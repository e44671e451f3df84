//! The mathematical model of a book and the matching rules stated over it.
use vstd::prelude::*;

use crate::domain::{
    Order, OrderKind, OrderSide, Price, Quantity, RestingOrder, Sequence, Trade,
};

use super::report::{BookError, PriceLevelView, ReportView};

verus! {

/// A book as price levels: for each side, each price maps to the FIFO queue of the
/// orders resting there, oldest first. `live` counts the resting orders and
/// `capacity` bounds them.
pub struct BookModel {
    pub bids: Map<Price, Seq<Order>>,
    pub asks: Map<Price, Seq<Order>>,
    pub capacity: nat,
    pub live: nat,
}

/// Total open quantity of a queue of orders.
pub open spec fn open_total(orders: Seq<Order>) -> int
    decreases orders.len(),
{
    if orders.len() == 0 {
        0
    } else {
        open_total(orders.drop_last()) + orders.last().resting.open_qty
    }
}

/// `order` with its open quantity replaced by `open`.
pub open spec fn with_open(order: Order, open: Quantity) -> Order {
    Order { resting: RestingOrder { open_qty: open, ..order.resting }, ..order }
}

/// Whether price `a` has priority over price `b` for orders resting on `side`:
/// the higher bid, the lower ask.
pub open spec fn better(side: OrderSide, a: Price, b: Price) -> bool {
    match side {
        OrderSide::Buy => a > b,
        OrderSide::Sell => a < b,
    }
}

/// Whether `p` is a level of `levels` and no level of them has priority over it.
pub open spec fn is_best_price(levels: Map<Price, Seq<Order>>, side: OrderSide, p: Price) -> bool {
    &&& levels.contains_key(p)
    &&& forall|q: Price| #[trigger] levels.contains_key(q) ==> !better(side, q, p)
}

/// The best price of the levels resting on `side`: the highest bid, the lowest ask.
pub open spec fn best_price(levels: Map<Price, Seq<Order>>, side: OrderSide) -> Price {
    choose|p: Price| is_best_price(levels, side, p)
}

/// Whether the map has any level.
pub open spec fn has_levels(levels: Map<Price, Seq<Order>>) -> bool {
    exists|p: Price| levels.contains_key(p)
}

/// Whether `taker` accepts a trade at `price`: a market order takes any price, a limit
/// order only a price it crosses.
pub open spec fn accepts(taker: Order, price: Price) -> bool {
    taker.kind == OrderKind::Market || taker.crosses_spec(price)
}

/// The aggregated view of one level.
pub open spec fn level_view(price: Price, orders: Seq<Order>) -> PriceLevelView {
    PriceLevelView {
        price,
        quantity: open_total(orders) as Quantity,
        order_count: orders.len() as usize,
    }
}

/// The best level of `levels`, if there is one.
pub open spec fn top_level(levels: Map<Price, Seq<Order>>, side: OrderSide) -> Option<
    PriceLevelView,
> {
    if has_levels(levels) {
        let p = best_price(levels, side);
        Some(level_view(p, levels[p]))
    } else {
        None
    }
}

/// `r` lists, best first, the `n` best levels of `levels` (all of them when there are
/// fewer than `n`).
pub open spec fn lists_best_levels(
    levels: Map<Price, Seq<Order>>,
    side: OrderSide,
    n: nat,
    r: Seq<PriceLevelView>,
) -> bool {
    &&& r.len() == (if n < levels.dom().len() {
        n
    } else {
        levels.dom().len()
    })
    &&& forall|i: int|
        0 <= i < r.len() ==> levels.contains_key(#[trigger] r[i].price) && r[i] == level_view(
            r[i].price,
            levels[r[i].price],
        )
    &&& forall|i: int, j: int| 0 <= i < j < r.len() ==> better(side, r[i].price, r[j].price)
    &&& forall|p: Price, i: int|
        #![trigger levels.contains_key(p), r[i]]
        levels.contains_key(p) && 0 <= i < r.len() && !better(side, r[i].price, p) ==> exists|
            j: int,
        |
            0 <= j < r.len() && #[trigger] r[j].price == p
}

/// Whether the queue at level `p` of `side` is non-empty and holds only limit orders
/// of that side and price with open quantity.
pub open spec fn level_valid(side: OrderSide, p: Price, queue: Seq<Order>) -> bool {
    &&& queue.len() > 0
    &&& forall|i: int|
        0 <= i < queue.len() ==> {
            let o = #[trigger] queue[i];
            &&& o.kind == OrderKind::Limit
            &&& o.limit_price == Some(p)
            &&& o.side == side
            &&& o.resting.open_qty > 0
        }
}

impl BookModel {
    /// The ids of the resting orders.
    pub open spec fn ids(self) -> Set<u64> {
        Set::new(|id: u64| self.has_order(id))
    }

    /// Every bid is below every ask.
    pub open spec fn uncrossed(self) -> bool {
        forall|b: Price, a: Price|
            #![trigger self.bids.contains_key(b), self.asks.contains_key(a)]
            self.bids.contains_key(b) && self.asks.contains_key(a) ==> b < a
    }

    /// No order id rests at two positions.
    pub open spec fn ids_unique(self) -> bool {
        forall|s1: OrderSide, p1: Price, i1: int, s2: OrderSide, p2: Price, i2: int, id: u64|
            #![trigger self.holds_at(s1, p1, i1, id), self.holds_at(s2, p2, i2, id)]
            self.holds_at(s1, p1, i1, id) && self.holds_at(s2, p2, i2, id) ==> s1 == s2 && p1 == p2
                && i1 == i2
    }

    /// What every reachable book satisfies: finitely many well-formed levels, no
    /// crossed prices, unique order ids, and `live` counting the resting orders within
    /// the capacity.
    pub open spec fn valid(self) -> bool {
        &&& self.bids.dom().finite()
        &&& self.asks.dom().finite()
        &&& forall|p: Price| #[trigger]
            self.bids.contains_key(p) ==> level_valid(OrderSide::Buy, p, self.bids[p])
        &&& forall|p: Price| #[trigger]
            self.asks.contains_key(p) ==> level_valid(OrderSide::Sell, p, self.asks[p])
        &&& self.uncrossed()
        &&& self.ids_unique()
        &&& self.ids().finite()
        &&& self.live == self.ids().len()
        &&& self.live <= self.capacity
    }

    /// The levels of one side.
    pub open spec fn levels(self, side: OrderSide) -> Map<Price, Seq<Order>> {
        match side {
            OrderSide::Buy => self.bids,
            OrderSide::Sell => self.asks,
        }
    }

    /// The book with the levels of one side replaced.
    pub open spec fn with_levels(self, side: OrderSide, levels: Map<Price, Seq<Order>>) -> Self {
        match side {
            OrderSide::Buy => BookModel { bids: levels, ..self },
            OrderSide::Sell => BookModel { asks: levels, ..self },
        }
    }

    /// An empty book that rests at most `capacity` orders.
    pub open spec fn empty(capacity: nat) -> Self {
        BookModel { bids: Map::empty(), asks: Map::empty(), capacity, live: 0 }
    }

    /// Whether `(side, p, i)` is a position of the book holding the order with id `id`.
    pub open spec fn holds_at(self, side: OrderSide, p: Price, i: int, id: u64) -> bool {
        &&& self.levels(side).contains_key(p)
        &&& 0 <= i < self.levels(side)[p].len()
        &&& self.levels(side)[p][i].resting.id == id
    }

    /// Whether an order with id `id` rests in the book.
    pub open spec fn has_order(self, id: u64) -> bool {
        exists|side: OrderSide, p: Price, i: int| self.holds_at(side, p, i, id)
    }

    /// The position of the resting order with id `id`.
    pub open spec fn position_of(self, id: u64) -> (OrderSide, Price, int) {
        choose|side: OrderSide, p: Price, i: int| self.holds_at(side, p, i, id)
    }

    /// The book without the order at position `i` of level `p` on `side`; a level that
    /// empties disappears.
    pub open spec fn remove_at(self, side: OrderSide, p: Price, i: int) -> Self {
        let levels = self.levels(side);
        let queue = levels[p];
        let next_levels = if queue.len() == 1 {
            levels.remove(p)
        } else {
            levels.insert(p, queue.remove(i))
        };
        BookModel { live: (self.live - 1) as nat, ..self.with_levels(side, next_levels) }
    }

    /// Whether an incoming `taker` trades against the book now: it has open quantity,
    /// the other side has a level, and the taker accepts that side's best price.
    pub open spec fn can_fill(self, taker: Order) -> bool {
        let levels = self.levels(crate::domain::order::opposite(taker.side));
        &&& taker.resting.open_qty > 0
        &&& has_levels(levels)
        &&& accepts(taker, best_price(levels, crate::domain::order::opposite(taker.side)))
    }

    /// One fill of `taker` against the oldest order at the other side's best price, at
    /// that price, for the smaller of the two open quantities. A maker that fills
    /// completely leaves the book.
    pub open spec fn match_step(self, taker: Order, sequence: Sequence) -> (Self, Order, Trade) {
        let side = crate::domain::order::opposite(taker.side);
        let levels = self.levels(side);
        let p = best_price(levels, side);
        let queue = levels[p];
        let maker = queue[0];
        let qty = if taker.resting.open_qty <= maker.resting.open_qty {
            taker.resting.open_qty
        } else {
            maker.resting.open_qty
        };
        let trade = Trade {
            sequence,
            maker_order_id: maker.resting.id,
            taker_order_id: taker.resting.id,
            maker_id: maker.resting.user_id,
            taker_id: taker.resting.user_id,
            taker_side: taker.side,
            quantity: qty,
            price: p,
        };
        let next_taker = with_open(taker, (taker.resting.open_qty - qty) as Quantity);
        let next_book = if qty == maker.resting.open_qty {
            self.remove_at(side, p, 0)
        } else {
            self.with_levels(
                side,
                levels.insert(
                    p,
                    queue.update(0, with_open(maker, (maker.resting.open_qty - qty) as Quantity)),
                ),
            )
        };
        (next_book, next_taker, trade)
    }

    /// Matches `taker` fill by fill until it is filled or no longer trades. Returns the
    /// book after the fills, what is left of the taker, and the trades in order.
    pub open spec fn match_orders(self, taker: Order, sequence: Sequence) -> (Self, Order, Seq<
        Trade,
    >)
        decreases taker.resting.open_qty,
    {
        if self.can_fill(taker) {
            let (book, next_taker, trade) = self.match_step(taker, sequence);
            if next_taker.resting.open_qty < taker.resting.open_qty {
                let (final_book, final_taker, trades) = book.match_orders(next_taker, sequence);
                (final_book, final_taker, seq![trade] + trades)
            } else {
                (self, taker, Seq::empty())
            }
        } else {
            (self, taker, Seq::empty())
        }
    }

    /// Rests the limit order `order` at the back of its price level, or says why it
    /// cannot rest: the level's aggregate would overflow, or the book is full.
    pub open spec fn rest(self, order: Order) -> Result<Self, BookError> {
        let side = order.side;
        let p = order.limit_price->0;
        let levels = self.levels(side);
        let existing = if levels.contains_key(p) {
            open_total(levels[p])
        } else {
            0
        };
        if existing + order.resting.open_qty > u64::MAX {
            Err(BookError::QuantityOverflow)
        } else if self.live >= self.capacity {
            Err(BookError::Full)
        } else {
            let queue = if levels.contains_key(p) {
                levels[p].push(order)
            } else {
                seq![order]
            };
            Ok(BookModel { live: self.live + 1, ..self.with_levels(side, levels.insert(p, queue)) })
        }
    }

    /// What submitting `order` at `sequence` does: the book afterwards and the answer.
    ///
    /// An invalid order, or one whose id already rests, is refused and changes nothing.
    /// Otherwise the order is matched; a limit order's unfilled remainder then rests,
    /// and a market order's remainder is dropped.
    pub open spec fn submit(self, order: Order, sequence: Sequence) -> (Self, Result<
        ReportView,
        BookError,
    >) {
        if order.validation_error() is Some {
            (self, Err(BookError::InvalidOrder(order.validation_error()->0)))
        } else if self.has_order(order.resting.id) {
            (self, Err(BookError::DuplicateOrder(order.resting.id)))
        } else {
            let (book, taker, trades) = self.match_orders(order, sequence);
            let report = ReportView {
                order_id: order.resting.id,
                remaining_quantity: taker.resting.open_qty,
                trades,
            };
            if taker.resting.open_qty > 0 && taker.kind == OrderKind::Limit {
                match book.rest(taker) {
                    Ok(rested) => (rested, Ok(report)),
                    Err(e) => (book, Err(e)),
                }
            } else {
                (book, Ok(report))
            }
        }
    }
}

/// Dropping the last order of a queue takes its open quantity off the total.
pub proof fn lemma_open_total_push(orders: Seq<Order>, o: Order)
    ensures
        open_total(orders.push(o)) == open_total(orders) + o.resting.open_qty,
{
    assert(orders.push(o).drop_last() == orders);
}

/// Replacing one order of a queue changes the total by the change in its open quantity.
pub proof fn lemma_open_total_update(orders: Seq<Order>, i: int, o: Order)
    requires
        0 <= i < orders.len(),
    ensures
        open_total(orders.update(i, o)) == open_total(orders) - orders[i].resting.open_qty
            + o.resting.open_qty,
    decreases orders.len(),
{
    let updated = orders.update(i, o);
    if i == orders.len() - 1 {
        assert(updated.drop_last() == orders.drop_last());
    } else {
        lemma_open_total_update(orders.drop_last(), i, o);
        assert(updated.drop_last() == orders.drop_last().update(i, o));
    }
}

/// Removing one order of a queue takes its open quantity off the total.
pub proof fn lemma_open_total_remove(orders: Seq<Order>, i: int)
    requires
        0 <= i < orders.len(),
    ensures
        open_total(orders.remove(i)) == open_total(orders) - orders[i].resting.open_qty,
    decreases orders.len(),
{
    let removed = orders.remove(i);
    if i == orders.len() - 1 {
        assert(removed == orders.drop_last());
    } else {
        lemma_open_total_remove(orders.drop_last(), i);
        assert(removed.drop_last() == orders.drop_last().remove(i));
        assert(removed.last() == orders.last());
    }
}

/// Totals of open quantities are never negative.
pub proof fn lemma_open_total_nonneg(orders: Seq<Order>)
    ensures
        open_total(orders) >= 0,
    decreases orders.len(),
{
    if orders.len() > 0 {
        lemma_open_total_nonneg(orders.drop_last());
    }
}

/// The best price is the one price that is a level with no better level.
pub proof fn lemma_best_price_unique(levels: Map<Price, Seq<Order>>, side: OrderSide, p: Price)
    requires
        is_best_price(levels, side, p),
    ensures
        best_price(levels, side) == p,
{
    let b = best_price(levels, side);
    assert(is_best_price(levels, side, b));
    assert(!better(side, b, p));
    assert(!better(side, p, b));
}

} // verus!
