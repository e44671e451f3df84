//! Properties of the matching rules that hold for every valid book.
use vstd::prelude::*;

use super::model::{
    accepts, best_price, better, has_levels, is_best_price, level_valid, level_view,
    lists_best_levels, open_total, top_level, with_open, BookModel,
};
use super::book::cancel_result;
use super::engine::EngineModel;
use super::report::{BookError, CancelReport, PriceLevelView, ReportView};
use crate::domain::{Order, OrderKind, OrderSide, Price, Sequence, Trade};

verus! {

/// Total quantity of a sequence of trades.
pub open spec fn trade_total(trades: Seq<Trade>) -> int
    decreases trades.len(),
{
    if trades.len() == 0 {
        0
    } else {
        trades[0].quantity + trade_total(trades.drop_first())
    }
}

/// A finite map with levels has a best price.
pub proof fn lemma_best_exists(levels: Map<Price, Seq<Order>>, side: OrderSide)
    requires
        levels.dom().finite(),
        has_levels(levels),
    ensures
        is_best_price(levels, side, best_price(levels, side)),
    decreases levels.dom().len(),
{
    let k = choose|p: Price| levels.contains_key(p);
    let rest = levels.remove(k);
    assert(rest.dom() =~= levels.dom().remove(k));
    if has_levels(rest) {
        lemma_best_exists(rest, side);
        let b = best_price(rest, side);
        if better(side, k, b) {
            assert(is_best_price(levels, side, k)) by {
                assert forall|q: Price| #[trigger] levels.contains_key(q) implies !better(side, q, k) by {
                    if q != k {
                        assert(rest.contains_key(q));
                    }
                }
            }
        } else {
            assert(is_best_price(levels, side, b)) by {
                assert forall|q: Price| #[trigger] levels.contains_key(q) implies !better(side, q, b) by {
                    if q != k {
                        assert(rest.contains_key(q));
                    }
                }
            }
        }
    } else {
        assert(is_best_price(levels, side, k)) by {
            assert forall|q: Price| #[trigger] levels.contains_key(q) implies !better(side, q, k) by {
                if q != k {
                    assert(rest.contains_key(q));
                }
            }
        }
    }
}


/// Where a position of `m.remove_at(s, p, i)` was in `m`.
pub open spec fn position_before_removal(s: OrderSide, p: Price, i: int, s2: OrderSide, p2: Price, j: int) -> int {
    if s2 == s && p2 == p && j >= i {
        j + 1
    } else {
        j
    }
}

proof fn lemma_remove_at_positions(m: BookModel, s: OrderSide, p: Price, i: int)
    requires
        m.valid(),
        m.levels(s).contains_key(p),
        0 <= i < m.levels(s)[p].len(),
    ensures
        forall|s2: OrderSide, p2: Price, j: int, id: u64|
            #[trigger] m.remove_at(s, p, i).holds_at(s2, p2, j, id) ==> m.holds_at(
                s2,
                p2,
                position_before_removal(s, p, i, s2, p2, j),
                id,
            ),
        forall|s2: OrderSide, p2: Price, j: int, id: u64|
            #[trigger] m.holds_at(s2, p2, j, id) && (s2 != s || p2 != p || j != i) ==> ({
                let k = if s2 == s && p2 == p && j > i {
                    j - 1
                } else {
                    j
                };
                m.remove_at(s, p, i).holds_at(s2, p2, k, id)
            }),
{
    let m2 = m.remove_at(s, p, i);
    let q = m.levels(s)[p];
    let opp = crate::domain::order::opposite(s);
    assert(m2.levels(opp) == m.levels(opp));
    assert forall|s2: OrderSide, p2: Price, j: int, id: u64|
        #[trigger] m2.holds_at(s2, p2, j, id) implies m.holds_at(
        s2,
        p2,
        position_before_removal(s, p, i, s2, p2, j),
        id,
    ) by {
        if s2 == s && p2 == p {
            assert(q.len() > 1);
            assert(m2.levels(s)[p] == q.remove(i));
        } else if s2 == s {
            assert(m2.levels(s)[p2] == m.levels(s)[p2]);
        }
    }
    assert forall|s2: OrderSide, p2: Price, j: int, id: u64|
        #[trigger] m.holds_at(s2, p2, j, id) && (s2 != s || p2 != p || j != i) implies ({
        let k = if s2 == s && p2 == p && j > i {
            j - 1
        } else {
            j
        };
        m2.holds_at(s2, p2, k, id)
    }) by {
        if s2 == s && p2 == p {
            assert(q.len() > 1);
            assert(m2.levels(s)[p] == q.remove(i));
        } else if s2 == s {
            assert(m2.levels(s)[p2] == m.levels(s)[p2]);
        }
    }
}

/// Removing the order at a position keeps the book valid, forgets exactly that order's
/// id, and frees one unit of capacity.
pub proof fn lemma_remove_at_valid(m: BookModel, s: OrderSide, p: Price, i: int)
    requires
        m.valid(),
        m.levels(s).contains_key(p),
        0 <= i < m.levels(s)[p].len(),
    ensures
        m.remove_at(s, p, i).valid(),
        m.remove_at(s, p, i).ids() == m.ids().remove(m.levels(s)[p][i].resting.id),
        m.ids().contains(m.levels(s)[p][i].resting.id),
        m.remove_at(s, p, i).live == m.live - 1,
        m.remove_at(s, p, i).capacity == m.capacity,
        m.remove_at(s, p, i).levels(crate::domain::order::opposite(s)) == m.levels(
            crate::domain::order::opposite(s),
        ),
{
    let m2 = m.remove_at(s, p, i);
    let q = m.levels(s)[p];
    let x = q[i].resting.id;
    let opp = crate::domain::order::opposite(s);
    lemma_remove_at_positions(m, s, p, i);
    assert(m.holds_at(s, p, i, x));
    assert(m.ids().contains(x));
    assert(m2.ids() =~= m.ids().remove(x)) by {
        assert forall|y: u64| m2.ids().contains(y) implies m.ids().contains(y) && y != x by {
            let (s2, p2, j) = choose|s2: OrderSide, p2: Price, j: int| m2.holds_at(s2, p2, j, y);
            assert(m2.holds_at(s2, p2, j, y));
            let j0 = position_before_removal(s, p, i, s2, p2, j);
            assert(m.holds_at(s2, p2, j0, y));
            if y == x {
                assert(m.holds_at(s, p, i, x));
            }
        }
        assert forall|y: u64| m.ids().contains(y) && y != x implies m2.ids().contains(y) by {
            let (s2, p2, j) = choose|s2: OrderSide, p2: Price, j: int| m.holds_at(s2, p2, j, y);
            assert(m.holds_at(s2, p2, j, y));
            let k = if s2 == s && p2 == p && j > i {
                j - 1
            } else {
                j
            };
            assert(m2.holds_at(s2, p2, k, y));
        }
    }
    vstd::set::axiom_set_remove_len(m.ids(), x);
    assert(m2.ids_unique()) by {
        assert forall|s1: OrderSide, p1: Price, i1: int, s2: OrderSide, p2: Price, i2: int, id: u64|
            m2.holds_at(s1, p1, i1, id) && m2.holds_at(s2, p2, i2, id) implies s1 == s2 && p1 == p2
            && i1 == i2 by {
            let a = position_before_removal(s, p, i, s1, p1, i1);
            let b = position_before_removal(s, p, i, s2, p2, i2);
            assert(m.holds_at(s1, p1, a, id));
            assert(m.holds_at(s2, p2, b, id));
        }
    }
    assert forall|side: OrderSide, p2: Price| #[trigger] m2.levels(side).contains_key(p2) implies level_valid(
        side,
        p2,
        m2.levels(side)[p2],
    ) by {
        assert(m.levels(side).contains_key(p2));
        assert(level_valid(side, p2, m.levels(side)[p2])) by {
            match side {
                OrderSide::Buy => {},
                OrderSide::Sell => {},
            }
        }
        if side == s && p2 == p {
            assert(q.len() > 1);
            let nq = q.remove(i);
            assert(m2.levels(s)[p] == nq);
            assert forall|j: int| 0 <= j < nq.len() implies {
                let o = #[trigger] nq[j];
                &&& o.kind == OrderKind::Limit
                &&& o.limit_price == Some(p2)
                &&& o.side == side
                &&& o.resting.open_qty > 0
            } by {
                if j < i {
                    assert(nq[j] == q[j]);
                } else {
                    assert(nq[j] == q[j + 1]);
                }
            }
        } else if side == s {
            assert(m2.levels(s)[p2] == m.levels(s)[p2]);
        }
    }
    assert forall|p2: Price| #[trigger] m2.bids.contains_key(p2) implies level_valid(
        OrderSide::Buy,
        p2,
        m2.bids[p2],
    ) by {
        assert(m2.levels(OrderSide::Buy).contains_key(p2));
    }
    assert forall|p2: Price| #[trigger] m2.asks.contains_key(p2) implies level_valid(
        OrderSide::Sell,
        p2,
        m2.asks[p2],
    ) by {
        assert(m2.levels(OrderSide::Sell).contains_key(p2));
    }
    assert(m2.uncrossed()) by {
        assert forall|b: Price, a: Price| m2.bids.contains_key(b) && m2.asks.contains_key(a) implies b < a by {
            assert(m2.levels(OrderSide::Buy).contains_key(b));
            assert(m2.levels(OrderSide::Sell).contains_key(a));
            assert(m.levels(OrderSide::Buy).contains_key(b));
            assert(m.levels(OrderSide::Sell).contains_key(a));
        }
    }
    assert(m2.levels(s).dom().finite()) by {
        assert(m2.levels(s).dom() =~= (if q.len() == 1 {
            m.levels(s).dom().remove(p)
        } else {
            m.levels(s).dom()
        }));
    }
}


/// Lowering the open quantity of one resting order keeps the book valid with the same
/// ids and count.
proof fn lemma_update_open_valid(m: BookModel, s: OrderSide, p: Price, i: int, open: u64)
    requires
        m.valid(),
        m.levels(s).contains_key(p),
        0 <= i < m.levels(s)[p].len(),
        open > 0,
    ensures
        ({
            let levels = m.levels(s);
            let m2 = m.with_levels(s, levels.insert(p, levels[p].update(i, with_open(levels[p][i], open))));
            &&& m2.valid()
            &&& m2.ids() == m.ids()
            &&& m2.live == m.live
            &&& m2.capacity == m.capacity
            &&& m2.levels(crate::domain::order::opposite(s)) == m.levels(crate::domain::order::opposite(s))
        }),
{
    let levels = m.levels(s);
    let q = levels[p];
    let nq = q.update(i, with_open(q[i], open));
    let m2 = m.with_levels(s, levels.insert(p, nq));
    let opp = crate::domain::order::opposite(s);
    assert(m2.levels(s) == levels.insert(p, nq));
    assert(m2.levels(opp) == m.levels(opp));
    assert forall|s2: OrderSide, p2: Price, j: int, id: u64|
        #[trigger] m2.holds_at(s2, p2, j, id) == #[trigger] m.holds_at(s2, p2, j, id) by {
        if s2 == s && p2 == p {
        } else if s2 == s {
            assert(m2.levels(s)[p2] == m.levels(s)[p2]);
        }
    }
    assert(m2.ids() =~= m.ids()) by {
        assert forall|y: u64| m2.ids().contains(y) == m.ids().contains(y) by {
            if m2.ids().contains(y) {
                let (s2, p2, j) = choose|s2: OrderSide, p2: Price, j: int| m2.holds_at(s2, p2, j, y);
                assert(m.holds_at(s2, p2, j, y));
            }
            if m.ids().contains(y) {
                let (s2, p2, j) = choose|s2: OrderSide, p2: Price, j: int| m.holds_at(s2, p2, j, y);
                assert(m2.holds_at(s2, p2, j, y));
            }
        }
    }
    assert(m2.ids_unique()) by {
        assert forall|s1: OrderSide, p1: Price, i1: int, s2: OrderSide, p2: Price, i2: int, id: u64|
            m2.holds_at(s1, p1, i1, id) && m2.holds_at(s2, p2, i2, id) implies s1 == s2 && p1 == p2
            && i1 == i2 by {
            assert(m.holds_at(s1, p1, i1, id));
            assert(m.holds_at(s2, p2, i2, id));
        }
    }
    assert forall|side: OrderSide, p2: Price| #[trigger] m2.levels(side).contains_key(p2) implies level_valid(
        side,
        p2,
        m2.levels(side)[p2],
    ) by {
        assert(level_valid(side, p2, m.levels(side)[p2])) by {
            match side {
                OrderSide::Buy => {},
                OrderSide::Sell => {},
            }
        }
        if side == s && p2 == p {
            assert forall|j: int| 0 <= j < nq.len() implies {
                let o = #[trigger] nq[j];
                &&& o.kind == OrderKind::Limit
                &&& o.limit_price == Some(p2)
                &&& o.side == side
                &&& o.resting.open_qty > 0
            } by {
                assert(q[j] == m.levels(side)[p2][j]);
            }
        } else if side == s {
            assert(m2.levels(s)[p2] == m.levels(s)[p2]);
        }
    }
    assert forall|p2: Price| #[trigger] m2.bids.contains_key(p2) implies level_valid(
        OrderSide::Buy,
        p2,
        m2.bids[p2],
    ) by {
        assert(m2.levels(OrderSide::Buy).contains_key(p2));
    }
    assert forall|p2: Price| #[trigger] m2.asks.contains_key(p2) implies level_valid(
        OrderSide::Sell,
        p2,
        m2.asks[p2],
    ) by {
        assert(m2.levels(OrderSide::Sell).contains_key(p2));
    }
    assert(m2.uncrossed()) by {
        assert forall|b: Price, a: Price| m2.bids.contains_key(b) && m2.asks.contains_key(a) implies b < a by {
            assert(m2.levels(OrderSide::Buy).contains_key(b));
            assert(m2.levels(OrderSide::Sell).contains_key(a));
            assert(m.levels(OrderSide::Buy).contains_key(b));
            assert(m.levels(OrderSide::Sell).contains_key(a));
        }
    }
    assert(m2.levels(s).dom() =~= m.levels(s).dom());
}

/// One fill keeps the book valid, leaves the taker's own side untouched, forgets no id
/// but the maker's, and trades a positive quantity at a price the taker accepts. When
/// the taker still has quantity left, the maker was filled completely and left.
pub proof fn lemma_match_step(m: BookModel, taker: Order, sequence: Sequence)
    requires
        m.valid(),
        m.can_fill(taker),
    ensures
        ({
            let (m2, t2, trade) = m.match_step(taker, sequence);
            &&& m2.valid()
            &&& m2.ids().subset_of(m.ids())
            &&& m2.capacity == m.capacity
            &&& m2.levels(taker.side) == m.levels(taker.side)
            &&& t2 == with_open(taker, t2.resting.open_qty)
            &&& t2.resting.open_qty < taker.resting.open_qty
            &&& t2.resting.open_qty + trade.quantity == taker.resting.open_qty
            &&& trade.quantity > 0
            &&& trade.sequence == sequence
            &&& trade.taker_order_id == taker.resting.id
            &&& trade.taker_id == taker.resting.user_id
            &&& trade.taker_side == taker.side
            &&& accepts(taker, trade.price)
            &&& (t2.resting.open_qty > 0 ==> m2.live + 1 == m.live)
            &&& (t2.resting.open_qty == 0 ==> m2.live <= m.live)
        }),
{
    let side = crate::domain::order::opposite(taker.side);
    let levels = m.levels(side);
    assert(crate::domain::order::opposite(side) == taker.side);
    assert(levels.dom().finite()) by {
        match side {
            OrderSide::Buy => {},
            OrderSide::Sell => {},
        }
    }
    lemma_best_exists(levels, side);
    let p = best_price(levels, side);
    let q = levels[p];
    assert(level_valid(side, p, q)) by {
        match side {
            OrderSide::Buy => {},
            OrderSide::Sell => {},
        }
    }
    let maker = q[0];
    assert(maker.resting.open_qty > 0);
    let qty = if taker.resting.open_qty <= maker.resting.open_qty {
        taker.resting.open_qty
    } else {
        maker.resting.open_qty
    };
    if qty == maker.resting.open_qty {
        lemma_remove_at_valid(m, side, p, 0);
    } else {
        lemma_update_open_valid(m, side, p, 0, (maker.resting.open_qty - qty) as u64);
    }
}


/// Matching an order against a valid book keeps it valid and leaves the taker's own
/// side untouched; the trades account for exactly the quantity the taker lost, are all
/// at prices it accepts and carry its id, side and the sequence; when it stops, the
/// taker no longer trades against the book. Each trade that leaves the taker with
/// quantity filled its maker completely, so a taker with a remainder freed one unit of
/// capacity per trade, and a match without trades changed nothing.
pub proof fn lemma_match_orders(m: BookModel, taker: Order, sequence: Sequence)
    requires
        m.valid(),
    ensures
        ({
            let (m2, t2, trades) = m.match_orders(taker, sequence);
            &&& m2.valid()
            &&& m2.ids().subset_of(m.ids())
            &&& m2.capacity == m.capacity
            &&& m2.live <= m.live
            &&& m2.levels(taker.side) == m.levels(taker.side)
            &&& t2 == with_open(taker, t2.resting.open_qty)
            &&& t2.resting.open_qty + trade_total(trades) == taker.resting.open_qty
            &&& forall|k: int|
                0 <= k < trades.len() ==> {
                    let trade = #[trigger] trades[k];
                    &&& trade.sequence == sequence
                    &&& trade.taker_order_id == taker.resting.id
                    &&& trade.taker_id == taker.resting.user_id
                    &&& trade.taker_side == taker.side
                    &&& trade.quantity > 0
                    &&& accepts(taker, trade.price)
                }
            &&& (t2.resting.open_qty > 0 ==> m2.live + trades.len() == m.live)
            &&& (trades.len() == 0 ==> m2 == m && t2 == taker)
            &&& !m2.can_fill(t2)
        }),
    decreases taker.resting.open_qty,
{
    if m.can_fill(taker) {
        lemma_match_step(m, taker, sequence);
        let (book, next_taker, trade) = m.match_step(taker, sequence);
        lemma_match_orders(book, next_taker, sequence);
        let (m2, t2, rest) = book.match_orders(next_taker, sequence);
        let trades = seq![trade] + rest;
        assert(m.match_orders(taker, sequence) == (m2, t2, trades));
        assert(trades.drop_first() == rest);
        assert(trades[0] == trade);
        assert forall|k: int| 0 <= k < trades.len() implies {
            let t = #[trigger] trades[k];
            &&& t.sequence == sequence
            &&& t.taker_order_id == taker.resting.id
            &&& t.taker_id == taker.resting.user_id
            &&& t.taker_side == taker.side
            &&& t.quantity > 0
            &&& accepts(taker, t.price)
        } by {
            if k > 0 {
                assert(trades[k] == rest[k - 1]);
                assert(accepts(next_taker, rest[k - 1].price));
            }
        }
        assert(m2.ids().subset_of(m.ids()));
    } else {
        assert(trade_total(Seq::<Trade>::empty()) == 0);
    }
}


/// A limit order whose price is already a level of its own side does not trade against
/// a valid book: the book is not crossed.
proof fn lemma_own_level_blocks_fill(m: BookModel, order: Order)
    requires
        m.valid(),
        order.kind == OrderKind::Limit,
        order.limit_price is Some,
        m.levels(order.side).contains_key(order.limit_price->0),
    ensures
        !m.can_fill(order),
{
    let side = crate::domain::order::opposite(order.side);
    let levels = m.levels(side);
    let p = order.limit_price->0;
    if has_levels(levels) {
        assert(levels.dom().finite()) by {
            match side {
                OrderSide::Buy => {},
                OrderSide::Sell => {},
            }
        }
        lemma_best_exists(levels, side);
        let best = best_price(levels, side);
        match order.side {
            OrderSide::Buy => {
                assert(m.bids.contains_key(p) && m.asks.contains_key(best));
            },
            OrderSide::Sell => {
                assert(m.bids.contains_key(best) && m.asks.contains_key(p));
            },
        }
    }
}

/// A refused submit changes nothing. Whether the order is invalid, reuses the id of a
/// resting order, would overflow its level's aggregate or finds the book full, no fill
/// is applied and nothing rests: a remainder can only fail to rest when no fill
/// happened.
pub proof fn law_refused_submit_changes_nothing(m: BookModel, order: Order, sequence: Sequence)
    requires
        m.valid(),
    ensures
        m.submit(order, sequence).1 is Err ==> m.submit(order, sequence).0 == m,
{
    if order.validation_error() is None && !m.has_order(order.resting.id) {
        lemma_match_orders(m, order, sequence);
        let (m1, t1, trades) = m.match_orders(order, sequence);
        if t1.resting.open_qty > 0 && t1.kind == OrderKind::Limit {
            match m1.rest(t1) {
                Ok(_) => {},
                Err(e) => {
                    let p = t1.limit_price->0;
                    if m1.levels(t1.side).contains_key(p) {
                        lemma_own_level_blocks_fill(m, order);
                    } else if trades.len() > 0 {
                        assert(m1.live < m.live);
                    }
                },
            }
        }
    }
}

/// An accepted submit accounts for its order: the fills and the remainder add up to
/// the order's open quantity; every fill is at a price the order accepts and carries
/// the order's id, owner, side and the sequence; a market order never rests; a limit
/// order's remainder rests, and a filled order does not.
pub proof fn law_accepted_submit(m: BookModel, order: Order, sequence: Sequence)
    requires
        m.valid(),
    ensures
        m.submit(order, sequence).1 matches Ok(report) ==> {
            let after = m.submit(order, sequence).0;
            &&& report.order_id == order.resting.id
            &&& report.remaining_quantity + trade_total(report.trades) == order.resting.open_qty
            &&& forall|k: int|
                0 <= k < report.trades.len() ==> {
                    let trade = #[trigger] report.trades[k];
                    &&& accepts(order, trade.price)
                    &&& trade.sequence == sequence
                    &&& trade.taker_order_id == order.resting.id
                    &&& trade.taker_id == order.resting.user_id
                    &&& trade.taker_side == order.side
                    &&& trade.quantity > 0
                }
            &&& (order.kind == OrderKind::Market ==> !after.has_order(order.resting.id))
            &&& (report.remaining_quantity == 0 ==> !after.has_order(order.resting.id))
            &&& (order.kind == OrderKind::Limit && report.remaining_quantity > 0 ==> after.has_order(
                order.resting.id,
            ))
        },
{
    if order.validation_error() is None && !m.has_order(order.resting.id) {
        lemma_match_orders(m, order, sequence);
        let (m1, t1, trades) = m.match_orders(order, sequence);
        if m1.has_order(order.resting.id) {
            assert(m1.ids().contains(order.resting.id));
            assert(m.ids().contains(order.resting.id));
        }
        if t1.resting.open_qty > 0 && t1.kind == OrderKind::Limit {
            match m1.rest(t1) {
                Ok(rested) => {
                    let side = t1.side;
                    let p = t1.limit_price->0;
                    let queue = rested.levels(side)[p];
                    assert(queue[queue.len() - 1] == t1);
                    assert(rested.holds_at(side, p, queue.len() - 1, order.resting.id));
                },
                Err(_) => {},
            }
        }
    }
}

/// Cancelling takes exactly the named order off a valid book and frees one unit of
/// capacity, reporting the quantity it still had open; cancelling an id that does not
/// rest changes nothing. The book stays valid.
pub proof fn law_cancel(m: BookModel, order_id: u64)
    requires
        m.valid(),
    ensures
        ({
            let (after, answer) = cancel_result(m, order_id);
            &&& after.valid()
            &&& !after.has_order(order_id)
            &&& after.capacity == m.capacity
            &&& m.has_order(order_id) ==> {
                &&& after.ids() == m.ids().remove(order_id)
                &&& after.live == m.live - 1
                &&& answer matches Ok(report) && report.order_id == order_id && report.canceled_quantity > 0
            }
            &&& !m.has_order(order_id) ==> after == m && answer == Err::<
                super::report::CancelReport,
                BookError,
            >(BookError::OrderNotFound(order_id))
        }),
{
    if m.has_order(order_id) {
        let (s, p, i) = m.position_of(order_id);
        assert(m.holds_at(s, p, i, order_id));
        lemma_remove_at_valid(m, s, p, i);
        let after = m.remove_at(s, p, i);
        assert(!after.ids().contains(order_id));
        assert(level_valid(s, p, m.levels(s)[p])) by {
            match s {
                OrderSide::Buy => {},
                OrderSide::Sell => {},
            }
        }
        assert(m.levels(s)[p][i].resting.open_qty > 0);
    }
}

/// Every accepted order receives one monotonic sequence: an accepted submit advances
/// the engine's sequence by exactly one and stamps it on every trade; a refused submit
/// changes neither the book nor the sequence.
pub proof fn law_engine_sequence(e: EngineModel, order: Order)
    requires
        e.book.valid(),
    ensures
        ({
            let (after, answer) = e.submit(order);
            &&& answer is Err ==> after == e
            &&& answer matches Ok(report) ==> {
                &&& after.sequence == e.sequence + 1
                &&& forall|k: int|
                    0 <= k < report.trades.len() ==> (#[trigger] report.trades[k]).sequence == after.sequence
            }
        }),
{
    if e.sequence < u64::MAX {
        let next = (e.sequence + 1) as Sequence;
        law_refused_submit_changes_nothing(e.book, order, next);
        law_accepted_submit(e.book, order, next);
    }
}

/// The prices a taker trades at: each is a level of the other side of the book it
/// meets; the first fill is at that side's best price against the oldest order there;
/// and no fill is at a better price than an earlier one.
proof fn lemma_match_prices(m: BookModel, taker: Order, sequence: Sequence)
    requires
        m.valid(),
    ensures
        ({
            let side = crate::domain::order::opposite(taker.side);
            let levels = m.levels(side);
            let trades = m.match_orders(taker, sequence).2;
            &&& forall|k: int| 0 <= k < trades.len() ==> levels.contains_key(#[trigger] trades[k].price)
            &&& trades.len() > 0 ==> {
                &&& trades[0].price == best_price(levels, side)
                &&& trades[0].maker_order_id == levels[best_price(levels, side)][0].resting.id
            }
            &&& forall|i: int, j: int|
                0 <= i < j < trades.len() ==> !better(side, #[trigger] trades[j].price, #[trigger] trades[i].price)
        }),
    decreases taker.resting.open_qty,
{
    let side = crate::domain::order::opposite(taker.side);
    let levels = m.levels(side);
    if m.can_fill(taker) {
        lemma_match_step(m, taker, sequence);
        let (book, next_taker, trade) = m.match_step(taker, sequence);
        lemma_match_prices(book, next_taker, sequence);
        let rest = book.match_orders(next_taker, sequence).2;
        let trades = m.match_orders(taker, sequence).2;
        assert(trades == seq![trade] + rest);
        assert(levels.dom().finite()) by {
            match side {
                OrderSide::Buy => {},
                OrderSide::Sell => {},
            }
        }
        lemma_best_exists(levels, side);
        let p = best_price(levels, side);
        assert(trade.price == p);
        assert(crate::domain::order::opposite(next_taker.side) == side);
        assert forall|q: Price| #[trigger] book.levels(side).contains_key(q) implies levels.contains_key(
            q,
        ) by {
            assert(crate::domain::order::opposite(side) == taker.side);
        }
        assert forall|k: int| 0 <= k < trades.len() implies levels.contains_key(
            #[trigger] trades[k].price,
        ) by {
            if k > 0 {
                assert(trades[k] == rest[k - 1]);
                assert(book.levels(side).contains_key(rest[k - 1].price));
            }
        }
        assert forall|i: int, j: int| 0 <= i < j < trades.len() implies !better(
            side,
            #[trigger] trades[j].price,
            #[trigger] trades[i].price,
        ) by {
            assert(trades[j] == rest[j - 1]);
            assert(levels.contains_key(trades[j].price));
            if i > 0 {
                assert(trades[i] == rest[i - 1]);
                assert(!better(side, rest[j - 1].price, rest[i - 1].price));
            }
        }
    }
}

/// Fills follow price-time priority: an accepted order that trades fills first against
/// the oldest order at the best price of the other side, at that price, and each later
/// fill is at a price no better than the one before it.
pub proof fn law_price_time_priority(m: BookModel, order: Order, sequence: Sequence)
    requires
        m.valid(),
    ensures
        m.submit(order, sequence).1 matches Ok(report) ==> {
            let side = crate::domain::order::opposite(order.side);
            let levels = m.levels(side);
            let best = best_price(levels, side);
            &&& report.trades.len() > 0 ==> {
                &&& report.trades[0].price == best
                &&& report.trades[0].maker_order_id == levels[best][0].resting.id
            }
            &&& forall|i: int, j: int|
                0 <= i < j < report.trades.len() ==> !better(
                    side,
                    #[trigger] report.trades[j].price,
                    #[trigger] report.trades[i].price,
                )
        },
{
    if order.validation_error() is None && !m.has_order(order.resting.id) {
        lemma_match_prices(m, order, sequence);
    }
}

/// In two listings of the same best levels, the first place where the prices differ
/// cannot hold a better price in the first listing.
proof fn lemma_listing_no_better(
    levels: Map<Price, Seq<Order>>,
    side: OrderSide,
    n: nat,
    r1: Seq<PriceLevelView>,
    r2: Seq<PriceLevelView>,
    i: int,
)
    requires
        lists_best_levels(levels, side, n, r1),
        lists_best_levels(levels, side, n, r2),
        0 <= i < r1.len(),
        forall|j: int| 0 <= j < i ==> (#[trigger] r1[j]).price == r2[j].price,
    ensures
        !better(side, r1[i].price, r2[i].price),
{
    let a = r1[i].price;
    let b = r2[i].price;
    if better(side, a, b) {
        assert(levels.contains_key(a));
        assert(!better(side, r2[i].price, a)) by {
            match side {
                OrderSide::Buy => {},
                OrderSide::Sell => {},
            }
        }
        let j = choose|j: int| 0 <= j < r2.len() && #[trigger] r2[j].price == a;
        if j < i {
            assert(r1[j].price == r2[j].price);
            assert(better(side, r1[j].price, r1[i].price));
        } else if j > i {
            assert(better(side, r2[i].price, r2[j].price));
            match side {
                OrderSide::Buy => {},
                OrderSide::Sell => {},
            }
        }
    }
}

proof fn lemma_listing_price(
    levels: Map<Price, Seq<Order>>,
    side: OrderSide,
    n: nat,
    r1: Seq<PriceLevelView>,
    r2: Seq<PriceLevelView>,
    i: int,
)
    requires
        lists_best_levels(levels, side, n, r1),
        lists_best_levels(levels, side, n, r2),
        0 <= i < r1.len(),
    ensures
        r1[i].price == r2[i].price,
    decreases i,
{
    assert forall|j: int| 0 <= j < i implies (#[trigger] r1[j]).price == r2[j].price by {
        lemma_listing_price(levels, side, n, r1, r2, j);
    }
    lemma_listing_no_better(levels, side, n, r1, r2, i);
    lemma_listing_no_better(levels, side, n, r2, r1, i);
    match side {
        OrderSide::Buy => {},
        OrderSide::Sell => {},
    }
}

/// A listing of the best levels is determined by the levels, the side and the depth:
/// any two listings of the same `n` best levels are equal.
pub proof fn law_best_levels_unique(
    levels: Map<Price, Seq<Order>>,
    side: OrderSide,
    n: nat,
    r1: Seq<PriceLevelView>,
    r2: Seq<PriceLevelView>,
)
    requires
        lists_best_levels(levels, side, n, r1),
        lists_best_levels(levels, side, n, r2),
    ensures
        r1 == r2,
{
    assert forall|i: int| 0 <= i < r1.len() implies #[trigger] r1[i] == r2[i] by {
        lemma_listing_price(levels, side, n, r1, r2, i);
    }
    assert(r1 =~= r2);
}

/// A depth read is a prefix of the full snapshot: the `n` best levels of a side are
/// the first `n` levels of the listing of all of them (all of them when there are
/// fewer), and a depth of zero lists nothing.
pub proof fn law_depth_is_prefix_of_snapshot(
    levels: Map<Price, Seq<Order>>,
    side: OrderSide,
    n: nat,
    depth: Seq<PriceLevelView>,
    full: Seq<PriceLevelView>,
)
    requires
        lists_best_levels(levels, side, n, depth),
        lists_best_levels(levels, side, levels.dom().len(), full),
    ensures
        depth.len() == (if n < full.len() {
            n
        } else {
            full.len()
        }),
        depth == full.take(depth.len() as int),
{
    let k = depth.len() as int;
    let t = full.take(k);
    assert forall|i: int| 0 <= i < t.len() implies levels.contains_key(#[trigger] t[i].price)
        && t[i] == level_view(t[i].price, levels[t[i].price]) by {
        assert(t[i] == full[i]);
    }
    assert forall|i: int, j: int| 0 <= i < j < t.len() implies better(side, t[i].price, t[j].price) by {
        assert(t[i] == full[i] && t[j] == full[j]);
    }
    assert forall|p: Price, i: int|
        #![trigger levels.contains_key(p), t[i]]
        levels.contains_key(p) && 0 <= i < t.len() && !better(side, t[i].price, p) implies exists|
            j: int,
        | 0 <= j < t.len() && #[trigger] t[j].price == p by {
        assert(t[i] == full[i]);
        let j = choose|j: int| 0 <= j < full.len() && #[trigger] full[j].price == p;
        if j >= k {
            assert(better(side, full[i].price, full[j].price));
        }
        assert(t[j] == full[j]);
    }
    assert(lists_best_levels(levels, side, n, t));
    law_best_levels_unique(levels, side, n, depth, t);
}

/// Engines are deterministic: what an engine answers and becomes depends on its model
/// alone, never on timing, hashing or addresses. Two engines with the same model (as
/// any two built by the same calls from `Engine::new` are) answer the same submit or
/// cancel alike and move to the same model, and their reads agree, since the top of
/// book is a function of the model and a depth listing is unique
/// (`law_best_levels_unique`).
pub proof fn law_engine_deterministic(e1: EngineModel, e2: EngineModel, order: Order, order_id: u64)
    requires
        e1 == e2,
    ensures
        e1.submit(order) == e2.submit(order),
        cancel_result(e1.book, order_id) == cancel_result(e2.book, order_id),
        super::model::top_level(e1.book.bids, OrderSide::Buy) == super::model::top_level(
            e2.book.bids,
            OrderSide::Buy,
        ),
        super::model::top_level(e1.book.asks, OrderSide::Sell) == super::model::top_level(
            e2.book.asks,
            OrderSide::Sell,
        ),
{
}

/// Resting an order and cancelling it undoes the rest: when a limit order is accepted
/// without a fill, cancelling its id reports its whole open quantity and gives back the
/// book it was submitted to, so the snapshot and the top of book are again those of
/// that book.
pub proof fn law_rest_then_cancel(m: BookModel, order: Order, sequence: Sequence)
    requires
        m.valid(),
    ensures
        ({
            let (rested, answer) = m.submit(order, sequence);
            answer matches Ok(report) && report.trades.len() == 0 && order.kind == OrderKind::Limit
                ==> cancel_result(rested, order.resting.id) == (
                m,
                Ok::<CancelReport, BookError>(
                    CancelReport {
                        order_id: order.resting.id,
                        canceled_quantity: order.resting.open_qty,
                    },
                ),
            )
        }),
{
    let (rested, answer) = m.submit(order, sequence);
    if answer is Ok && order.kind == OrderKind::Limit && order.validation_error() is None
        && !m.has_order(order.resting.id) {
        lemma_match_orders(m, order, sequence);
        let (m1, t1, trades) = m.match_orders(order, sequence);
        if trades.len() == 0 {
            assert(m1 == m && t1 == order);
            assert(order.resting.open_qty > 0);
            let side = order.side;
            let p = order.limit_price->0;
            let levels = m.levels(side);
            let id = order.resting.id;
            let old_q = if levels.contains_key(p) {
                levels[p]
            } else {
                Seq::<Order>::empty()
            };
            let q = old_q.push(order);
            assert(m.rest(order) is Ok);
            assert(rested == m.rest(order)->Ok_0);
            assert(rested.levels(side) == levels.insert(p, q)) by {
                if levels.contains_key(p) {
                } else {
                    assert(seq![order] == q);
                }
            }
            assert(rested.levels(crate::domain::order::opposite(side)) == m.levels(
                crate::domain::order::opposite(side),
            )) by {
                match side {
                    OrderSide::Buy => {},
                    OrderSide::Sell => {},
                }
            }
            let last = old_q.len() as int;
            assert(rested.holds_at(side, p, last, id));
            assert forall|s2: OrderSide, p2: Price, i2: int| rested.holds_at(s2, p2, i2, id) implies s2
                == side && p2 == p && i2 == last by {
                if !(s2 == side && p2 == p && i2 == last) {
                    if s2 == side && p2 == p {
                        assert(q[i2] == old_q[i2]);
                        assert(m.holds_at(s2, p2, i2, id));
                    } else if s2 == side {
                        assert(m.holds_at(s2, p2, i2, id));
                    } else {
                        assert(rested.levels(s2) == m.levels(s2)) by {
                            match side {
                                OrderSide::Buy => {},
                                OrderSide::Sell => {},
                            }
                        }
                        assert(m.holds_at(s2, p2, i2, id));
                    }
                    assert(m.has_order(id));
                }
            }
            assert(rested.has_order(id));
            let (s, pp, i) = rested.position_of(id);
            assert(rested.holds_at(s, pp, i, id));
            assert(s == side && pp == p && i == last);
            let after = rested.remove_at(side, p, last);
            if levels.contains_key(p) {
                assert(level_valid(side, p, levels[p])) by {
                    match side {
                        OrderSide::Buy => {},
                        OrderSide::Sell => {},
                    }
                }
                assert(q.remove(last) == old_q);
                assert(levels.insert(p, q).insert(p, old_q) == levels);
            } else {
                assert(levels.insert(p, q).remove(p) == levels);
            }
            assert(after.levels(side) == levels);
            assert(after.bids == m.bids && after.asks == m.asks) by {
                match side {
                    OrderSide::Buy => {},
                    OrderSide::Sell => {},
                }
            }
            assert(after == m);
        }
    }
}

/// A cancel reports the cancelled order's own open quantity: on a valid book, a
/// successful cancel of `order_id` names that id and reports the open quantity of the
/// order that rested under that id, at its own position, before the cancel.
pub proof fn law_cancel_reports_the_orders_quantity(m: BookModel, order_id: u64)
    requires
        m.valid(),
    ensures
        cancel_result(m, order_id).1 matches Ok(report) ==> {
            &&& report.order_id == order_id
            &&& exists|s: OrderSide, p: Price, i: int|
                m.holds_at(s, p, i, order_id) && report.canceled_quantity == m.levels(
                    s,
                )[p][i].resting.open_qty
        },
{
    if m.has_order(order_id) {
        let (s, p, i) = m.position_of(order_id);
        assert(m.holds_at(s, p, i, order_id));
    }
}

/// The top of book is the best level with its aggregate: on each side it is the first
/// entry of any listing of that side's best levels (none when the side is empty), and
/// it carries a price at which orders rest with no better price resting, the total open
/// quantity of all orders at that price, and their number.
pub proof fn law_top_is_best_aggregate(
    levels: Map<Price, Seq<Order>>,
    side: OrderSide,
    n: nat,
    r: Seq<PriceLevelView>,
)
    requires
        levels.dom().finite(),
        n >= 1,
        lists_best_levels(levels, side, n, r),
    ensures
        top_level(levels, side) == (if r.len() > 0 {
            Some(r[0])
        } else {
            None::<PriceLevelView>
        }),
        top_level(levels, side) matches Some(view) ==> {
            &&& levels.contains_key(view.price)
            &&& forall|q: Price| #[trigger] levels.contains_key(q) ==> !better(side, q, view.price)
            &&& view.quantity == open_total(levels[view.price]) as u64
            &&& view.order_count == levels[view.price].len() as usize
        },
{
    if has_levels(levels) {
        let k = choose|p: Price| levels.contains_key(p);
        vstd::set::axiom_set_contains_len(levels.dom(), k);
        assert(r.len() > 0);
        let a = r[0].price;
        assert(levels.contains_key(a));
        assert forall|q: Price| #[trigger] levels.contains_key(q) implies !better(side, q, a) by {
            if better(side, q, a) {
                assert(!better(side, r[0].price, q)) by {
                    match side {
                        OrderSide::Buy => {},
                        OrderSide::Sell => {},
                    }
                }
                let j = choose|j: int| 0 <= j < r.len() && #[trigger] r[j].price == q;
                if j > 0 {
                    assert(better(side, r[0].price, r[j].price));
                }
            }
        }
        super::model::lemma_best_price_unique(levels, side, a);
    } else {
        assert(levels.dom() =~= Set::<Price>::empty());
    }
}

/// Whether an order with id `id` owned by `user` rests in `m` at price `p` of `side`.
pub open spec fn rests_with_owner(m: BookModel, side: OrderSide, p: Price, id: u64, user: u64) -> bool {
    exists|i: int| m.holds_at(side, p, i, id) && #[trigger] m.levels(side)[p][i].resting.user_id == user
}

/// An order that rests after one fill rested before it, at the same price, under the
/// same id and owner.
proof fn lemma_step_keeps_owners(
    m: BookModel,
    taker: Order,
    sequence: Sequence,
    p2: Price,
    id: u64,
    user: u64,
)
    requires
        m.valid(),
        m.can_fill(taker),
        rests_with_owner(
            m.match_step(taker, sequence).0,
            crate::domain::order::opposite(taker.side),
            p2,
            id,
            user,
        ),
    ensures
        rests_with_owner(m, crate::domain::order::opposite(taker.side), p2, id, user),
{
    let side = crate::domain::order::opposite(taker.side);
    let levels = m.levels(side);
    let book = m.match_step(taker, sequence).0;
    assert(levels.dom().finite()) by {
        match side {
            OrderSide::Buy => {},
            OrderSide::Sell => {},
        }
    }
    lemma_best_exists(levels, side);
    let p = best_price(levels, side);
    let queue = levels[p];
    let i = choose|i: int|
        book.holds_at(side, p2, i, id) && #[trigger] book.levels(side)[p2][i].resting.user_id == user;
    assert(book.levels(side).contains_key(p2));
    if p2 != p {
        assert(book.levels(side)[p2] == levels[p2]) by {
            match side {
                OrderSide::Buy => {},
                OrderSide::Sell => {},
            }
        }
        assert(m.holds_at(side, p2, i, id) && m.levels(side)[p2][i].resting.user_id == user);
    } else {
        let bq = book.levels(side)[p];
        if bq == queue.remove(0) {
            assert(bq[i] == queue[i + 1]);
            assert(m.holds_at(side, p2, i + 1, id) && m.levels(side)[p2][i + 1].resting.user_id
                == user);
        } else {
            let maker = queue[0];
            assert(bq == queue.update(
                0,
                with_open(maker, bq[0].resting.open_qty),
            )) by {
                match side {
                    OrderSide::Buy => {},
                    OrderSide::Sell => {},
                }
            }
            assert(m.holds_at(side, p2, i, id) && m.levels(side)[p2][i].resting.user_id == user);
        }
    }
}

proof fn lemma_match_owners(m: BookModel, taker: Order, sequence: Sequence)
    requires
        m.valid(),
    ensures
        ({
            let trades = m.match_orders(taker, sequence).2;
            forall|k: int|
                0 <= k < trades.len() ==> rests_with_owner(
                    m,
                    crate::domain::order::opposite(taker.side),
                    (#[trigger] trades[k]).price,
                    trades[k].maker_order_id,
                    trades[k].maker_id,
                )
        }),
    decreases taker.resting.open_qty,
{
    let side = crate::domain::order::opposite(taker.side);
    if m.can_fill(taker) {
        lemma_match_step(m, taker, sequence);
        let (book, next_taker, trade) = m.match_step(taker, sequence);
        lemma_match_owners(book, next_taker, sequence);
        let rest = book.match_orders(next_taker, sequence).2;
        let trades = m.match_orders(taker, sequence).2;
        assert(trades == seq![trade] + rest);
        assert(crate::domain::order::opposite(next_taker.side) == side);
        let levels = m.levels(side);
        assert(levels.dom().finite()) by {
            match side {
                OrderSide::Buy => {},
                OrderSide::Sell => {},
            }
        }
        lemma_best_exists(levels, side);
        let p = best_price(levels, side);
        assert(m.holds_at(side, p, 0, trade.maker_order_id) && m.levels(side)[p][0].resting.user_id
            == trade.maker_id);
        assert forall|k: int| 0 <= k < trades.len() implies rests_with_owner(
            m,
            side,
            (#[trigger] trades[k]).price,
            trades[k].maker_order_id,
            trades[k].maker_id,
        ) by {
            if k > 0 {
                assert(trades[k] == rest[k - 1]);
                lemma_step_keeps_owners(
                    m,
                    taker,
                    sequence,
                    rest[k - 1].price,
                    rest[k - 1].maker_order_id,
                    rest[k - 1].maker_id,
                );
            }
        }
    }
}

/// Every fill names its maker truly: each trade of an accepted submit on a valid book
/// was made against an order that rested on the other side before the submit, at the
/// trade's price, under the trade's `maker_order_id`, and owned by the trade's
/// `maker_id`. Since an id rests at most once, the maker's owner is that order's own.
pub proof fn law_trades_name_their_makers(m: BookModel, order: Order, sequence: Sequence)
    requires
        m.valid(),
    ensures
        m.submit(order, sequence).1 matches Ok(report) ==> forall|k: int|
            0 <= k < report.trades.len() ==> {
                let trade = #[trigger] report.trades[k];
                exists|i: int|
                    m.holds_at(crate::domain::order::opposite(order.side), trade.price, i, trade.maker_order_id)
                        && m.levels(crate::domain::order::opposite(order.side))[trade.price][i].resting.user_id
                        == trade.maker_id
            },
{
    if order.validation_error() is None && !m.has_order(order.resting.id) {
        lemma_match_owners(m, order, sequence);
    }
}

} // verus!
