use std::collections::{BTreeMap, HashMap};

use vstd::prelude::*;

use super::arena::{Arena, ArenaError, NodeId};
use super::levels::{first_level, last_level, levels_ascending, PriceLevel};
use super::model::BookModel;
use super::report::{
    BookError, BookSnapshot, CancelReport, ExecutionReport, PriceLevelView, ReportView, TopOfBook,
};
use crate::domain::{opposite_side, Order, OrderId, OrderKind, OrderSide, Price, Quantity, Sequence, Trade};

verus! {

/// A resting order in the arena, linked to its neighbours in its price level's queue.
#[derive(Debug, Clone, Copy)]
pub struct OrderNode {
    pub order: Order,
    pub price: Price,
    pub prev: Option<NodeId>,
    pub next: Option<NodeId>,
}

/// Canonical, single-instrument state. Methods take `&mut self`, so there is one
/// writer and no locking.
///
/// Resting orders live in an arena of fixed capacity. Each price level is a doubly
/// linked FIFO queue through the arena, recorded in `bids`/`asks` by head, tail,
/// count and aggregate open quantity; `locations` finds an order's node by its id.
/// The ghost queues list each level's nodes oldest first, and `slot_of` gives each
/// live node its side, price and position.
pub struct Book {
    arena: Arena<OrderNode>,
    bids: BTreeMap<Price, PriceLevel>,
    asks: BTreeMap<Price, PriceLevel>,
    locations: HashMap<OrderId, NodeId>,
    bid_queues: Ghost<Map<Price, Seq<usize>>>,
    ask_queues: Ghost<Map<Price, Seq<usize>>>,
    slot_of: Ghost<Map<usize, (OrderSide, Price, int)>>,
}

impl Book {
    /// The level records of one side.
    pub closed spec fn level_records(&self, side: OrderSide) -> Map<Price, PriceLevel> {
        match side {
            OrderSide::Buy => self.bids@,
            OrderSide::Sell => self.asks@,
        }
    }

    /// The node queues of one side.
    closed spec fn queues(&self, side: OrderSide) -> Map<Price, Seq<usize>> {
        match side {
            OrderSide::Buy => self.bid_queues@,
            OrderSide::Sell => self.ask_queues@,
        }
    }

    /// The live nodes.
    closed spec fn nodes(&self) -> Map<usize, OrderNode> {
        self.arena.items()
    }

    /// The orders held by a queue of nodes.
    closed spec fn orders_of(&self, q: Seq<usize>) -> Seq<Order> {
        q.map_values(|n: usize| self.nodes()[n].order)
    }

    /// The model's levels of one side.
    closed spec fn side_view(&self, side: OrderSide) -> Map<Price, Seq<Order>> {
        self.queues(side).map_values(|q: Seq<usize>| self.orders_of(q))
    }

    /// Node `n` sits where `slot_of` says, with fields that agree with its level and
    /// links to its neighbours in the queue.
    closed spec fn node_ok(&self, n: usize) -> bool {
        let (s, p, i) = self.slot_of@[n];
        let q = self.queues(s)[p];
        let node = self.nodes()[n];
        &&& self.slot_of@.contains_key(n)
        &&& self.queues(s).contains_key(p)
        &&& 0 <= i < q.len()
        &&& q[i] == n
        &&& node.price == p
        &&& node.order.side == s
        &&& node.order.kind == OrderKind::Limit
        &&& node.order.limit_price == Some(p)
        &&& node.order.resting.open_qty > 0
        &&& node.prev == (if i == 0 {
            None
        } else {
            Some(NodeId(q[i - 1]))
        })
        &&& node.next == (if i == q.len() - 1 {
            None
        } else {
            Some(NodeId(q[i + 1]))
        })
        &&& self.locations@.contains_key(node.order.resting.id)
        &&& self.locations@[node.order.resting.id] == NodeId(n)
    }

    /// Level `p` of `side` is a non-empty queue of live nodes whose record holds its
    /// head, tail, length and aggregate open quantity.
    closed spec fn level_ok(&self, side: OrderSide, p: Price) -> bool {
        let q = self.queues(side)[p];
        let lv = self.level_records(side)[p];
        &&& q.len() > 0
        &&& lv.count == q.len()
        &&& lv.head == Some(NodeId(q[0]))
        &&& lv.tail == Some(NodeId(q[q.len() - 1]))
        &&& lv.quantity == super::model::open_total(self.orders_of(q))
        &&& forall|i: int|
            0 <= i < q.len() ==> self.nodes().contains_key(#[trigger] q[i])
                && self.slot_of@.contains_key(q[i]) && self.slot_of@[q[i]] == (side, p, i)
    }

    closed spec fn side_ok(&self, side: OrderSide) -> bool {
        &&& self.level_records(side).dom() == self.queues(side).dom()
        &&& forall|p: Price| #[trigger] self.queues(side).contains_key(p) ==> self.level_ok(side, p)
    }

    closed spec fn nodes_ok(&self) -> bool {
        forall|n: usize| #[trigger] self.nodes().contains_key(n) ==> self.node_ok(n)
    }

    closed spec fn locations_ok(&self) -> bool {
        forall|id: OrderId| #[trigger]
            self.locations@.contains_key(id) ==> self.nodes().contains_key(self.locations@[id].0)
                && self.nodes()[self.locations@[id].0].order.resting.id == id
    }

    closed spec fn uncrossed(&self) -> bool {
        forall|b: Price, a: Price|
            #![trigger self.bids@.contains_key(b), self.asks@.contains_key(a)]
            self.bids@.contains_key(b) && self.asks@.contains_key(a) ==> b < a
    }

    /// The book's internal consistency.
    pub closed spec fn wf(&self) -> bool {
        &&& self.arena.wf()
        &&& self.side_ok(OrderSide::Buy)
        &&& self.side_ok(OrderSide::Sell)
        &&& self.nodes_ok()
        &&& self.locations_ok()
        &&& self.uncrossed()
    }
}

impl View for Book {
    type V = BookModel;

    closed spec fn view(&self) -> BookModel {
        BookModel {
            bids: self.side_view(OrderSide::Buy),
            asks: self.side_view(OrderSide::Sell),
            capacity: self.arena.capacity_spec(),
            live: self.arena.live(),
        }
    }
}

impl Book {
    /// An empty book that rests at most `capacity` orders.
    pub fn new(capacity: usize) -> (r: Self)
        ensures
            r.wf(),
            r@ == BookModel::empty(capacity as nat),
    {
        let r = Book {
            arena: Arena::with_capacity(capacity),
            bids: BTreeMap::new(),
            asks: BTreeMap::new(),
            locations: HashMap::new(),
            bid_queues: Ghost(Map::empty()),
            ask_queues: Ghost(Map::empty()),
            slot_of: Ghost(Map::empty()),
        };
        proof {
            assert(r.side_view(OrderSide::Buy) =~= Map::empty());
            assert(r.side_view(OrderSide::Sell) =~= Map::empty());
        }
        r
    }
}


impl Book {
    /// The live node `id`.
    fn node_at(&self, id: NodeId) -> (r: OrderNode)
        requires
            self.nodes().contains_key(id.0),
        ensures
            r == self.nodes()[id.0],
    {
        match self.arena.get(id) {
            Ok(node) => *node,
            Err(_) => {
                proof {
                    assert(false);
                }
                vstd::pervasive::unreached()
            },
        }
    }

    /// Replaces the live node `id`, touching nothing else.
    fn set_node(&mut self, id: NodeId, node: OrderNode)
        requires
            old(self).arena.wf(),
            old(self).nodes().contains_key(id.0),
        ensures
            final(self).arena.wf(),
            final(self).nodes() == old(self).nodes().insert(id.0, node),
            final(self).arena.capacity_spec() == old(self).arena.capacity_spec(),
            final(self).arena.live() == old(self).arena.live(),
            final(self).bids@ == old(self).bids@,
            final(self).asks@ == old(self).asks@,
            final(self).locations@ == old(self).locations@,
            final(self).bid_queues == old(self).bid_queues,
            final(self).ask_queues == old(self).ask_queues,
            final(self).slot_of == old(self).slot_of,
    {
        let _ = self.arena.set(id, node);
    }

    /// The record of level `price` on `side`, if the level exists.
    fn level_at(&self, side: OrderSide, price: Price) -> (r: Option<PriceLevel>)
        ensures
            r == (if self.level_records(side).contains_key(price) {
                Some(self.level_records(side)[price])
            } else {
                None
            }),
    {
        let found = match side {
            OrderSide::Buy => self.bids.get(&price),
            OrderSide::Sell => self.asks.get(&price),
        };
        match found {
            Some(level) => Some(*level),
            None => None,
        }
    }

    /// Stores the record of level `price` on `side`.
    fn put_level(&mut self, side: OrderSide, price: Price, level: PriceLevel)
        ensures
            final(self).level_records(side) == old(self).level_records(side).insert(price, level),
            final(self).level_records(crate::domain::order::opposite(side)) == old(
                self,
            ).level_records(crate::domain::order::opposite(side)),
            final(self).arena == old(self).arena,
            final(self).locations@ == old(self).locations@,
            final(self).bid_queues == old(self).bid_queues,
            final(self).ask_queues == old(self).ask_queues,
            final(self).slot_of == old(self).slot_of,
    {
        match side {
            OrderSide::Buy => {
                self.bids.insert(price, level);
            },
            OrderSide::Sell => {
                self.asks.insert(price, level);
            },
        }
    }

    /// Deletes the record of level `price` on `side`.
    fn drop_level(&mut self, side: OrderSide, price: Price)
        ensures
            final(self).level_records(side) == old(self).level_records(side).remove(price),
            final(self).level_records(crate::domain::order::opposite(side)) == old(
                self,
            ).level_records(crate::domain::order::opposite(side)),
            final(self).arena == old(self).arena,
            final(self).locations@ == old(self).locations@,
            final(self).bid_queues == old(self).bid_queues,
            final(self).ask_queues == old(self).ask_queues,
            final(self).slot_of == old(self).slot_of,
    {
        match side {
            OrderSide::Buy => {
                self.bids.remove(&price);
            },
            OrderSide::Sell => {
                self.asks.remove(&price);
            },
        }
    }
}


impl Book {
    /// Facts about the model of a well-formed book.
    proof fn lemma_view_levels(&self, side: OrderSide, p: Price)
        requires
            self.wf(),
        ensures
            self@.levels(side).contains_key(p) == self.queues(side).contains_key(p),
            self@.levels(side).contains_key(p) == self.level_records(side).contains_key(p),
            self@.levels(side).contains_key(p) ==> self@.levels(side)[p] == self.orders_of(
                self.queues(side)[p],
            ),
    {
        assert(self.side_ok(side));
    }

    /// Queues whose nodes keep their orders have the same orders.
    proof fn lemma_orders_of_same(old_book: &Book, new_book: &Book, q: Seq<usize>)
        requires
            forall|j: int|
                0 <= j < q.len() ==> new_book.nodes()[#[trigger] q[j]].order == old_book.nodes()[q[j]].order,
        ensures
            new_book.orders_of(q) == old_book.orders_of(q),
    {
        assert(new_book.orders_of(q) =~= old_book.orders_of(q));
    }

    /// Takes the live node `id` out of its level's queue, relinking its neighbours,
    /// updating the level record (or dropping an emptied level), forgetting its
    /// location and releasing its slot. Returns the order it held.
    fn remove_resting(&mut self, id: NodeId) -> (removed: Order)
        requires
            old(self).wf(),
            old(self).nodes().contains_key(id.0),
        ensures
            final(self).wf(),
            ({
                let (s, p, i) = old(self).slot_of@[id.0];
                &&& final(self)@ == old(self)@.remove_at(s, p, i)
                &&& removed == old(self)@.levels(s)[p][i]
            }),
            removed == old(self).nodes()[id.0].order,
            final(self).locations@ == old(self).locations@.remove(removed.resting.id),
    {
        let ghost old_book = *self;
        let ghost n = id.0;
        let ghost s = self.slot_of@[n].0;
        let ghost p = self.slot_of@[n].1;
        let ghost i = self.slot_of@[n].2;
        let ghost q = self.queues(s)[p];
        proof {
            assert(self.node_ok(n));
            assert(self.side_ok(s));
            assert(self.level_ok(s, p));
        }
        let node = self.node_at(id);
        let side = node.order.side;
        let price = node.price;
        let level = match self.level_at(side, price) {
            Some(level) => level,
            None => {
                proof {
                    assert(false);
                }
                vstd::pervasive::unreached()
            },
        };
        match node.prev {
            Some(pv) => {
                proof {
                    assert(old_book.slot_of@[q[i - 1]] == (s, p, i - 1));
                }
                let mut prev_node = self.node_at(pv);
                prev_node.next = node.next;
                self.set_node(pv, prev_node);
            },
            None => {},
        }
        match node.next {
            Some(nx) => {
                proof {
                    assert(old_book.slot_of@[q[i + 1]] == (s, p, i + 1));
                    assert(self.nodes().contains_key(nx.0));
                }
                let mut next_node = self.node_at(nx);
                next_node.prev = node.prev;
                self.set_node(nx, next_node);
            },
            None => {},
        }
        if level.count == 1 {
            self.drop_level(side, price);
        } else {
            let head = match node.prev {
                None => node.next,
                Some(_) => level.head,
            };
            let tail = match node.next {
                None => node.prev,
                Some(_) => level.tail,
            };
            proof {
                super::model::lemma_open_total_remove(old_book.orders_of(q), i);
                super::model::lemma_open_total_nonneg(old_book.orders_of(q).remove(i));
                assert(old_book.orders_of(q)[i] == node.order);
            }
            self.put_level(
                side,
                price,
                PriceLevel {
                    quantity: level.quantity - node.order.resting.open_qty,
                    head,
                    tail,
                    count: level.count - 1,
                },
            );
        }
        self.locations.remove(&node.order.resting.id);
        let _ = self.arena.release(id);
        proof {
            let new_q = if q.len() == 1 {
                old_book.queues(s).remove(p)
            } else {
                old_book.queues(s).insert(p, q.remove(i))
            };
            match s {
                OrderSide::Buy => {
                    self.bid_queues = Ghost(new_q);
                },
                OrderSide::Sell => {
                    self.ask_queues = Ghost(new_q);
                },
            }
            self.slot_of = Ghost(Self::shifted_slots(old_book.slot_of@, self.nodes(), s, p, i));
            Self::lemma_remove_resting_wf(old_book, *self, n);
        }
        node.order
    }
}


impl Book {
    /// Positions after removing position `i` of level `p` on `s`: later positions of
    /// that level move up by one.
    closed spec fn shifted_slots(
        slots: Map<usize, (OrderSide, Price, int)>,
        live: Map<usize, OrderNode>,
        s: OrderSide,
        p: Price,
        i: int,
    ) -> Map<usize, (OrderSide, Price, int)> {
        Map::new(
            |m: usize| live.contains_key(m),
            |m: usize|
                {
                    let (s2, p2, j) = slots[m];
                    if s2 == s && p2 == p && j > i {
                        (s2, p2, j - 1)
                    } else {
                        (s2, p2, j)
                    }
                },
        )
    }

    /// The nodes after unlinking node `n`, which sits at position `i` of queue `q`.
    closed spec fn unlinked_nodes(nodes: Map<usize, OrderNode>, q: Seq<usize>, i: int, n: usize) -> Map<
        usize,
        OrderNode,
    > {
        let node = nodes[n];
        let a = if i > 0 {
            nodes.insert(q[i - 1], OrderNode { next: node.next, ..nodes[q[i - 1]] })
        } else {
            nodes
        };
        let b = if i < q.len() - 1 {
            a.insert(q[i + 1], OrderNode { prev: node.prev, ..a[q[i + 1]] })
        } else {
            a
        };
        b.remove(n)
    }

    /// The level record after removing position `i` of queue `q`, given the removed node.
    closed spec fn shrunk_level(lv: PriceLevel, q: Seq<usize>, i: int, node: OrderNode) -> PriceLevel {
        PriceLevel {
            quantity: (lv.quantity - node.order.resting.open_qty) as Quantity,
            head: if i == 0 {
                node.next
            } else {
                lv.head
            },
            tail: if i == q.len() - 1 {
                node.prev
            } else {
                lv.tail
            },
            count: (lv.count - 1) as usize,
        }
    }

    /// `nb` is `o` after removing live node `n` as `remove_resting` does.
    closed spec fn removal_step(o: Book, nb: Book, n: usize) -> bool {
        let (s, p, i) = o.slot_of@[n];
        let q = o.queues(s)[p];
        let node = o.nodes()[n];
        let lv = o.level_records(s)[p];
        let opp = crate::domain::order::opposite(s);
        &&& nb.arena.wf()
        &&& nb.arena.capacity_spec() == o.arena.capacity_spec()
        &&& nb.arena.live() == o.arena.live() - 1
        &&& nb.nodes() == Self::unlinked_nodes(o.nodes(), q, i, n)
        &&& nb.queues(opp) == o.queues(opp)
        &&& nb.level_records(opp) == o.level_records(opp)
        &&& nb.queues(s) == (if q.len() == 1 {
            o.queues(s).remove(p)
        } else {
            o.queues(s).insert(p, q.remove(i))
        })
        &&& nb.level_records(s) == (if q.len() == 1 {
            o.level_records(s).remove(p)
        } else {
            o.level_records(s).insert(p, Self::shrunk_level(lv, q, i, node))
        })
        &&& nb.locations@ == o.locations@.remove(node.order.resting.id)
        &&& nb.slot_of@ == Self::shifted_slots(o.slot_of@, nb.nodes(), s, p, i)
    
    }

    proof fn lemma_remove_keeps_orders(o: Book, nb: Book, n: usize)
        requires
            o.wf(),
            o.nodes().contains_key(n),
            Self::removal_step(o, nb, n),
        ensures
            forall|m: usize| #[trigger]
                nb.nodes().contains_key(m) ==> o.nodes().contains_key(m) && m != n
                    && nb.nodes()[m].order == o.nodes()[m].order && nb.nodes()[m].price
                    == o.nodes()[m].price,
            forall|m: usize| #[trigger]
                o.nodes().contains_key(m) && (o.slot_of@[m].0 != o.slot_of@[n].0 || o.slot_of@[m].1
                    != o.slot_of@[n].1) ==> nb.nodes().contains_key(m) && nb.nodes()[m]
                    == o.nodes()[m],
    {
        let (s, p, i) = o.slot_of@[n];
        let q = o.queues(s)[p];
        let len = q.len();
        assert(o.node_ok(n));
        assert(o.side_ok(s));
        assert(o.level_ok(s, p));
        assert forall|m: usize| #[trigger]
            o.nodes().contains_key(m) && (o.slot_of@[m].0 != s || o.slot_of@[m].1 != p)
            implies nb.nodes().contains_key(m) && nb.nodes()[m] == o.nodes()[m] by {
            assert(o.node_ok(m));
            if i > 0 {
                assert(o.slot_of@[q[i - 1]] == (s, p, i - 1));
            }
            if i < len - 1 {
                assert(o.slot_of@[q[i + 1]] == (s, p, i + 1));
            }
        }
    }

    proof fn lemma_remove_other_side_ok(o: Book, nb: Book, n: usize)
        requires
            o.wf(),
            o.nodes().contains_key(n),
            Self::removal_step(o, nb, n),
        ensures
            nb.side_ok(crate::domain::order::opposite(o.slot_of@[n].0)),
    {
        let (s, p, i) = o.slot_of@[n];
        let opp = crate::domain::order::opposite(s);
        Self::lemma_remove_keeps_orders(o, nb, n);
        assert(o.side_ok(opp));
        assert forall|p2: Price| #[trigger] nb.queues(opp).contains_key(p2) implies nb.level_ok(
            opp,
            p2,
        ) by {
            assert(o.level_ok(opp, p2));
            let q2 = o.queues(opp)[p2];
            assert forall|j: int| 0 <= j < q2.len() implies nb.nodes().contains_key(
                #[trigger] q2[j],
            ) && nb.slot_of@.contains_key(q2[j]) && nb.slot_of@[q2[j]] == (opp, p2, j) by {
                assert(o.slot_of@[q2[j]] == (opp, p2, j));
            }
            Self::lemma_orders_of_same(&o, &nb, q2);
        }
    }

    proof fn lemma_remove_same_level_ok(o: Book, nb: Book, n: usize)
        requires
            o.wf(),
            o.nodes().contains_key(n),
            Self::removal_step(o, nb, n),
            o.queues(o.slot_of@[n].0)[o.slot_of@[n].1].len() > 1,
        ensures
            nb.level_ok(o.slot_of@[n].0, o.slot_of@[n].1),
            nb.orders_of(nb.queues(o.slot_of@[n].0)[o.slot_of@[n].1]) == o.orders_of(
                o.queues(o.slot_of@[n].0)[o.slot_of@[n].1],
            ).remove(o.slot_of@[n].2),
    {
        let (s, p, i) = o.slot_of@[n];
        let q = o.queues(s)[p];
        let node = o.nodes()[n];
        let len = q.len();
        Self::lemma_remove_keeps_orders(o, nb, n);
        assert(o.node_ok(n));
        assert(o.side_ok(s));
        assert(o.level_ok(s, p));
        let nq = q.remove(i);
        assert(nb.queues(s)[p] == nq);
        assert forall|j: int| 0 <= j < nq.len() implies nb.nodes().contains_key(#[trigger] nq[j])
            && nb.slot_of@.contains_key(nq[j]) && nb.slot_of@[nq[j]] == (s, p, j) by {
            if j < i {
                assert(nq[j] == q[j]);
                assert(o.slot_of@[q[j]] == (s, p, j));
            } else {
                assert(nq[j] == q[j + 1]);
                assert(o.slot_of@[q[j + 1]] == (s, p, j + 1));
            }
        }
        assert(nb.orders_of(nq) =~= o.orders_of(q).remove(i)) by {
            assert forall|j: int| 0 <= j < nq.len() implies nb.orders_of(nq)[j] == o.orders_of(
                q,
            ).remove(i)[j] by {
                if j < i {
                    assert(nq[j] == q[j]);
                } else {
                    assert(nq[j] == q[j + 1]);
                }
            }
        }
        super::model::lemma_open_total_remove(o.orders_of(q), i);
        super::model::lemma_open_total_nonneg(o.orders_of(q).remove(i));
        assert(o.orders_of(q)[i] == node.order);
        if i == 0 {
            assert(q[1] == nq[0]);
        }
        if i == len - 1 {
            assert(q[len - 2] == nq[nq.len() - 1]);
        }
        let lv = o.level_records(s)[p];
        let nlv = nb.level_records(s)[p];
        assert(nlv == Self::shrunk_level(lv, q, i, node));
        assert(nq.len() > 0);
        assert(nlv.count == nq.len());
        assert(nlv.head == Some(NodeId(nq[0])));
        assert(nlv.tail == Some(NodeId(nq[nq.len() - 1])));
        assert(nlv.quantity == super::model::open_total(nb.orders_of(nq)));
    }

    proof fn lemma_remove_same_side_ok(o: Book, nb: Book, n: usize)
        requires
            o.wf(),
            o.nodes().contains_key(n),
            Self::removal_step(o, nb, n),
        ensures
            nb.side_ok(o.slot_of@[n].0),
    {
        let (s, p, i) = o.slot_of@[n];
        Self::lemma_remove_keeps_orders(o, nb, n);
        assert(o.side_ok(s));
        assert(nb.level_records(s).dom() =~= nb.queues(s).dom());
        assert forall|p2: Price| #[trigger] nb.queues(s).contains_key(p2) implies nb.level_ok(
            s,
            p2,
        ) by {
            if p2 != p {
                assert(o.level_ok(s, p2));
                let q2 = o.queues(s)[p2];
                assert forall|j: int| 0 <= j < q2.len() implies nb.nodes().contains_key(
                    #[trigger] q2[j],
                ) && nb.slot_of@.contains_key(q2[j]) && nb.slot_of@[q2[j]] == (s, p2, j) by {
                    assert(o.slot_of@[q2[j]] == (s, p2, j));
                }
                Self::lemma_orders_of_same(&o, &nb, q2);
            } else {
                Self::lemma_remove_same_level_ok(o, nb, n);
            }
        }
    }

    proof fn lemma_remove_resting_wf(o: Book, nb: Book, n: usize)
        requires
            o.wf(),
            o.nodes().contains_key(n),
            Self::removal_step(o, nb, n),
        ensures
            nb.wf(),
            ({
                let (s, p, i) = o.slot_of@[n];
                nb@ == o@.remove_at(s, p, i)
            }),
    {
        let (s, p, i) = o.slot_of@[n];
        Self::lemma_remove_other_side_ok(o, nb, n);
        Self::lemma_remove_same_side_ok(o, nb, n);
        Self::lemma_remove_resting_nodes_ok(o, nb, n);
        Self::lemma_remove_keeps_orders(o, nb, n);
        assert(o.node_ok(n));
        assert(nb.locations_ok()) by {
            assert forall|id: OrderId| #[trigger] nb.locations@.contains_key(id) implies nb.nodes().contains_key(
                nb.locations@[id].0,
            ) && nb.nodes()[nb.locations@[id].0].order.resting.id == id by {
                assert(o.locations@.contains_key(id));
                let m = o.locations@[id].0;
                assert(o.nodes().contains_key(m));
                assert(m != n);
                assert(o.node_ok(m));
            }
        }
        assert(nb.uncrossed()) by {
            assert forall|b: Price, a: Price|
                nb.bids@.contains_key(b) && nb.asks@.contains_key(a) implies b < a by {
                assert(nb.level_records(OrderSide::Buy).contains_key(b));
                assert(o.level_records(OrderSide::Buy).contains_key(b));
                assert(nb.level_records(OrderSide::Sell).contains_key(a));
                assert(o.level_records(OrderSide::Sell).contains_key(a));
            }
        }
        Self::lemma_remove_view(o, nb, n);
    }

    proof fn lemma_remove_view(o: Book, nb: Book, n: usize)
        requires
            o.wf(),
            o.nodes().contains_key(n),
            Self::removal_step(o, nb, n),
        ensures
            ({
                let (s, p, i) = o.slot_of@[n];
                nb@ == o@.remove_at(s, p, i)
            }),
    {
        let (s, p, i) = o.slot_of@[n];
        let q = o.queues(s)[p];
        let opp = crate::domain::order::opposite(s);
        Self::lemma_remove_keeps_orders(o, nb, n);
        assert(o.node_ok(n));
        assert(o.side_ok(s));
        assert(o.side_ok(opp));
        assert forall|side: OrderSide, p2: Price|
            #[trigger] nb.queues(side).contains_key(p2) && (side != s || p2 != p) implies nb.orders_of(
            nb.queues(side)[p2],
        ) == o.orders_of(o.queues(side)[p2]) by {
            assert(o.queues(side).contains_key(p2));
            assert(o.level_ok(side, p2));
            let q2 = o.queues(side)[p2];
            assert(nb.queues(side)[p2] == q2);
            assert forall|j: int| 0 <= j < q2.len() implies nb.nodes()[#[trigger] q2[j]].order
                == o.nodes()[q2[j]].order by {
                assert(o.slot_of@[q2[j]] == (side, p2, j));
            }
            Self::lemma_orders_of_same(&o, &nb, q2);
        }
        let target = o@.remove_at(s, p, i);
        assert(nb.side_view(opp) =~= o.side_view(opp));
        if q.len() == 1 {
            assert(nb.side_view(s) =~= o.side_view(s).remove(p));
        } else {
            Self::lemma_remove_same_level_ok(o, nb, n);
            assert(nb.side_view(s) =~= o.side_view(s).insert(p, o.orders_of(q).remove(i)));
        }
        match s {
            OrderSide::Buy => {
                assert(nb@.bids == target.bids);
                assert(nb@.asks == target.asks);
            },
            OrderSide::Sell => {
                assert(nb@.bids == target.bids);
                assert(nb@.asks == target.asks);
            },
        }
    }

    proof fn lemma_remove_resting_nodes_ok(o: Book, nb: Book, n: usize)
        requires
            o.wf(),
            o.nodes().contains_key(n),
            Self::removal_step(o, nb, n),
        ensures
            nb.nodes_ok(),
    {
        Self::lemma_remove_keeps_orders(o, nb, n);
        assert forall|m: usize| #[trigger] nb.nodes().contains_key(m) implies nb.node_ok(m) by {
            let (s, p, i) = o.slot_of@[n];
            assert(o.node_ok(m));
            if o.slot_of@[m].0 != s || o.slot_of@[m].1 != p {
                Self::lemma_remove_resting_ok_elsewhere(o, nb, n, m);
            } else {
                Self::lemma_remove_resting_ok_same_level(o, nb, n, m);
            }
        }
    }

    proof fn lemma_remove_resting_ok_elsewhere(o: Book, nb: Book, n: usize, m: usize)
        requires
            o.wf(),
            o.nodes().contains_key(n),
            Self::removal_step(o, nb, n),
            nb.nodes().contains_key(m),
            o.slot_of@[m].0 != o.slot_of@[n].0 || o.slot_of@[m].1 != o.slot_of@[n].1,
        ensures
            nb.node_ok(m),
    {
        let (s, p, i) = o.slot_of@[n];
        let node = o.nodes()[n];
        Self::lemma_remove_keeps_orders(o, nb, n);
        assert(o.node_ok(n));
        assert(o.node_ok(m));
        let (s2, p2, j) = o.slot_of@[m];
        assert(o.locations@[o.nodes()[m].order.resting.id] == NodeId(m));
        assert(o.nodes()[m].order.resting.id != node.order.resting.id);
        assert(nb.slot_of@[m] == (s2, p2, j));
        assert(nb.queues(s2)[p2] == o.queues(s2)[p2]);
        assert(nb.queues(s2).contains_key(p2));
    }

    proof fn lemma_remove_resting_ok_same_level(o: Book, nb: Book, n: usize, m: usize)
        requires
            o.wf(),
            o.nodes().contains_key(n),
            Self::removal_step(o, nb, n),
            nb.nodes().contains_key(m),
            o.slot_of@[m].0 == o.slot_of@[n].0,
            o.slot_of@[m].1 == o.slot_of@[n].1,
        ensures
            nb.node_ok(m),
    {
        let (s, p, i) = o.slot_of@[n];
        let q = o.queues(s)[p];
        let len = q.len();
        let node = o.nodes()[n];
        Self::lemma_remove_keeps_orders(o, nb, n);
        assert(o.node_ok(n));
        assert(o.node_ok(m));
        let j = o.slot_of@[m].2;
        assert(o.locations@[o.nodes()[m].order.resting.id] == NodeId(m));
        assert(o.nodes()[m].order.resting.id != node.order.resting.id);
        assert(j != i);
        assert(len > 1);
        let nq = q.remove(i);
        assert(nb.queues(s)[p] == nq);
        if j < i {
            assert(nb.slot_of@[m] == (s, p, j));
            assert(nq[j] == q[j]);
            if j > 0 {
                assert(nq[j - 1] == q[j - 1]);
            }
            if j == i - 1 {
                assert(m == q[i - 1]);
                assert(nb.nodes()[m].next == node.next);
                if i < len - 1 {
                    assert(nq[j + 1] == q[i + 1]);
                }
            } else {
                assert(o.level_ok(s, p));
                assert(o.slot_of@[q[i - 1]] == (s, p, i - 1));
                if i < len - 1 {
                    assert(o.slot_of@[q[i + 1]] == (s, p, i + 1));
                }
                assert(nb.nodes()[m] == o.nodes()[m]);
                assert(nq[j + 1] == q[j + 1]);
            }
        } else {
            assert(nb.slot_of@[m] == (s, p, j - 1));
            assert(nq[j - 1] == q[j]);
            if j < len - 1 {
                assert(nq[j] == q[j + 1]);
            }
            if j == i + 1 {
                assert(m == q[i + 1]);
                assert(nb.nodes()[m].prev == node.prev);
                if i > 0 {
                    assert(nq[i - 1] == q[i - 1]);
                }
            } else {
                assert(o.level_ok(s, p));
                if i > 0 {
                    assert(o.slot_of@[q[i - 1]] == (s, p, i - 1));
                }
                assert(o.slot_of@[q[i + 1]] == (s, p, i + 1));
                assert(nb.nodes()[m] == o.nodes()[m]);
                assert(nq[j - 2] == q[j - 1]);
            }
        }
    }
}


impl Book {
    /// Lowers the open quantity of live node `id` by `qty`, which leaves some open,
    /// and its level's aggregate with it.
    fn reduce_open(&mut self, id: NodeId, qty: Quantity)
        requires
            old(self).wf(),
            old(self).nodes().contains_key(id.0),
            0 < qty < old(self).nodes()[id.0].order.resting.open_qty,
        ensures
            final(self).wf(),
            ({
                let (s, p, i) = old(self).slot_of@[id.0];
                let levels = old(self)@.levels(s);
                let order = levels[p][i];
                final(self)@ == old(self)@.with_levels(
                    s,
                    levels.insert(
                        p,
                        levels[p].update(
                            i,
                            super::model::with_open(order, (order.resting.open_qty - qty) as Quantity),
                        ),
                    ),
                )
            }),
            final(self).locations@ == old(self).locations@,
    {
        let ghost o = *self;
        let ghost n = id.0;
        let ghost s = self.slot_of@[n].0;
        let ghost p = self.slot_of@[n].1;
        let ghost i = self.slot_of@[n].2;
        let ghost q = self.queues(s)[p];
        proof {
            assert(self.node_ok(n));
            assert(self.side_ok(s));
            assert(self.level_ok(s, p));
        }
        let mut node = self.node_at(id);
        let side = node.order.side;
        let price = node.price;
        let level = match self.level_at(side, price) {
            Some(level) => level,
            None => {
                proof {
                    assert(false);
                }
                vstd::pervasive::unreached()
            },
        };
        let ghost new_order = super::model::with_open(node.order, (node.order.resting.open_qty - qty) as Quantity);
        proof {
            assert(o.orders_of(q)[i] == node.order);
            super::model::lemma_open_total_update(o.orders_of(q), i, new_order);
            super::model::lemma_open_total_nonneg(o.orders_of(q).update(i, new_order));
        }
        node.order.resting.open_qty = node.order.resting.open_qty - qty;
        assert(node.order == new_order);
        self.set_node(id, node);
        self.put_level(side, price, PriceLevel { quantity: level.quantity - qty, ..level });
        proof {
            Self::lemma_reduce_open(o, *self, n, new_order);
        }
    }

    proof fn lemma_reduce_open(o: Book, nb: Book, n: usize, new_order: Order)
        requires
            o.wf(),
            o.nodes().contains_key(n),
            ({
                let (s, p, i) = o.slot_of@[n];
                let q = o.queues(s)[p];
                let old_order = o.nodes()[n].order;
                let lv = o.level_records(s)[p];
                let opp = crate::domain::order::opposite(s);
                &&& new_order == Order { resting: crate::domain::RestingOrder { open_qty: new_order.resting.open_qty, ..old_order.resting }, ..old_order }
                &&& 0 < new_order.resting.open_qty
                &&& nb.arena.wf()
                &&& nb.arena.capacity_spec() == o.arena.capacity_spec()
                &&& nb.arena.live() == o.arena.live()
                &&& nb.nodes() == o.nodes().insert(n, OrderNode { order: new_order, ..o.nodes()[n] })
                &&& nb.bid_queues == o.bid_queues
                &&& nb.ask_queues == o.ask_queues
                &&& nb.slot_of == o.slot_of
                &&& nb.locations@ == o.locations@
                &&& nb.level_records(opp) == o.level_records(opp)
                &&& nb.level_records(s) == o.level_records(s).insert(p, PriceLevel {
                    quantity: super::model::open_total(o.orders_of(q).update(i, new_order)) as Quantity,
                    ..lv
                })
                &&& super::model::open_total(o.orders_of(q).update(i, new_order)) <= u64::MAX
                &&& super::model::open_total(o.orders_of(q).update(i, new_order)) >= 0
            }),
        ensures
            nb.wf(),
            ({
                let (s, p, i) = o.slot_of@[n];
                let levels = o@.levels(s);
                nb@ == o@.with_levels(s, levels.insert(p, levels[p].update(i, new_order)))
            }),
    {
        let (s, p, i) = o.slot_of@[n];
        let q = o.queues(s)[p];
        let opp = crate::domain::order::opposite(s);
        assert(o.node_ok(n));
        assert(o.side_ok(s));
        assert(o.side_ok(opp));
        assert(nb.queues(s) == o.queues(s));
        assert(nb.queues(opp) == o.queues(opp));
        assert forall|side: OrderSide, p2: Price|
            #[trigger] o.queues(side).contains_key(p2) && (side != s || p2 != p) implies nb.orders_of(
            o.queues(side)[p2],
        ) == o.orders_of(o.queues(side)[p2]) by {
            assert(o.level_ok(side, p2));
            let q2 = o.queues(side)[p2];
            assert forall|j: int| 0 <= j < q2.len() implies nb.nodes()[#[trigger] q2[j]].order
                == o.nodes()[q2[j]].order by {
                assert(o.slot_of@[q2[j]] == (side, p2, j));
            }
            Self::lemma_orders_of_same(&o, &nb, q2);
        }
        assert(nb.orders_of(q) =~= o.orders_of(q).update(i, new_order)) by {
            assert(o.level_ok(s, p));
            assert forall|j: int| 0 <= j < q.len() implies nb.orders_of(q)[j] == o.orders_of(
                q,
            ).update(i, new_order)[j] by {
                assert(o.slot_of@[q[j]] == (s, p, j));
            }
        }
        assert(nb.side_ok(s)) by {
            assert(nb.level_records(s).dom() =~= nb.queues(s).dom());
            assert forall|p2: Price| #[trigger] nb.queues(s).contains_key(p2) implies nb.level_ok(
                s,
                p2,
            ) by {
                assert(o.level_ok(s, p2));
                assert(o.queues(s).contains_key(p2));
                if p2 != p {
                    assert(nb.orders_of(o.queues(s)[p2]) == o.orders_of(o.queues(s)[p2]));
                } else {
                    assert(nb.level_records(s)[p].quantity == super::model::open_total(nb.orders_of(q)));
                }
            }
        }
        assert(nb.side_ok(opp)) by {
            assert forall|p2: Price| #[trigger] nb.queues(opp).contains_key(p2) implies nb.level_ok(
                opp,
                p2,
            ) by {
                assert(o.level_ok(opp, p2));
            }
        }
        assert(nb.nodes_ok()) by {
            assert forall|m: usize| #[trigger] nb.nodes().contains_key(m) implies nb.node_ok(m) by {
                assert(o.node_ok(m));
            }
        }
        assert(nb.locations_ok()) by {
            assert forall|id: OrderId| #[trigger] nb.locations@.contains_key(id) implies nb.nodes().contains_key(
                nb.locations@[id].0,
            ) && nb.nodes()[nb.locations@[id].0].order.resting.id == id by {
                assert(o.locations@.contains_key(id));
            }
        }
        assert(nb.uncrossed()) by {
            assert forall|b: Price, a: Price|
                nb.bids@.contains_key(b) && nb.asks@.contains_key(a) implies b < a by {
                assert(nb.level_records(OrderSide::Buy).contains_key(b));
                assert(o.level_records(OrderSide::Buy).contains_key(b));
                assert(nb.level_records(OrderSide::Sell).contains_key(a));
                assert(o.level_records(OrderSide::Sell).contains_key(a));
            }
        }
        let target = o@.with_levels(s, o@.levels(s).insert(p, o@.levels(s)[p].update(i, new_order)));
        assert(nb.side_view(opp) =~= o.side_view(opp));
        assert(nb.side_view(s) =~= o.side_view(s).insert(p, o.orders_of(q).update(i, new_order)));
        match s {
            OrderSide::Buy => {
                assert(nb@.bids == target.bids);
                assert(nb@.asks == target.asks);
            },
            OrderSide::Sell => {
                assert(nb@.bids == target.bids);
                assert(nb@.asks == target.asks);
            },
        }
    }
}


impl Book {
    /// A level never holds more orders than the book.
    proof fn lemma_level_len_bound(&self, side: OrderSide, p: Price)
        requires
            self.wf(),
            self.queues(side).contains_key(p),
        ensures
            self.queues(side)[p].len() <= self.arena.live(),
    {
        let q = self.queues(side)[p];
        assert(self.side_ok(side));
        assert(self.level_ok(side, p));
        assert(q.no_duplicates()) by {
            assert forall|a: int, b: int| 0 <= a < q.len() && 0 <= b < q.len() && a != b implies q[a]
                != q[b] by {
                assert(self.slot_of@[q[a]] == (side, p, a));
                assert(self.slot_of@[q[b]] == (side, p, b));
            }
        }
        q.unique_seq_to_set();
        self.arena.lemma_live_counts_items();
        assert(q.to_set().subset_of(self.nodes().dom()));
        vstd::set_lib::lemma_len_subset(q.to_set(), self.nodes().dom());
    }

    /// `nb` is `o` after resting `order` in the fresh node `n` at the back of its level.
    closed spec fn resting_step(o: Book, nb: Book, n: usize, order: Order) -> bool {
        let s = order.side;
        let p = order.limit_price->0;
        let opp = crate::domain::order::opposite(s);
        let exists = o.queues(s).contains_key(p);
        let q = if exists {
            o.queues(s)[p]
        } else {
            Seq::<usize>::empty()
        };
        let lv = o.level_records(s)[p];
        let with_tail = if exists {
            o.nodes().insert(q[q.len() - 1], OrderNode { next: Some(NodeId(n)), ..o.nodes()[q[q.len() - 1]] })
        } else {
            o.nodes()
        };
        let node = OrderNode {
            order,
            price: p,
            prev: if exists {
                Some(NodeId(q[q.len() - 1]))
            } else {
                None
            },
            next: None,
        };
        let total = super::model::open_total(o.orders_of(q)) + order.resting.open_qty;
        &&& !o.nodes().contains_key(n)
        &&& nb.arena.wf()
        &&& nb.arena.capacity_spec() == o.arena.capacity_spec()
        &&& nb.arena.live() == o.arena.live() + 1
        &&& nb.nodes() == with_tail.insert(n, node)
        &&& nb.queues(opp) == o.queues(opp)
        &&& nb.level_records(opp) == o.level_records(opp)
        &&& nb.queues(s) == o.queues(s).insert(p, q.push(n))
        &&& 0 <= total <= u64::MAX
        &&& q.len() < usize::MAX
        &&& nb.level_records(s) == o.level_records(s).insert(
            p,
            PriceLevel {
                quantity: total as Quantity,
                head: if exists {
                    lv.head
                } else {
                    Some(NodeId(n))
                },
                tail: Some(NodeId(n)),
                count: (q.len() + 1) as usize,
            },
        )
        &&& nb.locations@ == o.locations@.insert(order.resting.id, NodeId(n))
        &&& nb.slot_of@ == o.slot_of@.insert(n, (s, p, q.len() as int))
    }

    /// What `rest` establishes before its proof.
    closed spec fn rest_pre(o: Book, nb: Book, n: usize, order: Order) -> bool {
        &&& o.wf()
        &&& Self::resting_step(o, nb, n, order)
        &&& order.kind == OrderKind::Limit
        &&& order.limit_price is Some
        &&& order.resting.open_qty > 0
        &&& !o.locations@.contains_key(order.resting.id)
        &&& forall|q: Price| #[trigger]
            o.level_records(crate::domain::order::opposite(order.side)).contains_key(q)
                ==> !order.crosses_spec(q)
    }

    proof fn lemma_rest_keeps(o: Book, nb: Book, n: usize, order: Order)
        requires
            Self::rest_pre(o, nb, n, order),
        ensures
            forall|m: usize| #[trigger]
                o.nodes().contains_key(m) ==> nb.nodes().contains_key(m) && m != n
                    && nb.nodes()[m].order == o.nodes()[m].order && nb.nodes()[m].price
                    == o.nodes()[m].price && nb.nodes()[m].prev == o.nodes()[m].prev,
            forall|side: OrderSide, p2: Price|
                #[trigger] o.queues(side).contains_key(p2) ==> nb.orders_of(o.queues(side)[p2])
                    == o.orders_of(o.queues(side)[p2]),
    {
        assert forall|side: OrderSide, p2: Price|
            #[trigger] o.queues(side).contains_key(p2) implies nb.orders_of(o.queues(side)[p2])
            == o.orders_of(o.queues(side)[p2]) by {
            assert(o.side_ok(side));
            assert(o.level_ok(side, p2));
            let q2 = o.queues(side)[p2];
            assert forall|j: int| 0 <= j < q2.len() implies nb.nodes()[#[trigger] q2[j]].order
                == o.nodes()[q2[j]].order by {
                assert(o.nodes().contains_key(q2[j]));
            }
            Self::lemma_orders_of_same(&o, &nb, q2);
        }
    }

    proof fn lemma_rest_new_queue(o: Book, nb: Book, n: usize, order: Order)
        requires
            Self::rest_pre(o, nb, n, order),
        ensures
            ({
                let s = order.side;
                let p = order.limit_price->0;
                let q = if o.queues(s).contains_key(p) {
                    o.queues(s)[p]
                } else {
                    Seq::<usize>::empty()
                };
                nb.orders_of(q.push(n)) == o.orders_of(q).push(order)
            }),
    {
        let s = order.side;
        let p = order.limit_price->0;
        let exists = o.queues(s).contains_key(p);
        let q = if exists {
            o.queues(s)[p]
        } else {
            Seq::<usize>::empty()
        };
        let nq = q.push(n);
        assert(o.side_ok(s));
        if exists {
            assert(o.level_ok(s, p));
        }
        assert forall|j: int| 0 <= j < q.len() implies o.nodes().contains_key(#[trigger] q[j]) by {
        }
        assert(nb.orders_of(nq) =~= o.orders_of(q).push(order));
    }

    proof fn lemma_rest_other_side(o: Book, nb: Book, n: usize, order: Order)
        requires
            Self::rest_pre(o, nb, n, order),
        ensures
            nb.side_ok(crate::domain::order::opposite(order.side)),
    {
        let opp = crate::domain::order::opposite(order.side);
        Self::lemma_rest_keeps(o, nb, n, order);
        assert(o.side_ok(opp));
        assert forall|p2: Price| #[trigger] nb.queues(opp).contains_key(p2) implies nb.level_ok(
            opp,
            p2,
        ) by {
            assert(o.level_ok(opp, p2));
            let q2 = o.queues(opp)[p2];
            assert forall|j: int| 0 <= j < q2.len() implies nb.nodes().contains_key(
                #[trigger] q2[j],
            ) && nb.slot_of@.contains_key(q2[j]) && nb.slot_of@[q2[j]] == (opp, p2, j) by {
                assert(o.nodes().contains_key(q2[j]));
            }
        }
    }

    proof fn lemma_rest_same_side(o: Book, nb: Book, n: usize, order: Order)
        requires
            Self::rest_pre(o, nb, n, order),
        ensures
            nb.side_ok(order.side),
    {
        let s = order.side;
        let p = order.limit_price->0;
        assert(o.side_ok(s));
        assert(nb.level_records(s).dom() =~= nb.queues(s).dom());
        assert forall|p2: Price| #[trigger] nb.queues(s).contains_key(p2) implies nb.level_ok(s, p2) by {
            if p2 != p {
                Self::lemma_rest_untouched_level(o, nb, n, order, p2);
            } else {
                Self::lemma_rest_grown_level(o, nb, n, order);
            }
        }
    }

    proof fn lemma_rest_untouched_level(o: Book, nb: Book, n: usize, order: Order, p2: Price)
        requires
            Self::rest_pre(o, nb, n, order),
            p2 != order.limit_price->0,
            nb.queues(order.side).contains_key(p2),
        ensures
            nb.level_ok(order.side, p2),
    {
        let s = order.side;
        Self::lemma_rest_keeps(o, nb, n, order);
        assert(o.side_ok(s));
        assert(o.queues(s).contains_key(p2));
        assert(o.level_ok(s, p2));
        let q2 = o.queues(s)[p2];
        assert forall|j: int| 0 <= j < q2.len() implies nb.nodes().contains_key(#[trigger] q2[j])
            && nb.slot_of@.contains_key(q2[j]) && nb.slot_of@[q2[j]] == (s, p2, j) by {
            assert(o.nodes().contains_key(q2[j]));
        }
    }

    proof fn lemma_rest_grown_level(o: Book, nb: Book, n: usize, order: Order)
        requires
            Self::rest_pre(o, nb, n, order),
        ensures
            nb.level_ok(order.side, order.limit_price->0),
    {
        let s = order.side;
        let p = order.limit_price->0;
        if o.queues(s).contains_key(p) {
            Self::lemma_rest_grown_existing(o, nb, n, order);
        } else {
            Self::lemma_rest_grown_fresh(o, nb, n, order);
        }
    }

    proof fn lemma_rest_grown_existing(o: Book, nb: Book, n: usize, order: Order)
        requires
            Self::rest_pre(o, nb, n, order),
            o.queues(order.side).contains_key(order.limit_price->0),
        ensures
            nb.level_ok(order.side, order.limit_price->0),
    {
        let s = order.side;
        let p = order.limit_price->0;
        let q = o.queues(s)[p];
        let nq = q.push(n);
        Self::lemma_rest_new_queue(o, nb, n, order);
        assert(o.side_ok(s));
        assert(o.level_ok(s, p));
        super::model::lemma_open_total_push(o.orders_of(q), order);
        assert(nb.queues(s)[p] == nq);
        assert forall|j: int| 0 <= j < nq.len() implies nb.nodes().contains_key(#[trigger] nq[j])
            && nb.slot_of@.contains_key(nq[j]) && nb.slot_of@[nq[j]] == (s, p, j) by {
            if j < q.len() {
                assert(nq[j] == q[j]);
                assert(o.nodes().contains_key(q[j]));
            }
        }
        assert(nq[0] == q[0]);
        assert(nq[nq.len() - 1] == n);
    }

    proof fn lemma_rest_grown_fresh(o: Book, nb: Book, n: usize, order: Order)
        requires
            Self::rest_pre(o, nb, n, order),
            !o.queues(order.side).contains_key(order.limit_price->0),
        ensures
            nb.level_ok(order.side, order.limit_price->0),
    {
        let s = order.side;
        let p = order.limit_price->0;
        let q = Seq::<usize>::empty();
        let nq = q.push(n);
        Self::lemma_rest_new_queue(o, nb, n, order);
        super::model::lemma_open_total_push(o.orders_of(q), order);
        assert(o.orders_of(q) =~= Seq::<Order>::empty());
        assert(nb.queues(s)[p] == nq);
        assert(nq[0] == n);
    }

    proof fn lemma_rest_nodes_ok(o: Book, nb: Book, n: usize, order: Order)
        requires
            Self::rest_pre(o, nb, n, order),
        ensures
            nb.nodes_ok(),
    {
        let s = order.side;
        let p = order.limit_price->0;
        let exists = o.queues(s).contains_key(p);
        let q = if exists {
            o.queues(s)[p]
        } else {
            Seq::<usize>::empty()
        };
        let nq = q.push(n);
        Self::lemma_rest_keeps(o, nb, n, order);
        assert(o.side_ok(s));
        if exists {
            assert(o.level_ok(s, p));
            assert(o.node_ok(q[q.len() - 1]));
        }
        assert forall|m: usize| #[trigger] nb.nodes().contains_key(m) implies nb.node_ok(m) by {
            if m == n {
                if exists {
                    assert(nq[q.len() - 1] == q[q.len() - 1]);
                }
            } else {
                assert(o.nodes().contains_key(m));
                assert(o.node_ok(m));
                let (s2, p2, j) = o.slot_of@[m];
                assert(o.locations@[o.nodes()[m].order.resting.id] == NodeId(m));
                if s2 == s && p2 == p {
                    assert(nq[j] == q[j]);
                    if j > 0 {
                        assert(nq[j - 1] == q[j - 1]);
                    }
                    if j < q.len() - 1 {
                        assert(nq[j + 1] == q[j + 1]);
                        assert(m != q[q.len() - 1]);
                    } else {
                        assert(m == q[q.len() - 1]);
                    }
                } else if exists {
                    assert(o.slot_of@[q[q.len() - 1]] == (s, p, q.len() - 1));
                    assert(m != q[q.len() - 1]);
                }
            }
        }
    }

    proof fn lemma_rest_wf(o: Book, nb: Book, n: usize, order: Order)
        requires
            Self::rest_pre(o, nb, n, order),
        ensures
            nb.wf(),
            ({
                let s = order.side;
                let p = order.limit_price->0;
                let levels = o@.levels(s);
                let queue = if levels.contains_key(p) {
                    levels[p].push(order)
                } else {
                    seq![order]
                };
                nb@ == BookModel { live: o@.live + 1, ..o@.with_levels(s, levels.insert(p, queue)) }
            }),
    {
        let s = order.side;
        let p = order.limit_price->0;
        let opp = crate::domain::order::opposite(s);
        let exists = o.queues(s).contains_key(p);
        let q = if exists {
            o.queues(s)[p]
        } else {
            Seq::<usize>::empty()
        };
        Self::lemma_rest_keeps(o, nb, n, order);
        Self::lemma_rest_new_queue(o, nb, n, order);
        Self::lemma_rest_other_side(o, nb, n, order);
        Self::lemma_rest_same_side(o, nb, n, order);
        Self::lemma_rest_nodes_ok(o, nb, n, order);
        assert(o.side_ok(s));
        assert(o.side_ok(opp));
        assert(nb.locations_ok()) by {
            assert forall|id: OrderId| #[trigger] nb.locations@.contains_key(id) implies nb.nodes().contains_key(
                nb.locations@[id].0,
            ) && nb.nodes()[nb.locations@[id].0].order.resting.id == id by {
                if id != order.resting.id {
                    assert(o.locations@.contains_key(id));
                }
            }
        }
        assert(nb.uncrossed()) by {
            assert forall|b: Price, a: Price|
                nb.bids@.contains_key(b) && nb.asks@.contains_key(a) implies b < a by {
                assert(nb.level_records(OrderSide::Buy).contains_key(b));
                assert(nb.level_records(OrderSide::Sell).contains_key(a));
                if s == OrderSide::Buy && b == p {
                    assert(o.level_records(OrderSide::Sell).contains_key(a));
                } else if s == OrderSide::Sell && a == p {
                    assert(o.level_records(OrderSide::Buy).contains_key(b));
                } else {
                    assert(o.level_records(OrderSide::Buy).contains_key(b));
                    assert(o.level_records(OrderSide::Sell).contains_key(a));
                }
            }
        }
        let levels = o@.levels(s);
        let queue = if levels.contains_key(p) {
            levels[p].push(order)
        } else {
            seq![order]
        };
        if !exists {
            assert(seq![order] =~= Seq::<Order>::empty().push(order));
            assert(o.orders_of(q) =~= Seq::<Order>::empty());
        }
        let target = BookModel { live: o@.live + 1, ..o@.with_levels(s, levels.insert(p, queue)) };
        assert(nb.side_view(opp) =~= o.side_view(opp));
        assert(nb.side_view(s) =~= o.side_view(s).insert(p, queue));
        match s {
            OrderSide::Buy => {
                assert(nb@.bids == target.bids);
                assert(nb@.asks == target.asks);
            },
            OrderSide::Sell => {
                assert(nb@.bids == target.bids);
                assert(nb@.asks == target.asks);
            },
        }
    }
}


impl Book {
    /// Rests the limit order `order` at the back of its price level, or refuses with
    /// `QuantityOverflow` when the level's aggregate would overflow, or with `Full`
    /// when the book is full. A refusal changes nothing.
    fn rest(&mut self, order: Order) -> (r: Result<(), BookError>)
        requires
            old(self).wf(),
            order.kind == OrderKind::Limit,
            order.limit_price is Some,
            order.resting.open_qty > 0,
            !old(self).locations@.contains_key(order.resting.id),
            forall|q: Price| #[trigger]
                old(self).level_records(crate::domain::order::opposite(order.side)).contains_key(q)
                    ==> !order.crosses_spec(q),
        ensures
            final(self).wf(),
            match old(self)@.rest(order) {
                Ok(book) => r is Ok && final(self)@ == book,
                Err(e) => r == Err::<(), BookError>(e) && final(self)@ == old(self)@,
            },
            r is Err ==> *final(self) == *old(self),
    {
        let ghost o = *self;
        let price = match order.limit_price {
            Some(p) => p,
            None => {
                proof {
                    assert(false);
                }
                vstd::pervasive::unreached()
            },
        };
        let side = order.side;
        let existing = self.level_at(side, price);
        let ghost exists = o.queues(side).contains_key(price);
        let ghost q = if exists {
            o.queues(side)[price]
        } else {
            Seq::<usize>::empty()
        };
        proof {
            assert(o.side_ok(side));
            o.lemma_view_levels(side, price);
            if exists {
                assert(o.level_ok(side, price));
                o.lemma_level_len_bound(side, price);
            }
        }
        let (tail, count, quantity) = match existing {
            Some(level) => (level.tail, level.count, level.quantity),
            None => (None, 0, 0),
        };
        proof {
            assert(quantity == (if o@.levels(side).contains_key(price) {
                super::model::open_total(o@.levels(side)[price])
            } else {
                0
            }));
            assert(count == q.len());
        }
        let next_quantity = match quantity.checked_add(order.resting.open_qty) {
            Some(v) => v,
            None => {
                return Err(BookError::QuantityOverflow);
            },
        };
        let node = OrderNode { order, price, prev: tail, next: None };
        let id = match self.arena.allocate(node) {
            Ok(id) => id,
            Err(_) => {
                proof {
                    Self::lemma_same_view(o, *self);
                }
                return Err(BookError::Full);
            },
        };
        proof {
            assert(o.arena.live() < o.arena.capacity_spec());
            o.arena.lemma_live_counts_items();
            assert(count < usize::MAX);
            assert(!o.nodes().contains_key(id.0));
            if exists {
                assert(o.node_ok(q[q.len() - 1]));
            }
        }
        match tail {
            Some(t) => {
                let mut tail_node = self.node_at(t);
                tail_node.next = Some(id);
                self.set_node(t, tail_node);
            },
            None => {},
        }
        let head = match existing {
            Some(level) => level.head,
            None => Some(id),
        };
        self.put_level(side, price, PriceLevel { quantity: next_quantity, head, tail: Some(id), count: count + 1 });
        self.locations.insert(order.resting.id, id);
        proof {
            match side {
                OrderSide::Buy => {
                    self.bid_queues = Ghost(o.bid_queues@.insert(price, q.push(id.0)));
                },
                OrderSide::Sell => {
                    self.ask_queues = Ghost(o.ask_queues@.insert(price, q.push(id.0)));
                },
            }
            self.slot_of = Ghost(o.slot_of@.insert(id.0, (side, price, q.len() as int)));
            let with_tail = if exists {
                o.nodes().insert(q[q.len() - 1], OrderNode { next: Some(id), ..o.nodes()[q[q.len() - 1]] })
            } else {
                o.nodes()
            };
            assert(self.nodes() =~= with_tail.insert(id.0, node));
            Self::lemma_rest_wf(o, *self, id.0, order);
        }
        Ok(())
    }
}


impl Book {
    /// Books with the same nodes, queues and counts have the same model.
    proof fn lemma_same_view(a: Book, b: Book)
        requires
            a.nodes() == b.nodes(),
            a.bid_queues == b.bid_queues,
            a.ask_queues == b.ask_queues,
            a.arena.live() == b.arena.live(),
            a.arena.capacity_spec() == b.arena.capacity_spec(),
        ensures
            a@ == b@,
    {
        assert forall|q: Seq<usize>| #[trigger] a.orders_of(q) == b.orders_of(q) by {
            assert(a.orders_of(q) =~= b.orders_of(q));
        }
        assert(a.side_view(OrderSide::Buy) =~= b.side_view(OrderSide::Buy));
        assert(a.side_view(OrderSide::Sell) =~= b.side_view(OrderSide::Sell));
    }
}


/// A single planned trade between the incoming taker and a resting maker, computed by
/// `Book::plan` against a read-only view of the book.
#[derive(Debug, Clone, Copy)]
struct PlannedFill {
    maker_node_id: NodeId,
    price: Price,
    quantity: Quantity,
}

impl Book {
    /// In a well-formed book an order id rests exactly when `locations` knows it, and
    /// then it rests at the one position its node records.
    proof fn lemma_locations_match_orders(&self, id: OrderId)
        requires
            self.wf(),
        ensures
            self@.has_order(id) == self.locations@.contains_key(id),
            self.locations@.contains_key(id) ==> ({
                let n = self.locations@[id].0;
                let (s, p, i) = self.slot_of@[n];
                &&& self.nodes().contains_key(n)
                &&& self@.position_of(id) == (s, p, i)
                &&& self@.holds_at(s, p, i, id)
                &&& self@.levels(s)[p][i] == self.nodes()[n].order
            }),
    {
        if self.locations@.contains_key(id) {
            let n = self.locations@[id].0;
            assert(self.nodes().contains_key(n));
            assert(self.node_ok(n));
            let (s, p, i) = self.slot_of@[n];
            self.lemma_view_levels(s, p);
            assert(self@.holds_at(s, p, i, id));
            let (s2, p2, i2) = self@.position_of(id);
            assert(self@.holds_at(s2, p2, i2, id));
            self.lemma_view_levels(s2, p2);
            assert(self.side_ok(s2));
            assert(self.level_ok(s2, p2));
            let n2 = self.queues(s2)[p2][i2];
            assert(self.node_ok(n2));
            assert(self.slot_of@[n2] == (s2, p2, i2));
        }
        if self@.has_order(id) {
            let (s, p, i) = choose|s: OrderSide, p: Price, i: int| self@.holds_at(s, p, i, id);
            self.lemma_view_levels(s, p);
            assert(self.side_ok(s));
            assert(self.level_ok(s, p));
            let n = self.queues(s)[p][i];
            assert(self.node_ok(n));
        }
    }

    /// The next fill for `taker` without changing anything: the oldest order at the
    /// other side's best price, if the taker accepts that price.
    fn plan(&self, taker: &Order) -> (r: Option<PlannedFill>)
        requires
            self.wf(),
            taker.resting.open_qty > 0,
        ensures
            r is None == !self@.can_fill(*taker),
            r is None ==> {
                let side = crate::domain::order::opposite(taker.side);
                let levels = self@.levels(side);
                super::model::has_levels(levels) ==> super::model::is_best_price(
                    levels,
                    side,
                    super::model::best_price(levels, side),
                )
            },
            r matches Some(f) ==> {
                let side = crate::domain::order::opposite(taker.side);
                let levels = self@.levels(side);
                let p = super::model::best_price(levels, side);
                let maker = levels[p][0];
                &&& f.price == p
                &&& self.queues(side).contains_key(p)
                &&& self.nodes().contains_key(f.maker_node_id.0)
                &&& self.slot_of@[f.maker_node_id.0] == (side, p, 0int)
                &&& self.nodes()[f.maker_node_id.0].order == maker
                &&& f.quantity == (if taker.resting.open_qty <= maker.resting.open_qty {
                    taker.resting.open_qty
                } else {
                    maker.resting.open_qty
                })
            },
    {
        let side = opposite_side(taker.side);
        let ghost levels = self@.levels(side);
        let best = match taker.side {
            OrderSide::Buy => first_level(&self.asks),
            OrderSide::Sell => last_level(&self.bids),
        };
        match best {
            None => {
                proof {
                    if super::model::has_levels(levels) {
                        let p = choose|p: Price| levels.contains_key(p);
                        self.lemma_view_levels(side, p);
                    }
                }
                None
            },
            Some((price, level)) => {
                proof {
                    self.lemma_view_levels(side, price);
                    assert forall|q: Price| #[trigger] levels.contains_key(q) implies !super::model::better(
                        side,
                        q,
                        price,
                    ) by {
                        self.lemma_view_levels(side, q);
                    }
                    assert(super::model::is_best_price(levels, side, price));
                    super::model::lemma_best_price_unique(levels, side, price);
                }
                let accepts = match taker.kind {
                    OrderKind::Market => true,
                    OrderKind::Limit => taker.crosses(price),
                };
                if !accepts {
                    return None;
                }
                proof {
                    assert(self.side_ok(side));
                    assert(self.level_ok(side, price));
                    let q = self.queues(side)[price];
                    assert(self.nodes().contains_key(q[0]));
                    assert(self.slot_of@[q[0]] == (side, price, 0int));
                }
                let maker_node_id = match level.head {
                    Some(head) => head,
                    None => {
                        proof {
                            assert(false);
                        }
                        vstd::pervasive::unreached()
                    },
                };
                let maker = self.node_at(maker_node_id);
                let quantity = if taker.resting.open_qty <= maker.order.resting.open_qty {
                    taker.resting.open_qty
                } else {
                    maker.order.resting.open_qty
                };
                Some(PlannedFill { maker_node_id, price, quantity })
            },
        }
    }

    /// Applies exactly one planned fill: the trade at the maker's price, the taker's
    /// open quantity lowered, and the maker lowered or, when filled, taken off the book.
    fn apply(&mut self, taker: &mut Order, fill: PlannedFill, sequence: Sequence) -> (trade: Trade)
        requires
            old(self).wf(),
            old(self)@.can_fill(*old(taker)),
            ({
                let side = crate::domain::order::opposite(old(taker).side);
                let levels = old(self)@.levels(side);
                let p = super::model::best_price(levels, side);
                let maker = levels[p][0];
                &&& fill.price == p
                &&& old(self).queues(side).contains_key(p)
                &&& old(self).nodes().contains_key(fill.maker_node_id.0)
                &&& old(self).slot_of@[fill.maker_node_id.0] == (side, p, 0int)
                &&& old(self).nodes()[fill.maker_node_id.0].order == maker
                &&& fill.quantity == (if old(taker).resting.open_qty <= maker.resting.open_qty {
                    old(taker).resting.open_qty
                } else {
                    maker.resting.open_qty
                })
            }),
        ensures
            final(self).wf(),
            (final(self)@, *final(taker), trade) == old(self)@.match_step(*old(taker), sequence),
            forall|id: OrderId| #[trigger]
                final(self).locations@.contains_key(id) ==> old(self).locations@.contains_key(id),
    {
        let ghost o = *self;
        let maker = self.node_at(fill.maker_node_id);
        proof {
            assert(o.node_ok(fill.maker_node_id.0));
        }
        let trade = Trade {
            sequence,
            maker_order_id: maker.order.resting.id,
            taker_order_id: taker.resting.id,
            maker_id: maker.order.resting.user_id,
            taker_id: taker.resting.user_id,
            taker_side: taker.side,
            quantity: fill.quantity,
            price: fill.price,
        };
        taker.resting.open_qty = taker.resting.open_qty - fill.quantity;
        if fill.quantity == maker.order.resting.open_qty {
            self.remove_resting(fill.maker_node_id);
        } else {
            self.reduce_open(fill.maker_node_id, fill.quantity);
        }
        trade
    }
}


/// The answer of a submit with its report read as a [`ReportView`].
pub open spec fn submit_answer(r: Result<ExecutionReport, BookError>) -> Result<ReportView, BookError> {
    match r {
        Ok(report) => Ok(report@),
        Err(e) => Err(e),
    }
}

/// What cancelling `order_id` does to `book`: the book afterwards and the answer.
pub open spec fn cancel_result(book: BookModel, order_id: OrderId) -> (BookModel, Result<
    CancelReport,
    BookError,
>) {
    if book.has_order(order_id) {
        let (s, p, i) = book.position_of(order_id);
        (
            book.remove_at(s, p, i),
            Ok(
                CancelReport {
                    order_id,
                    canceled_quantity: book.levels(s)[p][i].resting.open_qty,
                },
            ),
        )
    } else {
        (book, Err(BookError::OrderNotFound(order_id)))
    }
}

impl Book {
    /// Matches an order and rests any eligible unfilled limit remainder.
    ///
    /// Each iteration of the matching loop computes one read-only fill plan and applies
    /// only that fill. An eligible limit remainder is rested after matching stops.
    /// The result and the book afterwards are exactly those of [`BookModel::submit`].
    pub fn submit(&mut self, order: Order, sequence: Sequence) -> (r: Result<ExecutionReport, BookError>)
        requires
            old(self).wf(),
        ensures
            final(self).wf(),
            final(self)@ == old(self)@.submit(order, sequence).0,
            submit_answer(r) == old(self)@.submit(order, sequence).1,
    {
        match order.validate() {
            Err(e) => {
                return Err(BookError::InvalidOrder(e));
            },
            Ok(()) => {},
        }
        proof {
            self.lemma_locations_match_orders(order.resting.id);
        }
        if self.locations.contains_key(&order.resting.id) {
            return Err(BookError::DuplicateOrder(order.resting.id));
        }
        let ghost m0 = self@;
        let mut taker = order;
        let mut trades: Vec<Trade> = Vec::new();
        loop
            invariant
                self.wf(),
                m0.match_orders(order, sequence) == ({
                    let (b, t, ts) = self@.match_orders(taker, sequence);
                    (b, t, trades@ + ts)
                }),
                !self.locations@.contains_key(order.resting.id),
                taker.resting.id == order.resting.id,
                taker.kind == order.kind,
                taker.side == order.side,
                taker.limit_price == order.limit_price,
            ensures
                self.wf(),
                m0.match_orders(order, sequence) == (self@, taker, trades@),
                !self.locations@.contains_key(order.resting.id),
                taker.resting.id == order.resting.id,
                taker.kind == order.kind,
                taker.side == order.side,
                taker.limit_price == order.limit_price,
                taker.resting.open_qty > 0 ==> {
                    let side = crate::domain::order::opposite(taker.side);
                    let levels = self@.levels(side);
                    &&& !self@.can_fill(taker)
                    &&& super::model::has_levels(levels) ==> super::model::is_best_price(
                        levels,
                        side,
                        super::model::best_price(levels, side),
                    )
                },
            decreases taker.resting.open_qty,
        {
            if taker.resting.open_qty == 0 {
                proof {
                    assert(trades@ + Seq::<Trade>::empty() == trades@);
                }
                break;
            }
            match self.plan(&taker) {
                None => {
                    proof {
                        assert(trades@ + Seq::<Trade>::empty() == trades@);
                    }
                    break;
                },
                Some(fill) => {
                    let ghost before = self@;
                    let ghost taker_before = taker;
                    let trade = self.apply(&mut taker, fill, sequence);
                    proof {
                        let (b, t, ts) = self@.match_orders(taker, sequence);
                        assert(before.match_orders(taker_before, sequence) == (b, t, seq![trade] + ts));
                        assert(trades@.push(trade) + ts == trades@ + (seq![trade] + ts));
                    }
                    trades.push(trade);
                },
            }
        }
        let ghost matched = self@;
        if taker.resting.open_qty > 0 {
            match taker.kind {
                OrderKind::Limit => {
                    proof {
                        let side = crate::domain::order::opposite(taker.side);
                        let levels = self@.levels(side);
                        assert forall|q: Price| #[trigger]
                            self.level_records(side).contains_key(q) implies !taker.crosses_spec(q) by {
                            self.lemma_view_levels(side, q);
                            let best = super::model::best_price(levels, side);
                            assert(!super::model::better(side, q, best));
                        }
                    }
                    match self.rest(taker) {
                        Ok(()) => {},
                        Err(e) => {
                            return Err(e);
                        },
                    }
                },
                OrderKind::Market => {},
            }
        }
        Ok(ExecutionReport {
            order_id: order.resting.id,
            remaining_quantity: taker.resting.open_qty,
            trades,
        })
    }

    /// Cancels an active resting order, reporting the quantity it still had open.
    pub fn cancel(&mut self, order_id: OrderId) -> (r: Result<CancelReport, BookError>)
        requires
            old(self).wf(),
        ensures
            final(self).wf(),
            (final(self)@, r) == cancel_result(old(self)@, order_id),
    {
        proof {
            self.lemma_locations_match_orders(order_id);
        }
        let node_id = match self.locations.get(&order_id) {
            Some(node_id) => *node_id,
            None => {
                return Err(BookError::OrderNotFound(order_id));
            },
        };
        let removed = self.remove_resting(node_id);
        Ok(CancelReport { order_id, canceled_quantity: removed.resting.open_qty })
    }
}


impl Book {
    /// The aggregated view of a level record; it is the model's view of the level.
    fn record_view(&self, side: OrderSide, price: Price, level: PriceLevel) -> (r: PriceLevelView)
        requires
            self.wf(),
            self.level_records(side).contains_key(price),
            self.level_records(side)[price] == level,
        ensures
            r == super::model::level_view(price, self@.levels(side)[price]),
    {
        proof {
            self.lemma_view_levels(side, price);
            assert(self.side_ok(side));
            assert(self.level_ok(side, price));
            super::model::lemma_open_total_nonneg(self@.levels(side)[price]);
        }
        PriceLevelView { price, quantity: level.quantity, order_count: level.count }
    }

    /// The best level of one side, if it has any.
    fn best_level(&self, side: OrderSide) -> (r: Option<PriceLevelView>)
        requires
            self.wf(),
        ensures
            r == super::model::top_level(self@.levels(side), side),
    {
        let ghost levels = self@.levels(side);
        let best = match side {
            OrderSide::Buy => last_level(&self.bids),
            OrderSide::Sell => first_level(&self.asks),
        };
        match best {
            None => {
                proof {
                    if super::model::has_levels(levels) {
                        let p = choose|p: Price| levels.contains_key(p);
                        self.lemma_view_levels(side, p);
                    }
                }
                None
            },
            Some((price, level)) => {
                proof {
                    self.lemma_view_levels(side, price);
                    assert forall|q: Price| #[trigger] levels.contains_key(q) implies !super::model::better(
                        side,
                        q,
                        price,
                    ) by {
                        self.lemma_view_levels(side, q);
                    }
                    super::model::lemma_best_price_unique(levels, side, price);
                }
                Some(self.record_view(side, price, level))
            },
        }
    }

    /// Returns the best bid and best ask without exposing mutable book state.
    pub fn top_of_book(&self) -> (r: TopOfBook)
        requires
            self.wf(),
        ensures
            r.bid == super::model::top_level(self@.bids, OrderSide::Buy),
            r.ask == super::model::top_level(self@.asks, OrderSide::Sell),
    {
        TopOfBook { bid: self.best_level(OrderSide::Buy), ask: self.best_level(OrderSide::Sell) }
    }

    /// Up to `n` best levels of one side, best first.
    fn side_depth(&self, side: OrderSide, n: usize) -> (r: Vec<PriceLevelView>)
        requires
            self.wf(),
        ensures
            super::model::lists_best_levels(self@.levels(side), side, n as nat, r@),
            self@.levels(side).dom().len() <= usize::MAX,
    {
        let ghost levels = self@.levels(side);
        let all = match side {
            OrderSide::Buy => levels_ascending(&self.bids),
            OrderSide::Sell => levels_ascending(&self.asks),
        };
        proof {
            assert(levels.dom() =~= self.level_records(side).dom()) by {
                assert forall|p: Price| levels.contains_key(p) == self.level_records(side).contains_key(p) by {
                    self.lemma_view_levels(side, p);
                }
            }
        }
        let len = all.len();
        let k = if n < len {
            n
        } else {
            len
        };
        let mut r: Vec<PriceLevelView> = Vec::new();
        let mut i: usize = 0;
        while i < k
            invariant
                self.wf(),
                levels == self@.levels(side),
                len == all@.len(),
                k <= len,
                i <= k,
                forall|j: int|
                    0 <= j < all@.len() ==> self.level_records(side).contains_key(#[trigger] all@[j].0)
                        && self.level_records(side)[all@[j].0] == all@[j].1,
                r@.len() == i,
                forall|j: int|
                    0 <= j < i ==> (#[trigger] r@[j]) == super::model::level_view(
                        (if side == OrderSide::Sell {
                            all@[j].0
                        } else {
                            all@[len - 1 - j].0
                        }),
                        levels[(if side == OrderSide::Sell {
                            all@[j].0
                        } else {
                            all@[len - 1 - j].0
                        })],
                    ),
            decreases k - i,
        {
            let entry = match side {
                OrderSide::Sell => all[i],
                OrderSide::Buy => all[len - 1 - i],
            };
            proof {
                if side == OrderSide::Sell {
                    assert(entry == all@[i as int]);
                } else {
                    assert(entry == all@[len - 1 - i]);
                }
            }
            let view = self.record_view(side, entry.0, entry.1);
            r.push(view);
            i = i + 1;
        }
        proof {
            let price_at = |j: int|
                if side == OrderSide::Sell {
                    all@[j].0
                } else {
                    all@[len - 1 - j].0
                };
            assert forall|j: int| 0 <= j < r@.len() implies levels.contains_key(#[trigger] r@[j].price)
                && r@[j] == super::model::level_view(r@[j].price, levels[r@[j].price]) by {
                self.lemma_view_levels(side, price_at(j));
            }
            assert forall|a: int, b: int| 0 <= a < b < r@.len() implies super::model::better(
                side,
                r@[a].price,
                r@[b].price,
            ) by {
                assert(r@[a].price == price_at(a));
                assert(r@[b].price == price_at(b));
            }
            assert forall|p: Price, j: int|
                #![trigger levels.contains_key(p), r@[j]]
                levels.contains_key(p) && 0 <= j < r@.len() && !super::model::better(
                    side,
                    r@[j].price,
                    p,
                ) implies exists|m: int| 0 <= m < r@.len() && #[trigger] r@[m].price == p by {
                self.lemma_view_levels(side, p);
                assert(self.level_records(side).contains_key(p));
                let t = choose|t: int| 0 <= t < all@.len() && all@[t].0 == p;
                assert(r@[j].price == price_at(j));
                if side == OrderSide::Sell {
                    assert(t <= j);
                    assert(r@[t].price == price_at(t));
                } else {
                    assert(len - 1 - j <= t);
                    let m = len - 1 - t;
                    assert(r@[m].price == price_at(m));
                }
            }
        }
        r
    }

    /// Returns up to `levels` best price levels on each side.
    pub fn depth(&self, levels: usize) -> (r: BookSnapshot)
        requires
            self.wf(),
        ensures
            super::model::lists_best_levels(self@.bids, OrderSide::Buy, levels as nat, r.bids@),
            super::model::lists_best_levels(self@.asks, OrderSide::Sell, levels as nat, r.asks@),
            self@.bids.dom().len() <= usize::MAX,
            self@.asks.dom().len() <= usize::MAX,
    {
        BookSnapshot {
            bids: self.side_depth(OrderSide::Buy, levels),
            asks: self.side_depth(OrderSide::Sell, levels),
        }
    }

    /// Returns all active price levels, best first on each side.
    pub fn snapshot(&self) -> (r: BookSnapshot)
        requires
            self.wf(),
        ensures
            super::model::lists_best_levels(self@.bids, OrderSide::Buy, self@.bids.dom().len(), r.bids@),
            super::model::lists_best_levels(self@.asks, OrderSide::Sell, self@.asks.dom().len(), r.asks@),
    {
        self.depth(usize::MAX)
    }
}


impl Book {
    /// The aggregated level at `price` on `side`, if the level exists.
    pub fn level(&self, side: OrderSide, price: Price) -> (r: Option<PriceLevelView>)
        requires
            self.wf(),
        ensures
            r == (if self@.levels(side).contains_key(price) {
                Some(super::model::level_view(price, self@.levels(side)[price]))
            } else {
                None
            }),
    {
        proof {
            self.lemma_view_levels(side, price);
        }
        match self.level_at(side, price) {
            Some(level) => Some(self.record_view(side, price, level)),
            None => None,
        }
    }

    /// The number of price levels on `side`.
    pub fn level_count(&self, side: OrderSide) -> (r: usize)
        requires
            self.wf(),
        ensures
            r == self@.levels(side).dom().len(),
    {
        proof {
            assert(self@.levels(side).dom() =~= self.level_records(side).dom()) by {
                assert forall|p: Price| self@.levels(side).contains_key(p) == self.level_records(
                    side,
                ).contains_key(p) by {
                    self.lemma_view_levels(side, p);
                }
            }
        }
        match side {
            OrderSide::Buy => self.bids.len(),
            OrderSide::Sell => self.asks.len(),
        }
    }

    /// The number of resting orders.
    pub fn resting_count(&self) -> (r: usize)
        ensures
            r == self@.live,
    {
        self.arena.live_count()
    }

    /// Whether an order with id `order_id` rests in the book.
    pub fn contains_order(&self, order_id: OrderId) -> (r: bool)
        requires
            self.wf(),
        ensures
            r == self@.has_order(order_id),
    {
        proof {
            self.lemma_locations_match_orders(order_id);
        }
        self.locations.contains_key(&order_id)
    }
}


impl Book {
    /// The model of a well-formed book is valid: its levels are well formed, it is not
    /// crossed, order ids are unique, and `live` counts the resting orders within the
    /// capacity.
    pub proof fn lemma_view_valid(&self)
        requires
            self.wf(),
        ensures
            self@.valid(),
    {
        let m = self@;
        assert forall|side: OrderSide, p: Price| #[trigger] m.levels(side).contains_key(p) implies super::model::level_valid(
            side,
            p,
            m.levels(side)[p],
        ) by {
            self.lemma_view_levels(side, p);
            assert(self.side_ok(side));
            assert(self.level_ok(side, p));
            let q = self.queues(side)[p];
            assert forall|i: int| 0 <= i < q.len() implies {
                let o = #[trigger] m.levels(side)[p][i];
                &&& o.kind == OrderKind::Limit
                &&& o.limit_price == Some(p)
                &&& o.side == side
                &&& o.resting.open_qty > 0
            } by {
                assert(self.node_ok(q[i]));
            }
        }
        assert forall|p: Price| #[trigger] m.bids.contains_key(p) implies super::model::level_valid(
            OrderSide::Buy,
            p,
            m.bids[p],
        ) by {
            assert(m.levels(OrderSide::Buy).contains_key(p));
        }
        assert forall|p: Price| #[trigger] m.asks.contains_key(p) implies super::model::level_valid(
            OrderSide::Sell,
            p,
            m.asks[p],
        ) by {
            assert(m.levels(OrderSide::Sell).contains_key(p));
        }
        assert(m.bids.dom() =~= self.bids@.dom()) by {
            assert forall|p: Price| m.bids.contains_key(p) == self.bids@.contains_key(p) by {
                self.lemma_view_levels(OrderSide::Buy, p);
            }
        }
        assert(m.asks.dom() =~= self.asks@.dom()) by {
            assert forall|p: Price| m.asks.contains_key(p) == self.asks@.contains_key(p) by {
                self.lemma_view_levels(OrderSide::Sell, p);
            }
        }
        assert(m.uncrossed()) by {
            assert forall|b: Price, a: Price| m.bids.contains_key(b) && m.asks.contains_key(a) implies b < a by {
                assert(self.bids@.contains_key(b));
                assert(self.asks@.contains_key(a));
            }
        }
        assert(m.ids_unique()) by {
            assert forall|s1: OrderSide, p1: Price, i1: int, s2: OrderSide, p2: Price, i2: int, id: u64|
                m.holds_at(s1, p1, i1, id) && m.holds_at(s2, p2, i2, id) implies s1 == s2 && p1 == p2
                && i1 == i2 by {
                self.lemma_view_levels(s1, p1);
                self.lemma_view_levels(s2, p2);
                assert(self.side_ok(s1));
                assert(self.side_ok(s2));
                assert(self.level_ok(s1, p1));
                assert(self.level_ok(s2, p2));
                let n1 = self.queues(s1)[p1][i1];
                let n2 = self.queues(s2)[p2][i2];
                assert(self.node_ok(n1));
                assert(self.node_ok(n2));
            }
        }
        let f = |n: usize| self.nodes()[n].order.resting.id;
        assert(m.ids() =~= self.nodes().dom().map(f)) by {
            assert forall|id: u64| m.ids().contains(id) implies self.nodes().dom().map(f).contains(id) by {
                self.lemma_locations_match_orders(id);
                let n = self.locations@[id].0;
                assert(f(n) == id);
            }
            assert forall|id: u64| self.nodes().dom().map(f).contains(id) implies m.ids().contains(id) by {
                let n = choose|n: usize| self.nodes().dom().contains(n) && f(n) == id;
                assert(self.node_ok(n));
                self.lemma_locations_match_orders(id);
            }
        }
        assert(vstd::relations::injective_on(f, self.nodes().dom())) by {
            assert forall|a: usize, b: usize|
                self.nodes().dom().contains(a) && self.nodes().dom().contains(b) && #[trigger] f(a)
                    == #[trigger] f(b) implies a == b by {
                assert(self.node_ok(a));
                assert(self.node_ok(b));
            }
        }
        self.arena.lemma_live_counts_items();
        vstd::set_lib::lemma_map_size(self.nodes().dom(), m.ids(), f);
    }
}

} // verus!
