//! The order book of one asset: pool, per-level queues, totals and bitmaps,
//! the id indices and the best levels, kept consistent with its model.
use vstd::prelude::*;

use rustc_hash::FxHashMap;

use crate::fx_map::{fx_contains_key, fx_get, fx_insert, fx_remove};
use crate::market_data::{best_events, cancel_events, level_event, modify_events, price_of, submit_events, trade_events, MarketDataEvent};
use crate::matching::{BookView, lemma_sweep_kept_all, lemma_cross_zero, lemma_cross_up_rest_below, lemma_cross_down_rest_above, passes_on, lemma_with_level, sum_qty, lemma_sum_positive, lemma_sum_push, lemma_sum_remove, lemma_sum_update, lemma_sum_nonneg, reduced, fill_of, min_qty, sweep_prefix, sweep, cross_up, cross_down, avail_up, avail_down, highest_nonempty, lowest_nonempty, lemma_sweep_done, lemma_sweep_positive, lemma_cross_up_skip, lemma_cross_down_skip, crosses};
use crate::error::OrderError;
use crate::order::{Order, OrderSide, OrderType};
use crate::order_pool::{Node, OrderPool};
use crate::order_queue::OrderQueue;
use crate::price::Price;
use crate::price_level::{level_of_price, PriceLevel, MAX_LEVEL};
use crate::trade::Trade;

verus! {

/// The orders held by the slots `members`, in the same order.
pub open spec fn orders_of(members: Seq<usize>, nodes: Seq<Node>) -> Seq<Order> {
    members.map_values(|n: usize| nodes[n as int].order)
}

/// A single-asset limit order book with price-time priority.
pub struct OrderBook {
    pub pool: OrderPool,
    pub bids: PriceLevel,
    pub asks: PriceLevel,
    pub id_to_index: FxHashMap<u64, usize>,
    pub id_to_price: FxHashMap<u64, Price>,
    pub best_ask_index: Option<usize>,
    pub best_bid_index: Option<usize>,
    /// What the book has published and nobody has drained yet.
    pub market_data: Vec<MarketDataEvent>,
}

/// The queue `q` keeps its shape and orders when the nodes it links keep theirs.
proof fn lemma_queue_frame(q: OrderQueue, n1: Seq<Node>, n2: Seq<Node>)
    requires
        q.wf_in(n1),
        n2.len() >= n1.len(),
        forall|k: int| 0 <= k < q.members@.len() ==> n2[#[trigger] q.members@[k] as int] == n1[q.members@[k] as int],
    ensures
        q.wf_in(n2),
        orders_of(q.members@, n2) == orders_of(q.members@, n1),
{
    let s = q.members@;
    assert forall|k: int| 0 <= k < s.len() implies (#[trigger] n2[s[k] as int]).next == crate::order_queue::next_of(s, k)
        && n2[s[k] as int].prev == crate::order_queue::prev_of(s, k) by {
        assert(n2[s[k] as int] == n1[s[k] as int]);
    }
    assert(orders_of(s, n2) =~= orders_of(s, n1));
}

impl OrderBook {
    /// One side of the book.
    pub closed spec fn side_of(&self, s: OrderSide) -> PriceLevel {
        match s {
            OrderSide::Buy => self.bids,
            OrderSide::Sell => self.asks,
        }
    }

    closed spec fn queue(&self, s: OrderSide, i: int) -> OrderQueue {
        self.side_of(s).levels@[i]
    }

    closed spec fn level_orders(&self, s: OrderSide, i: int) -> Seq<Order> {
        orders_of(self.queue(s, i).members@, self.pool.nodes@)
    }

    /// The resting orders, per side and level, front of each queue first.
    pub closed spec fn view(&self) -> BookView {
        BookView {
            bids: Seq::new(MAX_LEVEL as nat, |i: int| self.level_orders(OrderSide::Buy, i)),
            asks: Seq::new(MAX_LEVEL as nat, |i: int| self.level_orders(OrderSide::Sell, i)),
        }
    }

    closed spec fn queues_wf(&self, s: OrderSide) -> bool {
        forall|i: int| 0 <= i < MAX_LEVEL ==> (#[trigger] self.queue(s, i)).wf_in(self.pool.nodes@)
    }

    closed spec fn member_ok(&self, s: OrderSide, i: int, n: usize) -> bool {
        let o = self.pool.nodes@[n as int].order;
        &&& o.side == s
        &&& level_of_price(o.price) == Some(i as usize)
        &&& o.quantity > 0
        &&& self.id_to_index@.contains_key(o.id)
        &&& self.id_to_index@[o.id] == n
    }

    closed spec fn members_ok(&self, s: OrderSide) -> bool {
        forall|i: int, k: int|
            0 <= i < MAX_LEVEL && 0 <= k < self.queue(s, i).members@.len() ==> self.member_ok(
                s,
                i,
                #[trigger] self.queue(s, i).members@[k],
            )
    }

    closed spec fn indexed_ok(&self, id: u64) -> bool {
        let n = self.id_to_index@[id];
        let o = self.pool.nodes@[n as int].order;
        &&& n < self.pool.nodes@.len()
        &&& o.id == id
        &&& self.id_to_price@.contains_key(id)
        &&& self.id_to_price@[id] == o.price
        &&& level_of_price(o.price) is Some
        &&& self.queue(o.side, level_of_price(o.price)->0 as int).members@.contains(n)
        &&& !self.pool.free_list@.contains(n)
    }

    closed spec fn index_ok(&self) -> bool {
        &&& self.id_to_price@.dom() == self.id_to_index@.dom()
        &&& forall|id: u64| #[trigger] self.id_to_index@.contains_key(id) ==> self.indexed_ok(id)
    }

    closed spec fn totals_ok(&self, s: OrderSide) -> bool {
        &&& self.side_of(s).bits_wf()
        &&& forall|i: int|
            0 <= i < MAX_LEVEL ==> #[trigger] self.side_of(s).totals@[i] == sum_qty(self.level_orders(s, i))
    }

    /// The structure is consistent: pool, queues, index maps and totals agree.
    #[verifier::opaque]
    pub closed spec fn wf_core(&self) -> bool {
        &&& self.pool.wf()
        &&& self.queues_wf(OrderSide::Buy)
        &&& self.queues_wf(OrderSide::Sell)
        &&& self.members_ok(OrderSide::Buy)
        &&& self.members_ok(OrderSide::Sell)
        &&& self.index_ok()
        &&& self.totals_ok(OrderSide::Buy)
        &&& self.totals_ok(OrderSide::Sell)
    }

    /// The book is consistent and its best indices name the best levels.
    pub closed spec fn wf(&self) -> bool {
        &&& self.wf_core()
        &&& self.best_bid_index == self.view().best_bid()
        &&& self.best_ask_index == self.view().best_ask()
    }

    proof fn lemma_view_level(&self, s: OrderSide, i: int)
        requires
            0 <= i < MAX_LEVEL,
        ensures
            self.view().levels(s)[i] == self.level_orders(s, i),
            self.view().levels(s).len() == MAX_LEVEL,
    {
    }

    /// Two queues that share a slot are the same queue.
    proof fn lemma_disjoint(&self, s1: OrderSide, i1: int, k1: int, s2: OrderSide, i2: int, k2: int)
        requires
            self.members_ok(s1),
            self.members_ok(s2),
            0 <= i1 < MAX_LEVEL,
            0 <= i2 < MAX_LEVEL,
            0 <= k1 < self.queue(s1, i1).members@.len(),
            0 <= k2 < self.queue(s2, i2).members@.len(),
            self.queue(s1, i1).members@[k1] == self.queue(s2, i2).members@[k2],
        ensures
            s1 == s2,
            i1 == i2,
    {
        assert(self.member_ok(s1, i1, self.queue(s1, i1).members@[k1]));
        assert(self.member_ok(s2, i2, self.queue(s2, i2).members@[k2]));
    }

    /// In a consistent book, the index maps hold exactly the resting ids, and
    /// each maps to the slot that holds it.
    proof fn lemma_holds(&self, id: u64)
        requires
            self.wf_core(),
        ensures
            self.view().holds(id) <==> self.id_to_index@.contains_key(id),
            self.id_to_index@.contains_key(id) ==> {
                let n = self.id_to_index@[id];
                let o = self.pool.nodes@[n as int].order;
                let i = level_of_price(o.price)->0 as int;
                let k = self.queue(o.side, i).members@.index_of(n);
                &&& 0 <= i < MAX_LEVEL
                &&& 0 <= k < self.queue(o.side, i).members@.len()
                &&& self.queue(o.side, i).members@[k] == n
                &&& self.view().location(id) == (o.side, i, k)
                &&& self.view().order_of(id) == o
                &&& n < self.pool.nodes@.len()
                &&& level_of_price(o.price) is Some
                &&& self.id_to_price@.contains_key(id)
                &&& self.id_to_price@[id] == o.price
                &&& o.id == id
            },
    {
        reveal(OrderBook::wf_core);
        let v = self.view();
        if self.id_to_index@.contains_key(id) {
            assert(self.indexed_ok(id));
            let n = self.id_to_index@[id];
            let o = self.pool.nodes@[n as int].order;
            let i = level_of_price(o.price)->0 as int;
            let q = self.queue(o.side, i).members@;
            let k = q.index_of(n);
            assert(0 <= k < q.len() && q[k] == n);
            self.lemma_view_level(o.side, i);
            assert(v.levels(o.side)[i][k] == o);
            assert(v.holds(id));
            let (s2, i2, k2) = v.location(id);
            self.lemma_view_level(s2, i2);
            let n2 = self.queue(s2, i2).members@[k2];
            assert(self.member_ok(s2, i2, n2));
            assert(v.levels(s2)[i2][k2] == self.pool.nodes@[n2 as int].order);
            assert(n2 == n);
            self.lemma_disjoint(s2, i2, k2, o.side, i, k);
            assert(q.no_duplicates());
        }
        if v.holds(id) {
            let (s2, i2, k2) = v.location(id);
            self.lemma_view_level(s2, i2);
            let n2 = self.queue(s2, i2).members@[k2];
            assert(self.member_ok(s2, i2, n2));
        }
    }

    /// The total resting at level `i` of `s` is the sum of its orders.
    proof fn lemma_totals(&self, s: OrderSide, i: int)
        requires
            self.wf_core(),
            0 <= i < MAX_LEVEL,
        ensures
            self.side_of(s).totals@[i] == self.view().level_total(s, i),
            self.side_of(s).totals@[i] == 0 <==> self.view().levels(s)[i].len() == 0,
    {
        reveal(OrderBook::wf_core);
        self.lemma_view_level(s, i);
        let q = self.level_orders(s, i);
        assert(self.totals_ok(s));
        assert forall|k: int| 0 <= k < q.len() implies (#[trigger] q[k]).quantity > 0 by {
            assert(self.member_ok(s, i, self.queue(s, i).members@[k]));
        }
        lemma_sum_positive(q);
    }
}


/// Every queue other than level `l` of side `s` is the same in `b1` as in
/// `b0`, and so are the nodes it links.
pub closed spec fn others_untouched(b0: &OrderBook, b1: &OrderBook, s: OrderSide, l: int) -> bool {
    &&& b1.pool.nodes@.len() >= b0.pool.nodes@.len()
    &&& forall|s2: OrderSide, i2: int|
        0 <= i2 < MAX_LEVEL && !(s2 == s && i2 == l) ==> #[trigger] b1.queue(s2, i2) == b0.queue(s2, i2)
    &&& forall|s2: OrderSide, i2: int, k: int|
        0 <= i2 < MAX_LEVEL && !(s2 == s && i2 == l) && 0 <= k < b0.queue(s2, i2).members@.len()
            ==> b1.pool.nodes@[#[trigger] b0.queue(s2, i2).members@[k] as int] == b0.pool.nodes@[b0.queue(
            s2,
            i2,
        ).members@[k] as int]
}

/// Untouched queues stay well formed and keep their orders, and the view
/// changes at level `l` of side `s` only.
proof fn lemma_others(b0: &OrderBook, b1: &OrderBook, s: OrderSide, l: int)
    requires
        0 <= l < MAX_LEVEL,
        b0.queues_wf(OrderSide::Buy),
        b0.queues_wf(OrderSide::Sell),
        others_untouched(b0, b1, s, l),
    ensures
        forall|s2: OrderSide, i2: int|
            0 <= i2 < MAX_LEVEL && !(s2 == s && i2 == l) ==> (#[trigger] b1.queue(s2, i2)).wf_in(b1.pool.nodes@)
                && b1.level_orders(s2, i2) == b0.level_orders(s2, i2),
        b1.view() == b0.view().with_level(s, l, b1.level_orders(s, l)),
{
    assert forall|s2: OrderSide, i2: int|
        0 <= i2 < MAX_LEVEL && !(s2 == s && i2 == l) implies (#[trigger] b1.queue(s2, i2)).wf_in(b1.pool.nodes@)
        && b1.level_orders(s2, i2) == b0.level_orders(s2, i2) by {
        let q = b0.queue(s2, i2);
        assert(b1.queue(s2, i2) == q);
        assert(q.wf_in(b0.pool.nodes@)) by {
            if s2 == OrderSide::Buy {
                assert(b0.queues_wf(OrderSide::Buy));
            } else {
                assert(b0.queues_wf(OrderSide::Sell));
            }
        }
        assert forall|k: int| 0 <= k < q.members@.len() implies b1.pool.nodes@[#[trigger] q.members@[k] as int]
            == b0.pool.nodes@[q.members@[k] as int] by {
            assert(b1.pool.nodes@[b0.queue(s2, i2).members@[k] as int] == b0.pool.nodes@[b0.queue(s2, i2).members@[k] as int]);
        }
        lemma_queue_frame(q, b0.pool.nodes@, b1.pool.nodes@);
    }
    let v0 = b0.view();
    let v1 = b1.view();
    let w = v0.with_level(s, l, b1.level_orders(s, l));
    assert(v1.bids =~= w.bids) by {
        assert forall|i: int| 0 <= i < MAX_LEVEL implies v1.bids[i] == w.bids[i] by {
            if !(s == OrderSide::Buy && i == l) {
                assert(b1.level_orders(OrderSide::Buy, i) == b0.level_orders(OrderSide::Buy, i));
            }
        }
    }
    assert(v1.asks =~= w.asks) by {
        assert forall|i: int| 0 <= i < MAX_LEVEL implies v1.asks[i] == w.asks[i] by {
            if !(s == OrderSide::Sell && i == l) {
                assert(b1.level_orders(OrderSide::Sell, i) == b0.level_orders(OrderSide::Sell, i));
            }
        }
    }
}

impl OrderBook {
    /// A slot that is free or beyond the arena is in no queue.
    proof fn lemma_not_member(&self, t: usize, s2: OrderSide, i2: int, k: int)
        requires
            self.wf_core(),
            t >= self.pool.nodes@.len() || self.pool.free_list@.contains(t),
            0 <= i2 < MAX_LEVEL,
            0 <= k < self.queue(s2, i2).members@.len(),
        ensures
            self.queue(s2, i2).members@[k] != t,
    {
        reveal(OrderBook::wf_core);
        let m = self.queue(s2, i2).members@[k];
        if s2 == OrderSide::Buy {
            assert(self.members_ok(OrderSide::Buy));
            assert(self.queues_wf(OrderSide::Buy));
        } else {
            assert(self.members_ok(OrderSide::Sell));
            assert(self.queues_wf(OrderSide::Sell));
        }
        assert(self.member_ok(s2, i2, m));
        assert(self.queue(s2, i2).wf_in(self.pool.nodes@));
        let o = self.pool.nodes@[m as int].order;
        assert(self.indexed_ok(o.id));
    }

    /// A slot of level `l` of side `s` is in no other queue.
    proof fn lemma_member_of_one(&self, s: OrderSide, l: int, kk: int, s2: OrderSide, i2: int, k: int)
        requires
            self.wf_core(),
            0 <= l < MAX_LEVEL,
            0 <= kk < self.queue(s, l).members@.len(),
            0 <= i2 < MAX_LEVEL,
            0 <= k < self.queue(s2, i2).members@.len(),
            !(s2 == s && i2 == l),
        ensures
            self.queue(s2, i2).members@[k] != self.queue(s, l).members@[kk],
    {
        reveal(OrderBook::wf_core);
        if self.queue(s2, i2).members@[k] == self.queue(s, l).members@[kk] {
            self.lemma_disjoint(s2, i2, k, s, l, kk);
        }
    }

    /// Queues `order` last at `level`, its price's level on its side.
    fn insert_resting(&mut self, order: Order, level: usize)
        requires
            old(self).wf_core(),
            level_of_price(order.price) == Some(level),
            order.quantity > 0,
            !old(self).view().holds(order.id),
            old(self).view().room_for(order),
        ensures
            final(self).wf_core(),
            final(self).view() == old(self).view().with_resting(order),
            final(self).best_bid_index == old(self).best_bid_index,
            final(self).best_ask_index == old(self).best_ask_index,
    {
        let ghost b0 = *self;
        let ghost s = order.side;
        let ghost l = level as int;
        proof {
            reveal(OrderBook::wf_core);
            b0.lemma_holds(order.id);
            b0.lemma_totals(s, l);
            lemma_insert_pre(&b0, s, l);
        }
        let node_index = self.pool.allocate(order);
        proof {
            lemma_insert_alloc(&b0, self, s, l, node_index);
        }
        fx_insert(&mut self.id_to_index, order.id, node_index);
        fx_insert(&mut self.id_to_price, order.id, order.price);
        let ghost b1 = *self;
        match order.side {
            OrderSide::Buy => {
                self.bids.levels[level].push_back(&mut self.pool, node_index);
                proof {
                    b0.bids.lemma_bits_frame(&self.bids);
                }
                self.bids.add_qty_at(level, order.quantity);
            },
            OrderSide::Sell => {
                self.asks.levels[level].push_back(&mut self.pool, node_index);
                proof {
                    b0.asks.lemma_bits_frame(&self.asks);
                }
                self.asks.add_qty_at(level, order.quantity);
            },
        }
        proof {
            reveal(OrderBook::wf_core);
            assert(insert_effect(&b0, self, order, l, node_index));
            lemma_insert_untouched(&b0, self, order, l, node_index);
            lemma_insert_view(&b0, self, order, l, node_index);
            lemma_insert_members(&b0, self, order, l, node_index);
            lemma_insert_index(&b0, self, order, l, node_index);
            lemma_insert_totals(&b0, self, order, l, node_index);
        }
    }
}

proof fn lemma_insert_pre(b0: &OrderBook, s: OrderSide, l: int)
    requires
        b0.wf_core(),
        0 <= l < MAX_LEVEL,
    ensures
        b0.queue(s, l).wf_in(b0.pool.nodes@),
        b0.side_of(s).bits_wf(),
{
    reveal(OrderBook::wf_core);
    assert(b0.queues_wf(s));
    assert(b0.totals_ok(s));
}

proof fn lemma_insert_alloc(b0: &OrderBook, b1: &OrderBook, s: OrderSide, l: int, fresh: usize)
    requires
        b0.wf_core(),
        0 <= l < MAX_LEVEL,
        b1.bids == b0.bids,
        b1.asks == b0.asks,
        fresh >= b0.pool.nodes@.len() || b0.pool.free_list@.contains(fresh),
        fresh < b1.pool.nodes@.len(),
        b1.pool.nodes@.len() >= b0.pool.nodes@.len(),
        forall|j: int| 0 <= j < b0.pool.nodes@.len() && j != fresh ==> b1.pool.nodes@[j] == b0.pool.nodes@[j],
    ensures
        b1.queue(s, l).wf_in(b1.pool.nodes@),
        !b1.queue(s, l).members@.contains(fresh),
{
    reveal(OrderBook::wf_core);
    let q = b0.queue(s, l);
    assert(q.wf_in(b0.pool.nodes@)) by {
        assert(b0.queues_wf(s));
    }
    assert forall|k: int| 0 <= k < q.members@.len() implies b1.pool.nodes@[#[trigger] q.members@[k] as int]
        == b0.pool.nodes@[q.members@[k] as int] by {
        b0.lemma_not_member(fresh, s, l, k);
    }
    lemma_queue_frame(q, b0.pool.nodes@, b1.pool.nodes@);
    assert forall|k: int| 0 <= k < q.members@.len() implies q.members@[k] != fresh by {
        b0.lemma_not_member(fresh, s, l, k);
    }
}

/// `b2` is `b0` with `order` queued last at level `l` in slot `fresh`.
closed spec fn insert_effect(b0: &OrderBook, b2: &OrderBook, order: Order, l: int, fresh: usize) -> bool {
    let s = order.side;
    let q0 = b0.queue(s, l);
    &&& b0.wf_core()
    &&& 0 <= l < MAX_LEVEL
    &&& level_of_price(order.price) == Some(l as usize)
    &&& order.quantity > 0
    &&& !b0.id_to_index@.contains_key(order.id)
    &&& fresh >= b0.pool.nodes@.len() || b0.pool.free_list@.contains(fresh)
    &&& fresh < b2.pool.nodes@.len()
    &&& b2.pool.nodes@.len() >= b0.pool.nodes@.len()
    &&& (if b0.pool.free_list@.len() > 0 {
        fresh == b0.pool.free_list@.last() && b2.pool.free_list@ == b0.pool.free_list@.drop_last()
    } else {
        fresh == b0.pool.nodes@.len() && b2.pool.free_list@ == b0.pool.free_list@
    })
    &&& b2.pool.wf()
    &&& b2.pool.nodes@[fresh as int].order == order
    &&& forall|j: int| 0 <= j < b0.pool.nodes@.len() && j != fresh ==> #[trigger] b2.pool.nodes@[j].order
        == b0.pool.nodes@[j].order
    &&& forall|j: int|
        0 <= j < b0.pool.nodes@.len() && j != fresh && Some(j as usize) != q0.tail ==> #[trigger] b2.pool.nodes@[j]
            == b0.pool.nodes@[j]
    &&& b2.queue(s, l).members@ == q0.members@.push(fresh)
    &&& b2.queue(s, l).wf_in(b2.pool.nodes@)
    &&& forall|i: int| 0 <= i < MAX_LEVEL && i != l ==> #[trigger] b2.queue(s, i) == b0.queue(s, i)
    &&& b2.side_of(s.opposite()) == b0.side_of(s.opposite())
    &&& b2.id_to_index@ == b0.id_to_index@.insert(order.id, fresh)
    &&& b2.id_to_price@ == b0.id_to_price@.insert(order.id, order.price)
    &&& b2.side_of(s).bits_wf()
    &&& b0.side_of(s).totals@[l] + order.quantity <= u64::MAX
    &&& b2.side_of(s).totals@ == b0.side_of(s).totals@.update(l, (b0.side_of(s).totals@[l] + order.quantity) as u64)
}

proof fn lemma_insert_untouched(b0: &OrderBook, b2: &OrderBook, order: Order, l: int, fresh: usize)
    requires
        insert_effect(b0, b2, order, l, fresh),
    ensures
        others_untouched(b0, b2, order.side, l),
{
    reveal(OrderBook::wf_core);
    let s = order.side;
    let q0 = b0.queue(s, l);
    assert forall|s2: OrderSide, i2: int|
        0 <= i2 < MAX_LEVEL && !(s2 == s && i2 == l) implies #[trigger] b2.queue(s2, i2) == b0.queue(s2, i2) by {
        if s2 != s {
            assert(s2 == s.opposite());
        }
    }
    assert forall|s2: OrderSide, i2: int, k: int|
        0 <= i2 < MAX_LEVEL && !(s2 == s && i2 == l) && 0 <= k < b0.queue(s2, i2).members@.len() implies b2.pool.nodes@[#[trigger] b0.queue(
        s2,
        i2,
    ).members@[k] as int] == b0.pool.nodes@[b0.queue(s2, i2).members@[k] as int] by {
        let m = b0.queue(s2, i2).members@[k];
        b0.lemma_not_member(fresh, s2, i2, k);
        assert(b0.queue(s2, i2).wf_in(b0.pool.nodes@)) by {
            assert(b0.queues_wf(s2));
        }
        if q0.members@.len() > 0 {
            assert(b0.queue(s, l).wf_in(b0.pool.nodes@)) by {
                assert(b0.queues_wf(s));
            }
            b0.lemma_member_of_one(s, l, q0.members@.len() - 1, s2, i2, k);
        }
    }
}

proof fn lemma_insert_view(b0: &OrderBook, b2: &OrderBook, order: Order, l: int, fresh: usize)
    requires
        insert_effect(b0, b2, order, l, fresh),
        others_untouched(b0, b2, order.side, l),
    ensures
        b2.view() == b0.view().with_resting(order),
        forall|s2: OrderSide, i2: int|
            0 <= i2 < MAX_LEVEL && !(s2 == order.side && i2 == l) ==> (#[trigger] b2.queue(s2, i2)).wf_in(
                b2.pool.nodes@,
            ) && b2.level_orders(s2, i2) == b0.level_orders(s2, i2),
        b2.level_orders(order.side, l) == b0.level_orders(order.side, l).push(order),
{
    reveal(OrderBook::wf_core);
    let s = order.side;
    let q0 = b0.queue(s, l);
    lemma_others(b0, b2, s, l);
    assert(b2.level_orders(s, l) =~= b0.level_orders(s, l).push(order)) by {
        assert forall|k: int| 0 <= k < q0.members@.len() implies b2.pool.nodes@[#[trigger] q0.members@[k] as int].order
            == b0.pool.nodes@[q0.members@[k] as int].order by {
            b0.lemma_not_member(fresh, s, l, k);
            assert(q0.wf_in(b0.pool.nodes@)) by {
                assert(b0.queues_wf(s));
            }
        }
    }
    b0.lemma_view_level(s, l);
}

proof fn lemma_insert_members(b0: &OrderBook, b2: &OrderBook, order: Order, l: int, fresh: usize)
    requires
        insert_effect(b0, b2, order, l, fresh),
        forall|s2: OrderSide, i2: int|
            0 <= i2 < MAX_LEVEL && !(s2 == order.side && i2 == l) ==> (#[trigger] b2.queue(s2, i2)).wf_in(
                b2.pool.nodes@,
            ) && b2.level_orders(s2, i2) == b0.level_orders(s2, i2),
    ensures
        b2.members_ok(OrderSide::Buy),
        b2.members_ok(OrderSide::Sell),
        b2.queues_wf(OrderSide::Buy),
        b2.queues_wf(OrderSide::Sell),
{
    reveal(OrderBook::wf_core);
    let s = order.side;
    let q0 = b0.queue(s, l);
    assert forall|s2: OrderSide, i2: int, k: int|
        0 <= i2 < MAX_LEVEL && 0 <= k < b2.queue(s2, i2).members@.len() implies b2.member_ok(
        s2,
        i2,
        #[trigger] b2.queue(s2, i2).members@[k],
    ) by {
        let m = b2.queue(s2, i2).members@[k];
        if s2 == s && i2 == l && k == q0.members@.len() {
            assert(m == fresh);
        } else {
            if !(s2 == s && i2 == l) {
                assert(b2.queue(s2, i2) == b0.queue(s2, i2)) by {
                    if s2 != s {
                        assert(s2 == s.opposite());
                    }
                }
            }
            assert(b0.queue(s2, i2).members@[k] == m);
            assert(b0.members_ok(s2));
            assert(b0.member_ok(s2, i2, m));
            b0.lemma_not_member(fresh, s2, i2, k);
            assert(b2.pool.nodes@[m as int].order == b0.pool.nodes@[m as int].order);
        }
    }
    assert forall|i: int| 0 <= i < MAX_LEVEL implies (#[trigger] b2.queue(s, i)).wf_in(b2.pool.nodes@) by {}
    assert forall|i: int| 0 <= i < MAX_LEVEL implies (#[trigger] b2.queue(s.opposite(), i)).wf_in(
        b2.pool.nodes@,
    ) by {}
    if s == OrderSide::Buy {
        assert(b2.queues_wf(OrderSide::Buy));
        assert(b2.queues_wf(OrderSide::Sell));
    } else {
        assert(b2.queues_wf(OrderSide::Sell));
        assert(b2.queues_wf(OrderSide::Buy));
    }
}

proof fn lemma_insert_index(b0: &OrderBook, b2: &OrderBook, order: Order, l: int, fresh: usize)
    requires
        insert_effect(b0, b2, order, l, fresh),
        forall|s2: OrderSide, i2: int|
            0 <= i2 < MAX_LEVEL && !(s2 == order.side && i2 == l) ==> (#[trigger] b2.queue(s2, i2)) == b0.queue(
                s2,
                i2,
            ),
    ensures
        b2.index_ok(),
{
    reveal(OrderBook::wf_core);
    let s = order.side;
    let q0 = b0.queue(s, l);
    assert forall|id: u64| #[trigger] b2.id_to_index@.contains_key(id) implies b2.indexed_ok(id) by {
        if id != order.id {
            assert(b0.indexed_ok(id));
            let n = b0.id_to_index@[id];
            assert(n != fresh);
            let o = b0.pool.nodes@[n as int].order;
            let li = level_of_price(o.price)->0 as int;
            assert(b2.pool.nodes@[n as int].order == o);
            if o.side == s && li == l {
                let j = choose|j: int| 0 <= j < q0.members@.len() && q0.members@[j] == n;
                assert(b2.queue(s, l).members@[j] == n);
            }
            if b0.pool.free_list@.len() > 0 {
                assert(b2.pool.free_list@ == b0.pool.free_list@.drop_last());
                assert(!b2.pool.free_list@.contains(n)) by {
                    if b2.pool.free_list@.contains(n) {
                        let j = choose|j: int| 0 <= j < b2.pool.free_list@.len() && b2.pool.free_list@[j] == n;
                        assert(b0.pool.free_list@[j] == n);
                    }
                }
            }
        } else {
            assert(b2.queue(s, l).members@[q0.members@.len() as int] == fresh);
            if b0.pool.free_list@.len() > 0 {
                let f = b0.pool.free_list@;
                assert(!b2.pool.free_list@.contains(fresh)) by {
                    if b2.pool.free_list@.contains(fresh) {
                        let j = choose|j: int| 0 <= j < b2.pool.free_list@.len() && b2.pool.free_list@[j] == fresh;
                        assert(f[j] == fresh);
                        assert(f[f.len() - 1] == fresh);
                    }
                }
            } else {
                assert(!b2.pool.free_list@.contains(fresh));
            }
        }
    }
    assert(b2.id_to_price@.dom() =~= b2.id_to_index@.dom());
}

proof fn lemma_insert_totals(b0: &OrderBook, b2: &OrderBook, order: Order, l: int, fresh: usize)
    requires
        insert_effect(b0, b2, order, l, fresh),
        forall|s2: OrderSide, i2: int|
            0 <= i2 < MAX_LEVEL && !(s2 == order.side && i2 == l) ==> b2.level_orders(s2, i2)
                == b0.level_orders(s2, i2),
        b2.level_orders(order.side, l) == b0.level_orders(order.side, l).push(order),
    ensures
        b2.totals_ok(OrderSide::Buy),
        b2.totals_ok(OrderSide::Sell),
{
    reveal(OrderBook::wf_core);
    let s = order.side;
    assert(b0.totals_ok(OrderSide::Buy));
    assert(b0.totals_ok(OrderSide::Sell));
    lemma_sum_push(b0.level_orders(s, l), order);
    assert forall|i: int| 0 <= i < MAX_LEVEL implies #[trigger] b2.side_of(s).totals@[i]
        == sum_qty(b2.level_orders(s, i)) by {
        assert(b0.totals_ok(s));
        assert(b0.side_of(s).totals@[i] == sum_qty(b0.level_orders(s, i)));
        if i != l {
            assert(b2.level_orders(s, i) == b0.level_orders(s, i));
        }
    }
    assert forall|i: int| 0 <= i < MAX_LEVEL implies #[trigger] b2.side_of(s.opposite()).totals@[i]
        == sum_qty(b2.level_orders(s.opposite(), i)) by {}
    if s == OrderSide::Buy {
        assert(b2.totals_ok(OrderSide::Buy));
        assert(b2.totals_ok(OrderSide::Sell));
    } else {
        assert(b2.totals_ok(OrderSide::Sell));
        assert(b2.totals_ok(OrderSide::Buy));
    }
}


proof fn lemma_index_of_unique(s: Seq<usize>, pos: int)
    requires
        s.no_duplicates(),
        0 <= pos < s.len(),
    ensures
        s.index_of(s[pos]) == pos,
{
    let k = s.index_of(s[pos]);
    assert(s.contains(s[pos]));
    assert(0 <= k < s.len() && s[k] == s[pos]);
}

/// `b2` is `b0` without the order in slot `n`, at position `pos` of level `l`
/// of side `s`.
closed spec fn remove_effect(b0: &OrderBook, b2: &OrderBook, s: OrderSide, l: int, pos: int, n: usize) -> bool {
    let q0 = b0.queue(s, l);
    let o = b0.pool.nodes@[n as int].order;
    &&& b0.wf_core()
    &&& 0 <= l < MAX_LEVEL
    &&& 0 <= pos < q0.members@.len()
    &&& q0.members@[pos] == n
    &&& b2.queue(s, l).members@ == q0.members@.remove(pos)
    &&& b2.queue(s, l).wf_in(b2.pool.nodes@)
    &&& b2.pool.nodes@.len() == b0.pool.nodes@.len()
    &&& forall|j: int| 0 <= j < b0.pool.nodes@.len() ==> #[trigger] b2.pool.nodes@[j].order == b0.pool.nodes@[j].order
    &&& forall|j: int|
        0 <= j < b0.pool.nodes@.len() && j != n && Some(j as usize) != crate::order_queue::prev_of(q0.members@, pos)
            && Some(j as usize) != crate::order_queue::next_of(q0.members@, pos) ==> #[trigger] b2.pool.nodes@[j]
            == b0.pool.nodes@[j]
    &&& b2.pool.free_list@ == b0.pool.free_list@.push(n)
    &&& forall|i: int| 0 <= i < MAX_LEVEL && i != l ==> #[trigger] b2.queue(s, i) == b0.queue(s, i)
    &&& b2.side_of(s.opposite()) == b0.side_of(s.opposite())
    &&& b2.id_to_index@ == b0.id_to_index@.remove(o.id)
    &&& b2.id_to_price@ == b0.id_to_price@.remove(o.id)
    &&& b2.side_of(s).bits_wf()
    &&& b2.side_of(s).totals@ == b0.side_of(s).totals@.update(l, (b0.side_of(s).totals@[l] - o.quantity) as u64)
}

proof fn lemma_remove_facts(b0: &OrderBook, s: OrderSide, l: int, pos: int)
    requires
        b0.wf_core(),
        0 <= l < MAX_LEVEL,
        0 <= pos < b0.queue(s, l).members@.len(),
    ensures
        ({
            let n = b0.queue(s, l).members@[pos];
            let o = b0.pool.nodes@[n as int].order;
            &&& b0.queue(s, l).wf_in(b0.pool.nodes@)
            &&& b0.side_of(s).bits_wf()
            &&& b0.member_ok(s, l, n)
            &&& b0.indexed_ok(o.id)
            &&& n < b0.pool.nodes@.len()
            &&& b0.side_of(s).totals@[l] == sum_qty(b0.level_orders(s, l))
            &&& b0.level_orders(s, l)[pos] == o
            &&& b0.side_of(s).totals@[l] >= o.quantity
            &&& b0.view().levels(s)[l] == b0.level_orders(s, l)
        }),
{
    reveal(OrderBook::wf_core);
    let q0 = b0.queue(s, l);
    let n = q0.members@[pos];
    assert(b0.queues_wf(s));
    assert(b0.totals_ok(s));
    assert(b0.members_ok(s));
    assert(b0.member_ok(s, l, n));
    let o = b0.pool.nodes@[n as int].order;
    assert(b0.indexed_ok(o.id));
    crate::matching::lemma_sum_split(b0.level_orders(s, l), pos);
    lemma_sum_nonneg(b0.level_orders(s, l).subrange(0, pos));
    lemma_sum_nonneg(b0.level_orders(s, l).subrange(pos + 1, b0.level_orders(s, l).len() as int));
    b0.lemma_view_level(s, l);
}

proof fn lemma_remove_untouched(b0: &OrderBook, b2: &OrderBook, s: OrderSide, l: int, pos: int, n: usize)
    requires
        remove_effect(b0, b2, s, l, pos, n),
    ensures
        others_untouched(b0, b2, s, l),
{
    reveal(OrderBook::wf_core);
    let q0 = b0.queue(s, l);
    assert(q0.wf_in(b0.pool.nodes@)) by {
        assert(b0.queues_wf(s));
    }
    assert forall|s2: OrderSide, i2: int|
        0 <= i2 < MAX_LEVEL && !(s2 == s && i2 == l) implies #[trigger] b2.queue(s2, i2) == b0.queue(s2, i2) by {
        if s2 != s {
            assert(s2 == s.opposite());
        }
    }
    assert forall|s2: OrderSide, i2: int, k: int|
        0 <= i2 < MAX_LEVEL && !(s2 == s && i2 == l) && 0 <= k < b0.queue(s2, i2).members@.len() implies b2.pool.nodes@[#[trigger] b0.queue(
        s2,
        i2,
    ).members@[k] as int] == b0.pool.nodes@[b0.queue(s2, i2).members@[k] as int] by {
        let m = b0.queue(s2, i2).members@[k];
        assert(b0.queue(s2, i2).wf_in(b0.pool.nodes@)) by {
            assert(b0.queues_wf(s2));
        }
        b0.lemma_member_of_one(s, l, pos, s2, i2, k);
        if pos > 0 {
            b0.lemma_member_of_one(s, l, pos - 1, s2, i2, k);
        }
        if pos + 1 < q0.members@.len() {
            b0.lemma_member_of_one(s, l, pos + 1, s2, i2, k);
        }
    }
}

proof fn lemma_remove_view(b0: &OrderBook, b2: &OrderBook, s: OrderSide, l: int, pos: int, n: usize)
    requires
        remove_effect(b0, b2, s, l, pos, n),
        others_untouched(b0, b2, s, l),
    ensures
        b2.view() == b0.view().with_level(s, l, b0.view().levels(s)[l].remove(pos)),
        forall|s2: OrderSide, i2: int|
            0 <= i2 < MAX_LEVEL && !(s2 == s && i2 == l) ==> (#[trigger] b2.queue(s2, i2)).wf_in(b2.pool.nodes@)
                && b2.level_orders(s2, i2) == b0.level_orders(s2, i2),
        b2.level_orders(s, l) == b0.level_orders(s, l).remove(pos),
{
    reveal(OrderBook::wf_core);
    lemma_others(b0, b2, s, l);
    let q0 = b0.queue(s, l);
    b0.level_orders(s, l).remove_ensures(pos);
    q0.members@.remove_ensures(pos);
    assert(b2.level_orders(s, l) =~= b0.level_orders(s, l).remove(pos));
    b0.lemma_view_level(s, l);
}

proof fn lemma_remove_members(b0: &OrderBook, b2: &OrderBook, s: OrderSide, l: int, pos: int, n: usize)
    requires
        remove_effect(b0, b2, s, l, pos, n),
        forall|s2: OrderSide, i2: int|
            0 <= i2 < MAX_LEVEL && !(s2 == s && i2 == l) ==> (#[trigger] b2.queue(s2, i2)).wf_in(b2.pool.nodes@)
                && b2.queue(s2, i2) == b0.queue(s2, i2),
    ensures
        b2.members_ok(OrderSide::Buy),
        b2.members_ok(OrderSide::Sell),
        b2.queues_wf(OrderSide::Buy),
        b2.queues_wf(OrderSide::Sell),
{
    reveal(OrderBook::wf_core);
    let q0 = b0.queue(s, l);
    let id = b0.pool.nodes@[n as int].order.id;
    lemma_remove_facts(b0, s, l, pos);
    q0.members@.remove_ensures(pos);
    assert forall|s2: OrderSide, i2: int, k: int|
        0 <= i2 < MAX_LEVEL && 0 <= k < b2.queue(s2, i2).members@.len() implies b2.member_ok(
        s2,
        i2,
        #[trigger] b2.queue(s2, i2).members@[k],
    ) by {
        let m = b2.queue(s2, i2).members@[k];
        let k0 = if s2 == s && i2 == l && k >= pos { k + 1 } else { k };
        assert(b0.queue(s2, i2).members@[k0] == m);
        assert(b0.members_ok(s2));
        assert(b0.member_ok(s2, i2, m));
        if m == n {
            if s2 == s && i2 == l {
                assert(q0.wf_in(b0.pool.nodes@));
                assert(k0 != pos);
            } else {
                b0.lemma_member_of_one(s, l, pos, s2, i2, k0);
            }
        }
        let o = b0.pool.nodes@[m as int].order;
        assert(o.id != id);
    }
    assert forall|i: int| 0 <= i < MAX_LEVEL implies (#[trigger] b2.queue(s, i)).wf_in(b2.pool.nodes@) by {}
    assert forall|i: int| 0 <= i < MAX_LEVEL implies (#[trigger] b2.queue(s.opposite(), i)).wf_in(
        b2.pool.nodes@,
    ) by {}
    if s == OrderSide::Buy {
        assert(b2.queues_wf(OrderSide::Buy));
        assert(b2.queues_wf(OrderSide::Sell));
    } else {
        assert(b2.queues_wf(OrderSide::Sell));
        assert(b2.queues_wf(OrderSide::Buy));
    }
}

proof fn lemma_remove_index(b0: &OrderBook, b2: &OrderBook, s: OrderSide, l: int, pos: int, n: usize)
    requires
        remove_effect(b0, b2, s, l, pos, n),
        forall|s2: OrderSide, i2: int|
            0 <= i2 < MAX_LEVEL && !(s2 == s && i2 == l) ==> (#[trigger] b2.queue(s2, i2)) == b0.queue(s2, i2),
    ensures
        b2.index_ok(),
{
    reveal(OrderBook::wf_core);
    let q0 = b0.queue(s, l);
    let id = b0.pool.nodes@[n as int].order.id;
    lemma_remove_facts(b0, s, l, pos);
    q0.members@.remove_ensures(pos);
    assert forall|id2: u64| #[trigger] b2.id_to_index@.contains_key(id2) implies b2.indexed_ok(id2) by {
        assert(b0.indexed_ok(id2));
        let n2 = b0.id_to_index@[id2];
        assert(n2 != n);
        let o = b0.pool.nodes@[n2 as int].order;
        let li = level_of_price(o.price)->0 as int;
        if o.side == s && li == l {
            let j = choose|j: int| 0 <= j < q0.members@.len() && q0.members@[j] == n2;
            assert(j != pos);
            let j2 = if j < pos { j } else { j - 1 };
            assert(b2.queue(s, l).members@[j2] == n2);
        }
        assert(!b2.pool.free_list@.contains(n2)) by {
            if b2.pool.free_list@.contains(n2) {
                let j = choose|j: int| 0 <= j < b2.pool.free_list@.len() && b2.pool.free_list@[j] == n2;
                assert(b0.pool.free_list@[j] == n2);
            }
        }
    }
    assert(b2.id_to_price@.dom() =~= b2.id_to_index@.dom());
}

proof fn lemma_remove_totals(b0: &OrderBook, b2: &OrderBook, s: OrderSide, l: int, pos: int, n: usize)
    requires
        remove_effect(b0, b2, s, l, pos, n),
        forall|s2: OrderSide, i2: int|
            0 <= i2 < MAX_LEVEL && !(s2 == s && i2 == l) ==> b2.level_orders(s2, i2) == b0.level_orders(s2, i2),
        b2.level_orders(s, l) == b0.level_orders(s, l).remove(pos),
    ensures
        b2.totals_ok(OrderSide::Buy),
        b2.totals_ok(OrderSide::Sell),
{
    reveal(OrderBook::wf_core);
    lemma_remove_facts(b0, s, l, pos);
    crate::matching::lemma_sum_remove(b0.level_orders(s, l), pos);
    assert(b0.totals_ok(OrderSide::Buy));
    assert(b0.totals_ok(OrderSide::Sell));
    assert forall|i: int| 0 <= i < MAX_LEVEL implies #[trigger] b2.side_of(s).totals@[i]
        == sum_qty(b2.level_orders(s, i)) by {
        assert(b0.side_of(s).totals@[i] == sum_qty(b0.level_orders(s, i)));
        if i != l {
            assert(b2.level_orders(s, i) == b0.level_orders(s, i));
        }
    }
    assert forall|i: int| 0 <= i < MAX_LEVEL implies #[trigger] b2.side_of(s.opposite()).totals@[i]
        == sum_qty(b2.level_orders(s.opposite(), i)) by {
        assert(b0.side_of(s.opposite()).totals@[i] == sum_qty(b0.level_orders(s.opposite(), i)));
        assert(b2.level_orders(s.opposite(), i) == b0.level_orders(s.opposite(), i));
    }
    if s == OrderSide::Buy {
        assert(b2.totals_ok(OrderSide::Buy));
        assert(b2.totals_ok(OrderSide::Sell));
    } else {
        assert(b2.totals_ok(OrderSide::Sell));
        assert(b2.totals_ok(OrderSide::Buy));
    }
}

impl OrderBook {
    /// Takes the order in slot `node_index`, at position `pos` of level
    /// `level` of side `s`, out of the book.
    fn remove_resting(&mut self, s: OrderSide, level: usize, node_index: usize, pos: Ghost<int>)
        requires
            old(self).wf_core(),
            level < MAX_LEVEL,
            0 <= pos@ < old(self).queue(s, level as int).members@.len(),
            old(self).queue(s, level as int).members@[pos@] == node_index,
        ensures
            final(self).wf_core(),
            final(self).view() == old(self).view().with_level(
                s,
                level as int,
                old(self).view().levels(s)[level as int].remove(pos@),
            ),
            final(self).best_bid_index == old(self).best_bid_index,
            final(self).best_ask_index == old(self).best_ask_index,
            final(self).queue(s, level as int).members@ == old(self).queue(s, level as int).members@.remove(pos@),
            final(self).id_to_index@.dom().subset_of(old(self).id_to_index@.dom()),
            final(self).id_to_index@ == old(self).id_to_index@.remove(old(self).pool.nodes@[node_index as int].order.id),
            final(self).id_to_price@ == old(self).id_to_price@.remove(old(self).pool.nodes@[node_index as int].order.id),
            final(self).pool.free_list@ == old(self).pool.free_list@.push(node_index),
            forall|s2: OrderSide, i2: int|
                0 <= i2 < MAX_LEVEL && !(s2 == s && i2 == level) ==> #[trigger] final(self).queue(s2, i2) == old(self).queue(s2, i2),
    {
        let ghost b0 = *self;
        let ghost l = level as int;
        proof {
            reveal(OrderBook::wf_core);
            lemma_remove_facts(&b0, s, l, pos@);
            lemma_index_of_unique(b0.queue(s, l).members@, pos@);
        }
        let qty = self.pool.nodes[node_index].order.quantity;
        let id = self.pool.nodes[node_index].order.id;
        match s {
            OrderSide::Buy => {
                self.bids.levels[level].unlink(&mut self.pool, node_index);
                proof {
                    b0.bids.lemma_bits_frame(&self.bids);
                }
                self.bids.sub_qty_at(level, qty);
            },
            OrderSide::Sell => {
                self.asks.levels[level].unlink(&mut self.pool, node_index);
                proof {
                    b0.asks.lemma_bits_frame(&self.asks);
                }
                self.asks.sub_qty_at(level, qty);
            },
        }
        self.pool.deallocate(node_index);
        let _ = fx_remove(&mut self.id_to_index, id);
        let _ = fx_remove(&mut self.id_to_price, id);
        proof {
            reveal(OrderBook::wf_core);
            assert(remove_effect(&b0, self, s, l, pos@, node_index));
            lemma_remove_untouched(&b0, self, s, l, pos@, node_index);
            lemma_remove_view(&b0, self, s, l, pos@, node_index);
            lemma_remove_members(&b0, self, s, l, pos@, node_index);
            lemma_remove_index(&b0, self, s, l, pos@, node_index);
            lemma_remove_totals(&b0, self, s, l, pos@, node_index);
        }
    }
}

/// `b2` is `b0` with `t` taken off the order in slot `n`, at position `pos` of
/// level `l` of side `s`, which keeps some quantity.
closed spec fn reduce_effect(b0: &OrderBook, b2: &OrderBook, s: OrderSide, l: int, pos: int, n: usize, t: u64) -> bool {
    let o = b0.pool.nodes@[n as int].order;
    &&& b0.wf_core()
    &&& 0 <= l < MAX_LEVEL
    &&& 0 <= pos < b0.queue(s, l).members@.len()
    &&& b0.queue(s, l).members@[pos] == n
    &&& 0 < t < o.quantity
    &&& b2.pool.nodes@ == b0.pool.nodes@.update(n as int, Node { order: reduced(o, t), ..b0.pool.nodes@[n as int] })
    &&& b2.pool.free_list@ == b0.pool.free_list@
    &&& forall|s2: OrderSide, i2: int| 0 <= i2 < MAX_LEVEL ==> #[trigger] b2.queue(s2, i2) == b0.queue(s2, i2)
    &&& b2.side_of(s.opposite()) == b0.side_of(s.opposite())
    &&& b2.id_to_index@ == b0.id_to_index@
    &&& b2.id_to_price@ == b0.id_to_price@
    &&& b2.side_of(s).bits_wf()
    &&& b2.side_of(s).totals@ == b0.side_of(s).totals@.update(l, (b0.side_of(s).totals@[l] - t) as u64)
}

proof fn lemma_reduce_post(b0: &OrderBook, b2: &OrderBook, s: OrderSide, l: int, pos: int, n: usize, t: u64)
    requires
        reduce_effect(b0, b2, s, l, pos, n, t),
    ensures
        b2.wf_core(),
        b2.view() == b0.view().with_level(s, l, b0.view().levels(s)[l].update(pos, reduced(b0.view().levels(s)[l][pos], t))),
{
    reveal(OrderBook::wf_core);
    lemma_remove_facts(b0, s, l, pos);
    let o = b0.pool.nodes@[n as int].order;
    let q0 = b0.queue(s, l);
    assert(q0.wf_in(b0.pool.nodes@));
    // queues keep their links
    assert forall|s2: OrderSide, i2: int| 0 <= i2 < MAX_LEVEL implies (#[trigger] b2.queue(s2, i2)).wf_in(b2.pool.nodes@) by {
        let q = b0.queue(s2, i2);
        assert(b0.queues_wf(s2));
        assert(q.wf_in(b0.pool.nodes@));
        let sq = q.members@;
        assert forall|k: int| 0 <= k < sq.len() implies (#[trigger] b2.pool.nodes@[sq[k] as int]).next == crate::order_queue::next_of(sq, k)
            && b2.pool.nodes@[sq[k] as int].prev == crate::order_queue::prev_of(sq, k) by {
            assert(b0.pool.nodes@[sq[k] as int].next == crate::order_queue::next_of(sq, k));
        }
    }
    assert(b2.queues_wf(OrderSide::Buy));
    assert(b2.queues_wf(OrderSide::Sell));
    // orders per level
    assert forall|s2: OrderSide, i2: int|
        0 <= i2 < MAX_LEVEL && !(s2 == s && i2 == l) implies #[trigger] b2.level_orders(s2, i2) == b0.level_orders(s2, i2) by {
        let sq = b0.queue(s2, i2).members@;
        assert forall|k: int| 0 <= k < sq.len() implies #[trigger] sq[k] != n by {
            b0.lemma_member_of_one(s, l, pos, s2, i2, k);
        }
        assert(b2.level_orders(s2, i2) =~= b0.level_orders(s2, i2));
    }
    assert(b2.level_orders(s, l) =~= b0.level_orders(s, l).update(pos, reduced(o, t))) by {
        assert forall|k: int| 0 <= k < q0.members@.len() && k != pos implies #[trigger] q0.members@[k] != n by {}
    }
    // members
    assert forall|s2: OrderSide, i2: int, k: int|
        0 <= i2 < MAX_LEVEL && 0 <= k < b2.queue(s2, i2).members@.len() implies b2.member_ok(
        s2,
        i2,
        #[trigger] b2.queue(s2, i2).members@[k],
    ) by {
        let m = b0.queue(s2, i2).members@[k];
        assert(b0.members_ok(s2));
        assert(b0.member_ok(s2, i2, m));
    }
    assert(b2.members_ok(OrderSide::Buy));
    assert(b2.members_ok(OrderSide::Sell));
    // index
    assert forall|id: u64| #[trigger] b2.id_to_index@.contains_key(id) implies b2.indexed_ok(id) by {
        assert(b0.indexed_ok(id));
    }
    assert(b2.index_ok());
    // totals
    crate::matching::lemma_sum_update(b0.level_orders(s, l), pos, reduced(o, t));
    assert(b0.totals_ok(OrderSide::Buy));
    assert(b0.totals_ok(OrderSide::Sell));
    assert forall|i: int| 0 <= i < MAX_LEVEL implies #[trigger] b2.side_of(s).totals@[i]
        == sum_qty(b2.level_orders(s, i)) by {
        assert(b0.side_of(s).totals@[i] == sum_qty(b0.level_orders(s, i)));
    }
    assert forall|i: int| 0 <= i < MAX_LEVEL implies #[trigger] b2.side_of(s.opposite()).totals@[i]
        == sum_qty(b2.level_orders(s.opposite(), i)) by {
        assert(b0.side_of(s.opposite()).totals@[i] == sum_qty(b0.level_orders(s.opposite(), i)));
    }
    if s == OrderSide::Buy {
        assert(b2.totals_ok(OrderSide::Buy));
        assert(b2.totals_ok(OrderSide::Sell));
    } else {
        assert(b2.totals_ok(OrderSide::Sell));
        assert(b2.totals_ok(OrderSide::Buy));
    }
    // view
    let v0 = b0.view();
    let v2 = b2.view();
    let w = v0.with_level(s, l, v0.levels(s)[l].update(pos, reduced(v0.levels(s)[l][pos], t)));
    assert(v2.bids =~= w.bids);
    assert(v2.asks =~= w.asks);
}

impl OrderBook {
    /// Takes `t` off the order in slot `node_index`, at position `pos` of
    /// level `level` of side `s`, which keeps more than `t`.
    fn reduce_resting(&mut self, s: OrderSide, level: usize, node_index: usize, pos: Ghost<int>, t: u64)
        requires
            old(self).wf_core(),
            level < MAX_LEVEL,
            0 <= pos@ < old(self).queue(s, level as int).members@.len(),
            old(self).queue(s, level as int).members@[pos@] == node_index,
            0 < t < old(self).pool.nodes@[node_index as int].order.quantity,
        ensures
            final(self).wf_core(),
            final(self).view() == old(self).view().with_level(
                s,
                level as int,
                old(self).view().levels(s)[level as int].update(
                    pos@,
                    reduced(old(self).view().levels(s)[level as int][pos@], t),
                ),
            ),
            forall|s2: OrderSide, i2: int| 0 <= i2 < MAX_LEVEL ==> #[trigger] final(self).queue(s2, i2) == old(self).queue(s2, i2),
            final(self).id_to_index@.dom().subset_of(old(self).id_to_index@.dom()),
            final(self).best_bid_index == old(self).best_bid_index,
            final(self).best_ask_index == old(self).best_ask_index,
    {
        let ghost b0 = *self;
        let ghost l = level as int;
        proof {
            reveal(OrderBook::wf_core);
            lemma_remove_facts(&b0, s, l, pos@);
        }
        let qty = self.pool.nodes[node_index].order.quantity;
        self.pool.nodes[node_index].order.quantity = qty - t;
        match s {
            OrderSide::Buy => {
                proof {
                    b0.bids.lemma_bits_frame(&self.bids);
                }
                self.bids.sub_qty_at(level, t);
            },
            OrderSide::Sell => {
                proof {
                    b0.asks.lemma_bits_frame(&self.asks);
                }
                self.asks.sub_qty_at(level, t);
            },
        }
        proof {
            assert(self.pool.nodes@ =~= b0.pool.nodes@.update(node_index as int, Node { order: reduced(b0.pool.nodes@[node_index as int].order, t), ..b0.pool.nodes@[node_index as int] }));
            assert(reduce_effect(&b0, self, s, l, pos@, node_index, t));
            lemma_reduce_post(&b0, self, s, l, pos@, node_index, t);
        }
    }
}

impl OrderBook {
    /// The front slot of level `level` of side `s`.
    fn level_head(&self, s: OrderSide, level: usize) -> (r: Option<usize>)
        requires
            level < MAX_LEVEL,
        ensures
            r == self.queue(s, level as int).head,
    {
        match s {
            OrderSide::Buy => self.bids.levels[level].head,
            OrderSide::Sell => self.asks.levels[level].head,
        }
    }

    /// The queue of a level is empty exactly when its view is.
    proof fn lemma_head_empty(&self, s: OrderSide, l: int)
        requires
            self.wf_core(),
            0 <= l < MAX_LEVEL,
        ensures
            self.queue(s, l).head is None <==> self.view().levels(s)[l].len() == 0,
            self.queue(s, l).wf_in(self.pool.nodes@),
    {
        reveal(OrderBook::wf_core);
        assert(self.queues_wf(s));
        self.lemma_view_level(s, l);
    }

    /// What the slot at position `pos` of a level holds.
    proof fn lemma_node_at(&self, s: OrderSide, l: int, pos: int)
        requires
            self.wf_core(),
            0 <= l < MAX_LEVEL,
            0 <= pos < self.queue(s, l).members@.len(),
        ensures
            ({
                let q = self.queue(s, l);
                let n = q.members@[pos];
                &&& n < self.pool.nodes@.len()
                &&& self.pool.nodes@[n as int].order == self.view().levels(s)[l][pos]
                &&& self.pool.nodes@[n as int].next == crate::order_queue::next_of(q.members@, pos)
                &&& self.pool.nodes@[n as int].order.quantity > 0
                &&& self.view().levels(s)[l].len() == q.members@.len()
            }),
    {
        reveal(OrderBook::wf_core);
        assert(self.queues_wf(s));
        assert(self.members_ok(s));
        let q = self.queue(s, l);
        assert(self.member_ok(s, l, q.members@[pos]));
        self.lemma_view_level(s, l);
    }

    /// Sweeps level `level` of side `s` with `taker`, which wants `rem`:
    /// front first, the taker's own orders passed over, each other order
    /// traded down by the smaller quantity and dropped when nothing is left.
    fn sweep_level(&mut self, s: OrderSide, level: usize, taker: &Order, rem: u64, trades: &mut Vec<Trade>) -> (r: u64)
        requires
            old(self).wf_core(),
            level < MAX_LEVEL,
        ensures
            final(self).wf_core(),
            ({
                let sw = sweep(old(self).view().levels(s)[level as int], *taker, rem);
                &&& final(self).view() == old(self).view().with_level(s, level as int, sw.0)
                &&& final(trades)@ == old(trades)@ + sw.1
                &&& r == sw.2
            }),
            final(self).best_bid_index == old(self).best_bid_index,
            final(self).best_ask_index == old(self).best_ask_index,
            final(self).id_to_index@.dom().subset_of(old(self).id_to_index@.dom()),
    {
        let ghost b0 = *self;
        let ghost l = level as int;
        let ghost s0 = b0.queue(s, l).members@;
        let ghost o0 = b0.view().levels(s)[l];
        let ghost t0 = trades@;
        proof {
            b0.lemma_head_empty(s, l);
            b0.lemma_view_level(s, l);
            assert(o0.len() == s0.len());
            assert(b0.view().with_level(s, l, sweep_prefix(o0, 0, *taker, rem).0 + o0.subrange(0, o0.len() as int)) == b0.view()) by {
                assert(sweep_prefix(o0, 0, *taker, rem).0 + o0.subrange(0, o0.len() as int) =~= o0);
                assert(b0.view().bids =~= b0.view().with_level(s, l, o0).bids);
                assert(b0.view().asks =~= b0.view().with_level(s, l, o0).asks);
            }
            assert(Seq::<usize>::empty() + s0.subrange(0, s0.len() as int) =~= s0);
        }
        let mut remaining = rem;
        let mut current = self.level_head(s, level);
        let ghost mut kept: Seq<usize> = Seq::empty();
        let ghost mut k: int = 0;
        while remaining > 0 && current.is_some()
            invariant
                self.wf_core(),
                level < MAX_LEVEL,
                l == level,
                self.best_bid_index == b0.best_bid_index,
                self.best_ask_index == b0.best_ask_index,
                self.id_to_index@.dom().subset_of(b0.id_to_index@.dom()),
                0 <= k <= s0.len(),
                s0.len() == o0.len(),
                s0 == b0.queue(s, l).members@,
                o0 == b0.view().levels(s)[l],
                self.queue(s, l).members@ == kept + s0.subrange(k, s0.len() as int),
                kept.len() == sweep_prefix(o0, k, *taker, rem).0.len(),
                self.view() == b0.view().with_level(s, l, sweep_prefix(o0, k, *taker, rem).0 + o0.subrange(k, o0.len() as int)),
                trades@ == t0 + sweep_prefix(o0, k, *taker, rem).1,
                remaining == sweep_prefix(o0, k, *taker, rem).2,
                current == (if k < s0.len() { Some(s0[k]) } else { None::<usize> }),
            decreases s0.len() - k,
        {
            let node_idx = current.unwrap();
            let ghost pos = kept.len() as int;
            let ghost cur_level = sweep_prefix(o0, k, *taker, rem).0 + o0.subrange(k, o0.len() as int);
            proof {
                self.lemma_head_empty(s, l);
                assert(self.queue(s, l).members@[pos] == node_idx);
                self.lemma_node_at(s, l, pos);
                assert(cur_level[pos] == o0[k]);
                lemma_with_level(b0.view(), s, l, cur_level, cur_level);
                assert(self.view().levels(s)[l] == cur_level);
            }
            let maker = self.pool.nodes[node_idx].order;
            let next_node = self.pool.nodes[node_idx].next;
            proof {
                assert(maker == o0[k]);
                assert(next_node == (if k + 1 < s0.len() { Some(s0[k + 1]) } else { None::<usize> }));
            }
            if maker.user_id == taker.user_id {
                proof {
                    assert(sweep_prefix(o0, k + 1, *taker, rem).0 =~= sweep_prefix(o0, k, *taker, rem).0.push(o0[k]));
                    assert(sweep_prefix(o0, k + 1, *taker, rem).0 + o0.subrange(k + 1, o0.len() as int) =~= cur_level);
                    assert(kept.push(node_idx) + s0.subrange(k + 1, s0.len() as int) =~= kept + s0.subrange(k, s0.len() as int));
                    kept = kept.push(node_idx);
                    k = k + 1;
                }
            } else {
                let trade_qty = if remaining <= maker.quantity { remaining } else { maker.quantity };
                remaining = remaining - trade_qty;
                trades.push(Trade {
                    taker_order_id: taker.id,
                    maker_order_id: maker.id,
                    price: maker.price,
                    quantity: trade_qty,
                    taker_side: taker.side,
                    timestamp: taker.timestamp,
                });
                proof {
                    assert(trade_qty > 0);
                }
                if trade_qty == maker.quantity {
                    self.remove_resting(s, level, node_idx, Ghost(pos));
                    proof {
                        let nl = sweep_prefix(o0, k + 1, *taker, rem).0 + o0.subrange(k + 1, o0.len() as int);
                        assert(nl =~= cur_level.remove(pos));
                        lemma_with_level(b0.view(), s, l, cur_level, nl);
                        assert(kept + s0.subrange(k + 1, s0.len() as int) =~= (kept + s0.subrange(k, s0.len() as int)).remove(pos));
                        k = k + 1;
                    }
                } else {
                    self.reduce_resting(s, level, node_idx, Ghost(pos), trade_qty);
                    proof {
                        let nl = sweep_prefix(o0, k + 1, *taker, rem).0 + o0.subrange(k + 1, o0.len() as int);
                        assert(nl =~= cur_level.update(pos, reduced(cur_level[pos], trade_qty)));
                        lemma_with_level(b0.view(), s, l, cur_level, nl);
                        assert(kept.push(node_idx) + s0.subrange(k + 1, s0.len() as int) =~= kept + s0.subrange(k, s0.len() as int));
                        kept = kept.push(node_idx);
                        k = k + 1;
                    }
                }
            }
            current = next_node;
        }
        proof {
            if k < o0.len() {
                lemma_sweep_done(o0, k, o0.len() as int, *taker, rem);
            } else {
                assert(sweep_prefix(o0, k, *taker, rem).0 + o0.subrange(k, o0.len() as int) =~= sweep_prefix(o0, k, *taker, rem).0);
            }
        }
        remaining
    }
}

impl OrderBook {
    /// The bitmaps of both sides are consistent.
    proof fn lemma_bits(&self)
        requires
            self.wf_core(),
        ensures
            self.bids.bits_wf(),
            self.asks.bits_wf(),
    {
        reveal(OrderBook::wf_core);
        assert(self.totals_ok(OrderSide::Buy));
        assert(self.totals_ok(OrderSide::Sell));
    }

    /// Levels with no total hold no order.
    proof fn lemma_empty_range(&self, s: OrderSide, a: int, b: int)
        requires
            self.wf_core(),
            self.side_of(s).empty_between(a, b),
        ensures
            forall|k: int| a <= k < b && 0 <= k < MAX_LEVEL ==> (#[trigger] self.view().levels(s)[k]).len() == 0,
            forall|k: int| a <= k < b && 0 <= k < MAX_LEVEL ==> (#[trigger] self.view().bids[k]).len() == 0 || s != OrderSide::Buy,
            forall|k: int| a <= k < b && 0 <= k < MAX_LEVEL ==> (#[trigger] self.view().asks[k]).len() == 0 || s != OrderSide::Sell,
    {
        assert forall|k: int| a <= k < b && 0 <= k < MAX_LEVEL implies (#[trigger] self.view().levels(s)[k]).len() == 0 by {
            self.lemma_totals(s, k);
        }
    }

    /// A buy order matched against the asks, lowest level first.
    fn match_asks(&mut self, taker: &Order, trades: &mut Vec<Trade>) -> (r: u64)
        requires
            old(self).wf_core(),
            taker.side == OrderSide::Buy,
        ensures
            final(self).wf_core(),
            ({
                let c = cross_up(old(self).view().asks, 0, *taker, taker.quantity);
                &&& final(self).view() == (BookView { asks: c.0, ..old(self).view() })
                &&& final(trades)@ == old(trades)@ + c.1
                &&& r == c.2
            }),
            final(self).best_bid_index == old(self).best_bid_index,
            final(self).best_ask_index == old(self).best_ask_index,
            final(self).id_to_index@.dom().subset_of(old(self).id_to_index@.dom()),
    {
        let ghost v0 = self.view();
        let ghost t0 = trades@;
        let ghost q = taker.quantity;
        let ghost b0 = *self;
        let mut remaining = taker.quantity;
        proof {
            self.lemma_bits();
        }
        let mut current_level = self.asks.find_next_non_empty_from(0);
        let mut stop = false;
        proof {
            let s = OrderSide::Sell;
            match current_level {
                Some(j) => {
                    self.lemma_empty_range(s, 0, j as int);
                    self.lemma_totals(s, j as int);
                    lemma_cross_up_skip(v0.asks, 0, j as int, *taker, q);
                },
                None => {
                    self.lemma_empty_range(s, 0, MAX_LEVEL as int);
                    lemma_cross_up_skip(v0.asks, 0, MAX_LEVEL as int, *taker, q);
                },
            }
            assert(t0 + cross_up(v0.asks, 0, *taker, q).1 =~= trades@ + cross_up(v0.asks, 0, *taker, q).1);
        }
        while !stop && current_level.is_some()
            invariant
                self.wf_core(),
                taker.side == OrderSide::Buy,
                self.best_bid_index == b0.best_bid_index,
                self.best_ask_index == b0.best_ask_index,
                self.id_to_index@.dom().subset_of(b0.id_to_index@.dom()),
                self.view().bids == v0.bids,
                v0.asks.len() == MAX_LEVEL,
                current_level matches Some(l) ==> l < MAX_LEVEL && self.view().asks[l as int].len() > 0,
                ({
                    let cl = match current_level {
                        Some(l) => l as int,
                        None => MAX_LEVEL as int,
                    };
                    let rest = if stop {
                        (self.view().asks, Seq::<Trade>::empty(), remaining)
                    } else {
                        cross_up(self.view().asks, cl, *taker, remaining)
                    };
                    let c = cross_up(v0.asks, 0, *taker, q);
                    &&& c.0 == rest.0
                    &&& t0 + c.1 == trades@ + rest.1
                    &&& c.2 == rest.2
                }),
            decreases (if stop {
                0int
            } else {
                MAX_LEVEL + 1 - match current_level {
                    Some(l) => l as int,
                    None => MAX_LEVEL as int,
                }
            }),
        {
            let level_idx = current_level.unwrap();
            let ghost a = self.view().asks;
            let ghost tr = trades@;
            let level_price = PriceLevel::get_price_from_index(level_idx);
            if !(taker.price.0 >= level_price.0) || remaining == 0 {
                stop = true;
                proof {
                    assert(trades@ + Seq::<Trade>::empty() =~= trades@);
                }
            } else {
                let ghost rem0 = remaining;
                remaining = self.sweep_level(OrderSide::Sell, level_idx, taker, remaining, trades);
                let ghost sw = sweep(a[level_idx as int], *taker, rem0);
                proof {
                    lemma_with_level(self.view(), OrderSide::Sell, level_idx as int, sw.0, sw.0);
                    self.lemma_head_empty(OrderSide::Sell, level_idx as int);
                    assert(self.view().asks =~= a.update(level_idx as int, sw.0));
                }
                proof {
                    self.lemma_bits();
                }
                if self.asks.levels[level_idx].head.is_none() || (taker.order_type == OrderType::FOK && remaining > 0) {
                    current_level = self.asks.find_next_non_empty_from(level_idx + 1);
                    proof {
                        let a2 = self.view().asks;
                        match current_level {
                            Some(j) => {
                                self.lemma_empty_range(OrderSide::Sell, level_idx + 1, j as int);
                                self.lemma_totals(OrderSide::Sell, j as int);
                                lemma_cross_up_skip(a2, level_idx + 1, j as int, *taker, remaining);
                            },
                            None => {
                                self.lemma_empty_range(OrderSide::Sell, level_idx + 1, MAX_LEVEL as int);
                                lemma_cross_up_skip(a2, level_idx + 1, MAX_LEVEL as int, *taker, remaining);
                            },
                        }
                        let rest = cross_up(a2, level_idx + 1, *taker, remaining);
                        assert(tr + (sw.1 + rest.1) =~= (tr + sw.1) + rest.1);
                    }
                } else {
                    stop = true;
                    proof {
                        assert(trades@ + Seq::<Trade>::empty() =~= trades@);
                    }
                }
            }
        }
        proof {
            let c = cross_up(v0.asks, 0, *taker, q);
            assert(trades@ + Seq::<Trade>::empty() =~= trades@);
            assert(self.view() =~= (BookView { asks: c.0, ..v0 }));
        }
        remaining
    }

    /// A sell order matched against the bids, highest level first.
    fn match_bids(&mut self, taker: &Order, trades: &mut Vec<Trade>) -> (r: u64)
        requires
            old(self).wf_core(),
            taker.side == OrderSide::Sell,
        ensures
            final(self).wf_core(),
            ({
                let c = cross_down(old(self).view().bids, MAX_LEVEL - 1, *taker, taker.quantity);
                &&& final(self).view() == (BookView { bids: c.0, ..old(self).view() })
                &&& final(trades)@ == old(trades)@ + c.1
                &&& r == c.2
            }),
            final(self).best_bid_index == old(self).best_bid_index,
            final(self).best_ask_index == old(self).best_ask_index,
            final(self).id_to_index@.dom().subset_of(old(self).id_to_index@.dom()),
    {
        let ghost v0 = self.view();
        let ghost t0 = trades@;
        let ghost q = taker.quantity;
        let ghost b0 = *self;
        let mut remaining = taker.quantity;
        proof {
            self.lemma_bits();
        }
        let mut current_level = self.bids.find_prev_non_empty_from(MAX_LEVEL - 1);
        let mut stop = false;
        proof {
            let s = OrderSide::Buy;
            match current_level {
                Some(j) => {
                    self.lemma_empty_range(s, j as int + 1, MAX_LEVEL as int);
                    self.lemma_totals(s, j as int);
                    lemma_cross_down_skip(v0.bids, MAX_LEVEL - 1, j as int, *taker, q);
                },
                None => {
                    self.lemma_empty_range(s, 0, MAX_LEVEL as int);
                    lemma_cross_down_skip(v0.bids, MAX_LEVEL - 1, -1, *taker, q);
                },
            }
            assert(t0 + cross_down(v0.bids, MAX_LEVEL - 1, *taker, q).1 =~= trades@ + cross_down(v0.bids, MAX_LEVEL - 1, *taker, q).1);
        }
        while !stop && current_level.is_some()
            invariant
                self.wf_core(),
                taker.side == OrderSide::Sell,
                self.best_bid_index == b0.best_bid_index,
                self.best_ask_index == b0.best_ask_index,
                self.id_to_index@.dom().subset_of(b0.id_to_index@.dom()),
                self.view().asks == v0.asks,
                v0.bids.len() == MAX_LEVEL,
                current_level matches Some(l) ==> l < MAX_LEVEL && self.view().bids[l as int].len() > 0,
                ({
                    let cl = match current_level {
                        Some(l) => l as int,
                        None => -1int,
                    };
                    let rest = if stop {
                        (self.view().bids, Seq::<Trade>::empty(), remaining)
                    } else {
                        cross_down(self.view().bids, cl, *taker, remaining)
                    };
                    let c = cross_down(v0.bids, MAX_LEVEL - 1, *taker, q);
                    &&& c.0 == rest.0
                    &&& t0 + c.1 == trades@ + rest.1
                    &&& c.2 == rest.2
                }),
            decreases (if stop {
                0int
            } else {
                2 + match current_level {
                    Some(l) => l as int,
                    None => -1int,
                }
            }),
        {
            let level_idx = current_level.unwrap();
            let ghost a = self.view().bids;
            let ghost tr = trades@;
            let level_price = PriceLevel::get_price_from_index(level_idx);
            if !(taker.price.0 <= level_price.0) || remaining == 0 {
                stop = true;
                proof {
                    assert(trades@ + Seq::<Trade>::empty() =~= trades@);
                }
            } else {
                let ghost rem0 = remaining;
                remaining = self.sweep_level(OrderSide::Buy, level_idx, taker, remaining, trades);
                let ghost sw = sweep(a[level_idx as int], *taker, rem0);
                proof {
                    lemma_with_level(self.view(), OrderSide::Buy, level_idx as int, sw.0, sw.0);
                    self.lemma_head_empty(OrderSide::Buy, level_idx as int);
                    assert(self.view().bids =~= a.update(level_idx as int, sw.0));
                }
                proof {
                    self.lemma_bits();
                }
                if self.bids.levels[level_idx].head.is_none() || (taker.order_type == OrderType::FOK && remaining > 0) {
                    if level_idx > 0 {
                        current_level = self.bids.find_prev_non_empty_from(level_idx - 1);
                    } else {
                        current_level = None;
                    }
                    proof {
                        let a2 = self.view().bids;
                        match current_level {
                            Some(j) => {
                                self.lemma_empty_range(OrderSide::Buy, j as int + 1, level_idx as int);
                                self.lemma_totals(OrderSide::Buy, j as int);
                                lemma_cross_down_skip(a2, level_idx - 1, j as int, *taker, remaining);
                            },
                            None => {
                                if level_idx > 0 {
                                    self.lemma_empty_range(OrderSide::Buy, 0, level_idx as int);
                                }
                                lemma_cross_down_skip(a2, level_idx - 1, -1, *taker, remaining);
                            },
                        }
                        let rest = cross_down(a2, level_idx - 1, *taker, remaining);
                        assert(tr + (sw.1 + rest.1) =~= (tr + sw.1) + rest.1);
                    }
                } else {
                    stop = true;
                    proof {
                        assert(trades@ + Seq::<Trade>::empty() =~= trades@);
                    }
                }
            }
        }
        proof {
            let c = cross_down(v0.bids, MAX_LEVEL - 1, *taker, q);
            assert(trades@ + Seq::<Trade>::empty() =~= trades@);
            assert(self.view() =~= (BookView { bids: c.0, ..v0 }));
        }
        remaining
    }
}

impl OrderBook {
    /// What `taker` would still want after sweeping level `level` of side
    /// `s`, read without touching the book.
    fn level_unfilled(&self, s: OrderSide, level: usize, taker: &Order, rem: u64) -> (r: u64)
        requires
            self.wf_core(),
            level < MAX_LEVEL,
        ensures
            r == sweep(self.view().levels(s)[level as int], *taker, rem).2,
    {
        let ghost l = level as int;
        let ghost s0 = self.queue(s, l).members@;
        let ghost o0 = self.view().levels(s)[l];
        proof {
            self.lemma_head_empty(s, l);
            if s0.len() > 0 {
                self.lemma_node_at(s, l, 0);
            } else {
                self.lemma_view_level(s, l);
            }
        }
        let mut remaining = rem;
        let mut current = self.level_head(s, level);
        let ghost mut k: int = 0;
        while remaining > 0 && current.is_some()
            invariant
                self.wf_core(),
                l == level,
                level < MAX_LEVEL,
                0 <= k <= s0.len(),
                s0 == self.queue(s, l).members@,
                o0 == self.view().levels(s)[l],
                o0.len() == s0.len(),
                remaining == sweep_prefix(o0, k, *taker, rem).2,
                current == (if k < s0.len() { Some(s0[k]) } else { None::<usize> }),
            decreases s0.len() - k,
        {
            let node_idx = current.unwrap();
            proof {
                self.lemma_node_at(s, l, k);
            }
            let maker = self.pool.nodes[node_idx].order;
            if maker.user_id != taker.user_id {
                let trade_qty = if remaining <= maker.quantity { remaining } else { maker.quantity };
                remaining = remaining - trade_qty;
            }
            current = self.pool.nodes[node_idx].next;
            proof {
                k = k + 1;
            }
        }
        proof {
            if k < o0.len() {
                lemma_sweep_done(o0, k, o0.len() as int, *taker, rem);
            }
        }
        remaining
    }

    /// Whether an order of `user` rests at level `level` of side `s`.
    fn level_has_user(&self, s: OrderSide, level: usize, user: u64) -> (r: bool)
        requires
            self.wf_core(),
            level < MAX_LEVEL,
        ensures
            r == exists|k: int|
                0 <= k < self.view().levels(s)[level as int].len() && (#[trigger] self.view().levels(s)[level as int][k]).user_id
                    == user,
    {
        let ghost l = level as int;
        let ghost s0 = self.queue(s, l).members@;
        let ghost o0 = self.view().levels(s)[l];
        proof {
            self.lemma_head_empty(s, l);
            if s0.len() > 0 {
                self.lemma_node_at(s, l, 0);
            } else {
                self.lemma_view_level(s, l);
            }
        }
        let mut current = self.level_head(s, level);
        let ghost mut k: int = 0;
        while current.is_some()
            invariant
                self.wf_core(),
                l == level,
                level < MAX_LEVEL,
                0 <= k <= s0.len(),
                s0 == self.queue(s, l).members@,
                o0 == self.view().levels(s)[l],
                o0.len() == s0.len(),
                forall|j: int| 0 <= j < k ==> (#[trigger] o0[j]).user_id != user,
                current == (if k < s0.len() { Some(s0[k]) } else { None::<usize> }),
            decreases s0.len() - k,
        {
            let node_idx = current.unwrap();
            proof {
                self.lemma_node_at(s, l, k);
            }
            if self.pool.nodes[node_idx].order.user_id == user {
                proof {
                    assert(o0[k].user_id == user);
                }
                return true;
            }
            current = self.pool.nodes[node_idx].next;
            proof {
                k = k + 1;
            }
        }
        false
    }

    /// What `taker` would still want after crossing the opposite side,
    /// the book left untouched.
    fn rest_after_cross(&self, taker: &Order) -> (rest: u64)
        requires
            self.wf_core(),
        ensures
            rest == self.view().cross(*taker).2,
    {
        let ghost v = self.view();
        proof {
            self.lemma_bits();
            self.lemma_view_level(OrderSide::Sell, 0);
            self.lemma_view_level(OrderSide::Buy, 0);
        }
        let mut remaining = taker.quantity;
        if taker.side == OrderSide::Buy {
            let mut current_level = self.asks.find_next_non_empty_from(0);
            proof {
                match current_level {
                    Some(j) => {
                        self.lemma_empty_range(OrderSide::Sell, 0, j as int);
                        self.lemma_totals(OrderSide::Sell, j as int);
                        lemma_cross_up_skip(v.asks, 0, j as int, *taker, taker.quantity);
                    },
                    None => {
                        self.lemma_empty_range(OrderSide::Sell, 0, MAX_LEVEL as int);
                        lemma_cross_up_skip(v.asks, 0, MAX_LEVEL as int, *taker, taker.quantity);
                    },
                }
            }
            let mut stop = false;
            while !stop && current_level.is_some()
                invariant
                    self.wf_core(),
                    v == self.view(),
                    v.asks.len() == MAX_LEVEL,
                    taker.side == OrderSide::Buy,
                    current_level matches Some(l) ==> l < MAX_LEVEL && v.asks[l as int].len() > 0,
                    ({
                        let cl = match current_level {
                            Some(l) => l as int,
                            None => MAX_LEVEL as int,
                        };
                        cross_up(v.asks, 0, *taker, taker.quantity).2 == if stop {
                            remaining
                        } else {
                            cross_up(v.asks, cl, *taker, remaining).2
                        }
                    }),
                decreases (if stop {
                    0int
                } else {
                    MAX_LEVEL + 1 - match current_level {
                        Some(l) => l as int,
                        None => MAX_LEVEL as int,
                    }
                }),
            {
                let level_idx = current_level.unwrap();
                let level_price = PriceLevel::get_price_from_index(level_idx);
                if !(taker.price.0 >= level_price.0) || remaining == 0 {
                    stop = true;
                } else {
                    let ghost rem0 = remaining;
                    let ghost q = v.asks[level_idx as int];
                    let ghost sw = sweep(q, *taker, rem0);
                    proof {
                        lemma_sweep_kept_all(q, *taker, rem0);
                    }
                    let after = self.level_unfilled(OrderSide::Sell, level_idx, taker, remaining);
                    if after == 0 {
                        proof {
                            if passes_on(*taker, sw) {
                                lemma_cross_up_rest_below(v.asks, level_idx as int, sw.0, level_idx + 1, *taker, 0);
                                lemma_cross_zero(v.asks, level_idx + 1, *taker);
                            }
                        }
                        remaining = 0;
                        stop = true;
                    } else {
                        let own = self.level_has_user(OrderSide::Sell, level_idx, taker.user_id);
                        proof {
                            if !own && sw.0.len() > 0 {
                                let j = choose|j: int| 0 <= j < q.len() && crate::matching::kept_of(sw.0[0], q[j]);
                                assert(q[j].user_id == taker.user_id);
                            }
                            assert(passes_on(*taker, sw) == (!own || taker.order_type == OrderType::FOK));
                        }
                        remaining = after;
                        if own && taker.order_type != OrderType::FOK {
                            stop = true;
                        } else {
                            proof {
                                lemma_cross_up_rest_below(v.asks, level_idx as int, sw.0, level_idx + 1, *taker, after);
                                self.lemma_bits();
                            }
                            current_level = self.asks.find_next_non_empty_from(level_idx + 1);
                            proof {
                                match current_level {
                                    Some(j) => {
                                        self.lemma_empty_range(OrderSide::Sell, level_idx + 1, j as int);
                                        self.lemma_totals(OrderSide::Sell, j as int);
                                        lemma_cross_up_skip(v.asks, level_idx + 1, j as int, *taker, remaining);
                                    },
                                    None => {
                                        self.lemma_empty_range(OrderSide::Sell, level_idx + 1, MAX_LEVEL as int);
                                        lemma_cross_up_skip(v.asks, level_idx + 1, MAX_LEVEL as int, *taker, remaining);
                                    },
                                }
                            }
                        }
                    }
                }
            }
        } else {
            let mut current_level = self.bids.find_prev_non_empty_from(MAX_LEVEL - 1);
            proof {
                match current_level {
                    Some(j) => {
                        self.lemma_empty_range(OrderSide::Buy, j as int + 1, MAX_LEVEL as int);
                        self.lemma_totals(OrderSide::Buy, j as int);
                        lemma_cross_down_skip(v.bids, MAX_LEVEL - 1, j as int, *taker, taker.quantity);
                    },
                    None => {
                        self.lemma_empty_range(OrderSide::Buy, 0, MAX_LEVEL as int);
                        lemma_cross_down_skip(v.bids, MAX_LEVEL - 1, -1, *taker, taker.quantity);
                    },
                }
            }
            let mut stop = false;
            while !stop && current_level.is_some()
                invariant
                    self.wf_core(),
                    v == self.view(),
                    v.bids.len() == MAX_LEVEL,
                    taker.side == OrderSide::Sell,
                    current_level matches Some(l) ==> l < MAX_LEVEL && v.bids[l as int].len() > 0,
                    ({
                        let cl = match current_level {
                            Some(l) => l as int,
                            None => -1int,
                        };
                        cross_down(v.bids, MAX_LEVEL - 1, *taker, taker.quantity).2 == if stop {
                            remaining
                        } else {
                            cross_down(v.bids, cl, *taker, remaining).2
                        }
                    }),
                decreases (if stop {
                    0int
                } else {
                    2 + match current_level {
                        Some(l) => l as int,
                        None => -1int,
                    }
                }),
            {
                let level_idx = current_level.unwrap();
                let level_price = PriceLevel::get_price_from_index(level_idx);
                if !(taker.price.0 <= level_price.0) || remaining == 0 {
                    stop = true;
                } else {
                    let ghost rem0 = remaining;
                    let ghost q = v.bids[level_idx as int];
                    let ghost sw = sweep(q, *taker, rem0);
                    proof {
                        lemma_sweep_kept_all(q, *taker, rem0);
                    }
                    let after = self.level_unfilled(OrderSide::Buy, level_idx, taker, remaining);
                    if after == 0 {
                        proof {
                            if passes_on(*taker, sw) {
                                lemma_cross_down_rest_above(v.bids, level_idx as int, sw.0, level_idx - 1, *taker, 0);
                                lemma_cross_zero(v.bids, level_idx - 1, *taker);
                            }
                        }
                        remaining = 0;
                        stop = true;
                    } else {
                        let own = self.level_has_user(OrderSide::Buy, level_idx, taker.user_id);
                        proof {
                            if !own && sw.0.len() > 0 {
                                let j = choose|j: int| 0 <= j < q.len() && crate::matching::kept_of(sw.0[0], q[j]);
                                assert(q[j].user_id == taker.user_id);
                            }
                            assert(passes_on(*taker, sw) == (!own || taker.order_type == OrderType::FOK));
                        }
                        remaining = after;
                        if own && taker.order_type != OrderType::FOK {
                            stop = true;
                        } else {
                            proof {
                                lemma_cross_down_rest_above(v.bids, level_idx as int, sw.0, level_idx - 1, *taker, after);
                                self.lemma_bits();
                            }
                            if level_idx > 0 {
                                current_level = self.bids.find_prev_non_empty_from(level_idx - 1);
                            } else {
                                current_level = None;
                            }
                            proof {
                                match current_level {
                                    Some(j) => {
                                        self.lemma_empty_range(OrderSide::Buy, j as int + 1, level_idx as int);
                                        self.lemma_totals(OrderSide::Buy, j as int);
                                        lemma_cross_down_skip(v.bids, level_idx - 1, j as int, *taker, remaining);
                                    },
                                    None => {
                                        if level_idx > 0 {
                                            self.lemma_empty_range(OrderSide::Buy, 0, level_idx as int);
                                        }
                                        lemma_cross_down_skip(v.bids, level_idx - 1, -1, *taker, remaining);
                                    },
                                }
                            }
                        }
                    }
                }
            }
        }
        remaining
    }

    /// How much of `taker` the opposite side could fill within its limit,
    /// the book left untouched.
    fn check_available(&self, taker: &Order) -> (filled: u64)
        requires
            self.wf_core(),
        ensures
            filled == taker.quantity - self.view().unfilled(*taker),
    {
        let ghost v = self.view();
        proof {
            self.lemma_bits();
            crate::matching::lemma_avail_le(v.asks, 0, *taker, taker.quantity);
            crate::matching::lemma_avail_le(v.bids, MAX_LEVEL - 1, *taker, taker.quantity);
        }
        let mut remaining = taker.quantity;
        if taker.side == OrderSide::Buy {
            let mut current_level = self.asks.find_next_non_empty_from(0);
            proof {
                match current_level {
                    Some(j) => {
                        self.lemma_empty_range(OrderSide::Sell, 0, j as int);
                        self.lemma_totals(OrderSide::Sell, j as int);
                        lemma_cross_up_skip(v.asks, 0, j as int, *taker, taker.quantity);
                    },
                    None => {
                        self.lemma_empty_range(OrderSide::Sell, 0, MAX_LEVEL as int);
                        lemma_cross_up_skip(v.asks, 0, MAX_LEVEL as int, *taker, taker.quantity);
                    },
                }
            }
            let mut stop = false;
            while !stop && current_level.is_some()
                invariant
                    self.wf_core(),
                    v == self.view(),
                    taker.side == OrderSide::Buy,
                    current_level matches Some(l) ==> l < MAX_LEVEL && v.asks[l as int].len() > 0,
                    ({
                        let cl = match current_level {
                            Some(l) => l as int,
                            None => MAX_LEVEL as int,
                        };
                        avail_up(v.asks, 0, *taker, taker.quantity) == if stop {
                            remaining
                        } else {
                            avail_up(v.asks, cl, *taker, remaining)
                        }
                    }),
                decreases (if stop {
                    0int
                } else {
                    MAX_LEVEL + 1 - match current_level {
                        Some(l) => l as int,
                        None => MAX_LEVEL as int,
                    }
                }),
            {
                let level_idx = current_level.unwrap();
                let level_price = PriceLevel::get_price_from_index(level_idx);
                if !(taker.price.0 >= level_price.0) || remaining == 0 {
                    stop = true;
                } else {
                    remaining = self.level_unfilled(OrderSide::Sell, level_idx, taker, remaining);
                    proof {
                        self.lemma_bits();
                    }
                    current_level = self.asks.find_next_non_empty_from(level_idx + 1);
                    proof {
                        match current_level {
                            Some(j) => {
                                self.lemma_empty_range(OrderSide::Sell, level_idx + 1, j as int);
                                self.lemma_totals(OrderSide::Sell, j as int);
                                lemma_cross_up_skip(v.asks, level_idx + 1, j as int, *taker, remaining);
                            },
                            None => {
                                self.lemma_empty_range(OrderSide::Sell, level_idx + 1, MAX_LEVEL as int);
                                lemma_cross_up_skip(v.asks, level_idx + 1, MAX_LEVEL as int, *taker, remaining);
                            },
                        }
                    }
                }
            }
        } else {
            let mut current_level = self.bids.find_prev_non_empty_from(MAX_LEVEL - 1);
            proof {
                match current_level {
                    Some(j) => {
                        self.lemma_empty_range(OrderSide::Buy, j as int + 1, MAX_LEVEL as int);
                        self.lemma_totals(OrderSide::Buy, j as int);
                        lemma_cross_down_skip(v.bids, MAX_LEVEL - 1, j as int, *taker, taker.quantity);
                    },
                    None => {
                        self.lemma_empty_range(OrderSide::Buy, 0, MAX_LEVEL as int);
                        lemma_cross_down_skip(v.bids, MAX_LEVEL - 1, -1, *taker, taker.quantity);
                    },
                }
            }
            let mut stop = false;
            while !stop && current_level.is_some()
                invariant
                    self.wf_core(),
                    v == self.view(),
                    taker.side == OrderSide::Sell,
                    current_level matches Some(l) ==> l < MAX_LEVEL && v.bids[l as int].len() > 0,
                    ({
                        let cl = match current_level {
                            Some(l) => l as int,
                            None => -1int,
                        };
                        avail_down(v.bids, MAX_LEVEL - 1, *taker, taker.quantity) == if stop {
                            remaining
                        } else {
                            avail_down(v.bids, cl, *taker, remaining)
                        }
                    }),
                decreases (if stop {
                    0int
                } else {
                    2 + match current_level {
                        Some(l) => l as int,
                        None => -1int,
                    }
                }),
            {
                let level_idx = current_level.unwrap();
                let level_price = PriceLevel::get_price_from_index(level_idx);
                if !(taker.price.0 <= level_price.0) || remaining == 0 {
                    stop = true;
                } else {
                    remaining = self.level_unfilled(OrderSide::Buy, level_idx, taker, remaining);
                    proof {
                        self.lemma_bits();
                    }
                    if level_idx > 0 {
                        current_level = self.bids.find_prev_non_empty_from(level_idx - 1);
                    } else {
                        current_level = None;
                    }
                    proof {
                        match current_level {
                            Some(j) => {
                                self.lemma_empty_range(OrderSide::Buy, j as int + 1, level_idx as int);
                                self.lemma_totals(OrderSide::Buy, j as int);
                                lemma_cross_down_skip(v.bids, level_idx - 1, j as int, *taker, remaining);
                            },
                            None => {
                                if level_idx > 0 {
                                    self.lemma_empty_range(OrderSide::Buy, 0, level_idx as int);
                                }
                                lemma_cross_down_skip(v.bids, level_idx - 1, -1, *taker, remaining);
                            },
                        }
                    }
                }
            }
        }
        taker.quantity - remaining
    }
}

impl OrderBook {
    /// An empty book whose pool starts with room for `capacity` orders.
    pub fn new(capacity: usize) -> (book: Self)
        ensures
            book.wf(),
            book.view() == BookView::empty(),
            book.id_to_index@ == Map::<u64, usize>::empty(),
            book.id_to_price@ == Map::<u64, Price>::empty(),
            book.pool.nodes@ == Seq::<Node>::empty(),
            book.pool.free_list@ == Seq::<usize>::empty(),
            book.best_bid_index is None,
            book.best_ask_index is None,
            book.market_data@ == Seq::<MarketDataEvent>::empty(),
    {
        let book = Self {
            pool: OrderPool::new(capacity),
            bids: PriceLevel::new(),
            asks: PriceLevel::new(),
            id_to_index: FxHashMap::default(),
            id_to_price: FxHashMap::default(),
            best_ask_index: None,
            best_bid_index: None,
            market_data: Vec::new(),
        };
        proof {
            reveal(OrderBook::wf_core);
            assert forall|s: OrderSide, i: int| 0 <= i < MAX_LEVEL implies #[trigger] book.level_orders(s, i)
                == Seq::<Order>::empty() by {
                assert(book.level_orders(s, i) =~= Seq::<Order>::empty());
            }
            assert(book.view().bids =~= BookView::empty().bids);
            assert(book.view().asks =~= BookView::empty().asks);
            assert forall|s: OrderSide| #![auto] book.queues_wf(s) && book.members_ok(s) && book.totals_ok(s) by {
                assert forall|i: int| 0 <= i < MAX_LEVEL implies #[trigger] book.side_of(s).totals@[i]
                    == sum_qty(book.level_orders(s, i)) by {
                    assert(book.level_orders(s, i) == Seq::<Order>::empty());
                }
            }
            assert(book.queues_wf(OrderSide::Buy) && book.members_ok(OrderSide::Buy) && book.totals_ok(OrderSide::Buy));
            assert(book.queues_wf(OrderSide::Sell) && book.members_ok(OrderSide::Sell) && book.totals_ok(OrderSide::Sell));
            assert(book.index_ok());
            crate::matching::lemma_highest_is(book.view().bids, MAX_LEVEL - 1, None);
            crate::matching::lemma_lowest_is(book.view().asks, 0, None);
        }
        book
    }

    /// `order` matched against the opposite side; the best index of that side
    /// moved past the levels that the match emptied. Returns what the order
    /// still wants; the fills are appended to `trades`.
    fn match_order(&mut self, order: &Order, trades: &mut Vec<Trade>) -> (r: u64)
        requires
            old(self).wf(),
        ensures
            final(self).wf(),
            ({
                let c = old(self).view().cross(*order);
                &&& final(self).view() == c.0
                &&& final(trades)@ == old(trades)@ + c.1
                &&& r == c.2
            }),
            final(self).id_to_index@.dom().subset_of(old(self).id_to_index@.dom()),
    {
        let ghost v0 = self.view();
        if order.side == OrderSide::Buy {
            let rem = self.match_asks(order, trades);
            proof {
                self.lemma_bits();
                let a1 = self.view().asks;
                crate::matching::lemma_cross_up_shrinks(v0.asks, 0, *order, order.quantity);
                crate::matching::lemma_lowest_facts(v0.asks, 0);
                assert(self.view().bids == v0.bids);
            }
            if let Some(best) = self.best_ask_index {
                proof {
                    self.lemma_head_empty(OrderSide::Sell, best as int);
                }
                if self.asks.levels[best].head.is_none() {
                    let nb = self.asks.find_next_non_empty_from(best);
                    proof {
                        let a1 = self.view().asks;
                        match nb {
                            Some(j) => {
                                self.lemma_empty_range(OrderSide::Sell, best as int, j as int);
                                self.lemma_totals(OrderSide::Sell, j as int);
                                assert forall|k: int| 0 <= k < j implies (#[trigger] a1[k]).len() == 0 by {
                                    if k < best {
                                        assert(a1[k].len() <= v0.asks[k].len());
                                    }
                                }
                                crate::matching::lemma_lowest_is(a1, 0, Some(j));
                            },
                            None => {
                                self.lemma_empty_range(OrderSide::Sell, best as int, MAX_LEVEL as int);
                                assert forall|k: int| 0 <= k < MAX_LEVEL implies (#[trigger] a1[k]).len() == 0 by {
                                    if k < best {
                                        assert(a1[k].len() <= v0.asks[k].len());
                                    }
                                }
                                crate::matching::lemma_lowest_is(a1, 0, None);
                            },
                        }
                    }
                    let ghost pre = *self;
                    self.best_ask_index = nb;
                    proof {
                        lemma_wf_core_fields(&pre, self);
                    }
                } else {
                    proof {
                        let a1 = self.view().asks;
                        assert forall|k: int| 0 <= k < best implies (#[trigger] a1[k]).len() == 0 by {
                            assert(a1[k].len() <= v0.asks[k].len());
                        }
                        crate::matching::lemma_lowest_is(a1, 0, Some(best));
                    }
                }
            } else {
                proof {
                    let a1 = self.view().asks;
                    assert forall|k: int| 0 <= k < MAX_LEVEL implies (#[trigger] a1[k]).len() == 0 by {
                        assert(a1[k].len() <= v0.asks[k].len());
                    }
                    crate::matching::lemma_lowest_is(a1, 0, None);
                }
            }
            rem
        } else {
            let rem = self.match_bids(order, trades);
            proof {
                self.lemma_bits();
                crate::matching::lemma_cross_down_shrinks(v0.bids, MAX_LEVEL - 1, *order, order.quantity);
                crate::matching::lemma_highest_facts(v0.bids, MAX_LEVEL - 1);
                assert(self.view().asks == v0.asks);
            }
            if let Some(best) = self.best_bid_index {
                proof {
                    self.lemma_head_empty(OrderSide::Buy, best as int);
                }
                if self.bids.levels[best].head.is_none() {
                    let nb = self.bids.find_prev_non_empty_from(best);
                    proof {
                        let a1 = self.view().bids;
                        match nb {
                            Some(j) => {
                                self.lemma_empty_range(OrderSide::Buy, j as int + 1, best as int + 1);
                                self.lemma_totals(OrderSide::Buy, j as int);
                                assert forall|k: int| j < k <= MAX_LEVEL - 1 implies (#[trigger] a1[k]).len() == 0 by {
                                    if k > best {
                                        assert(a1[k].len() <= v0.bids[k].len());
                                    }
                                }
                                crate::matching::lemma_highest_is(a1, MAX_LEVEL - 1, Some(j));
                            },
                            None => {
                                self.lemma_empty_range(OrderSide::Buy, 0, best as int + 1);
                                assert forall|k: int| 0 <= k <= MAX_LEVEL - 1 implies (#[trigger] a1[k]).len() == 0 by {
                                    if k > best {
                                        assert(a1[k].len() <= v0.bids[k].len());
                                    }
                                }
                                crate::matching::lemma_highest_is(a1, MAX_LEVEL - 1, None);
                            },
                        }
                    }
                    let ghost pre = *self;
                    self.best_bid_index = nb;
                    proof {
                        lemma_wf_core_fields(&pre, self);
                    }
                } else {
                    proof {
                        let a1 = self.view().bids;
                        assert forall|k: int| best < k <= MAX_LEVEL - 1 implies (#[trigger] a1[k]).len() == 0 by {
                            assert(a1[k].len() <= v0.bids[k].len());
                        }
                        crate::matching::lemma_highest_is(a1, MAX_LEVEL - 1, Some(best));
                    }
                }
            } else {
                proof {
                    let a1 = self.view().bids;
                    assert forall|k: int| 0 <= k <= MAX_LEVEL - 1 implies (#[trigger] a1[k]).len() == 0 by {
                        assert(a1[k].len() <= v0.bids[k].len());
                    }
                    crate::matching::lemma_highest_is(a1, MAX_LEVEL - 1, None);
                }
            }
            rem
        }
    }
}

/// The structural invariant and the view do not depend on the best indices.
proof fn lemma_wf_core_fields(a: &OrderBook, b: &OrderBook)
    requires
        a.wf_core(),
        a.pool == b.pool,
        a.bids == b.bids,
        a.asks == b.asks,
        a.id_to_index == b.id_to_index,
        a.id_to_price == b.id_to_price,
    ensures
        b.wf_core(),
        b.view() == a.view(),
{
    reveal(OrderBook::wf_core);
    assert(b.view().bids =~= a.view().bids);
    assert(b.view().asks =~= a.view().asks);
    assert(a.index_ok());
    assert forall|id: u64| #[trigger] b.id_to_index@.contains_key(id) implies b.indexed_ok(id) by {
        assert(a.indexed_ok(id));
    }
    assert forall|s: OrderSide| #![auto] b.queues_wf(s) && b.members_ok(s) && b.totals_ok(s) by {
        assert(a.queues_wf(s) && a.members_ok(s) && a.totals_ok(s));
        assert forall|i: int, k: int|
            0 <= i < MAX_LEVEL && 0 <= k < b.queue(s, i).members@.len() implies b.member_ok(
            s,
            i,
            #[trigger] b.queue(s, i).members@[k],
        ) by {
            assert(a.member_ok(s, i, a.queue(s, i).members@[k]));
        }
        assert forall|i: int| 0 <= i < MAX_LEVEL implies #[trigger] b.side_of(s).totals@[i] == sum_qty(b.level_orders(s, i)) by {
            assert(a.side_of(s).totals@[i] == sum_qty(a.level_orders(s, i)));
        }
        assert forall|i: int| 0 <= i < MAX_LEVEL implies (#[trigger] b.queue(s, i)).wf_in(b.pool.nodes@) by {
            assert(a.queue(s, i).wf_in(a.pool.nodes@));
        }
        a.bids.lemma_bits_frame(&b.bids);
        a.asks.lemma_bits_frame(&b.asks);
    }
}


impl OrderBook {
    /// Rests `order` last at the level of its price, when its price has a
    /// level, and moves the best index of its side to that level when it
    /// betters it.
    fn insert_maker(&mut self, order: Order)
        requires
            old(self).wf(),
            order.quantity > 0,
            !old(self).view().holds(order.id),
            old(self).view().room_for(order),
        ensures
            final(self).wf(),
            final(self).view() == (if level_of_price(order.price) is Some {
                old(self).view().with_resting(order)
            } else {
                old(self).view()
            }),
    {
        let level = match PriceLevel::get_index_from_price(order.price) {
            Some(idx) => idx,
            None => return ,
        };
        let ghost v0 = self.view();
        let side = order.side;
        self.insert_resting(order, level);
        let ghost v1 = self.view();
        proof {
            lemma_with_level(v0, side, level as int, v0.levels(side)[level as int].push(order), v0.levels(side)[level as int].push(order));
        }
        let ghost pre = *self;
        match side {
            OrderSide::Buy => {
                let better = match self.best_bid_index {
                    None => true,
                    Some(best) => level > best,
                };
                proof {
                    crate::matching::lemma_highest_facts(v0.bids, MAX_LEVEL - 1);
                    let nb = v1.bids;
                    assert(v1.asks == v0.asks);
                    assert(nb =~= v0.bids.update(level as int, v0.bids[level as int].push(order)));
                    if better {
                        assert forall|k: int| level < k <= MAX_LEVEL - 1 implies (#[trigger] nb[k]).len() == 0 by {
                            assert(nb[k] == v0.bids[k]);
                        }
                        crate::matching::lemma_highest_is(nb, MAX_LEVEL - 1, Some(level));
                    } else {
                        let h = self.best_bid_index->0;
                        assert forall|k: int| h < k <= MAX_LEVEL - 1 implies (#[trigger] nb[k]).len() == 0 by {
                            assert(nb[k] == v0.bids[k]);
                        }
                        crate::matching::lemma_highest_is(nb, MAX_LEVEL - 1, Some(h));
                    }
                }
                if better {
                    self.best_bid_index = Some(level);
                }
            },
            OrderSide::Sell => {
                let better = match self.best_ask_index {
                    None => true,
                    Some(best) => level < best,
                };
                proof {
                    crate::matching::lemma_lowest_facts(v0.asks, 0);
                    let nb = v1.asks;
                    assert(v1.bids == v0.bids);
                    assert(nb =~= v0.asks.update(level as int, v0.asks[level as int].push(order)));
                    if better {
                        assert forall|k: int| 0 <= k < level implies (#[trigger] nb[k]).len() == 0 by {
                            assert(nb[k] == v0.asks[k]);
                        }
                        crate::matching::lemma_lowest_is(nb, 0, Some(level));
                    } else {
                        let h = self.best_ask_index->0;
                        assert forall|k: int| 0 <= k < h implies (#[trigger] nb[k]).len() == 0 by {
                            assert(nb[k] == v0.asks[k]);
                        }
                        crate::matching::lemma_lowest_is(nb, 0, Some(h));
                    }
                }
                if better {
                    self.best_ask_index = Some(level);
                }
            },
        }
        proof {
            lemma_wf_core_fields(&pre, self);
        }
    }

    /// Submits a new order. A zero quantity, a price without a level, or an
    /// id that already rests is refused. Otherwise the order trades against
    /// the opposite side (`matching::BookView::cross`); a GTC order rests with
    /// what is left, an IOC order drops it, and a FOK order trades only when
    /// the opposite side could fill all of it. Returns the fills.
    fn submit(&mut self, order: Order) -> (r: Result<Vec<Trade>, OrderError>)
        requires
            old(self).wf(),
            order.order_type == OrderType::GTC && old(self).view().accepts(order) ==> old(self).view().room_to_rest(order),
        ensures
            final(self).wf(),
            ({
                let (v, res) = old(self).view().submit(order);
                &&& final(self).view() == v
                &&& match r {
                    Ok(t) => res == Ok::<Seq<Trade>, OrderError>(t@),
                    Err(e) => res == Err::<Seq<Trade>, OrderError>(e),
                }
            }),
            r is Err ==> *final(self) == *old(self),
    {
        let ghost v0 = self.view();
        if order.quantity == 0 {
            return Err(OrderError::ZeroQuantity);
        }
        let level = match PriceLevel::get_index_from_price(order.price) {
            Some(l) => l,
            None => return Err(OrderError::PriceOutOfRange),
        };
        proof {
            reveal(OrderBook::wf_core);
            self.lemma_holds(order.id);
        }
        if fx_contains_key(&self.id_to_index, order.id) {
            return Err(OrderError::DuplicateOrderId);
        }
        let mut trades: Vec<Trade> = Vec::new();
        let ghost c = v0.cross(order);
        match order.order_type {
            OrderType::GTC | OrderType::IOC => {
                let remaining_qty = self.match_order(&order, &mut trades);
                if remaining_qty > 0 && order.order_type == OrderType::GTC {
                    let rest = Order { quantity: remaining_qty, ..order };
                    proof {
                        self.lemma_holds(order.id);
                        if order.side == OrderSide::Buy {
                            crate::matching::lemma_cross_up_shrinks(v0.asks, 0, order, order.quantity);
                            assert(self.view().bids == v0.bids);
                        } else {
                            crate::matching::lemma_cross_down_shrinks(v0.bids, MAX_LEVEL - 1, order, order.quantity);
                            assert(self.view().asks == v0.asks);
                        }
                        assert(self.view().levels(order.side) == v0.levels(order.side));
                    }
                    self.insert_maker(rest);
                }
            },
            OrderType::FOK => {
                let filled = self.check_available(&order);
                proof {
                    crate::matching::lemma_avail_le(v0.asks, 0, order, order.quantity);
                    crate::matching::lemma_avail_le(v0.bids, MAX_LEVEL - 1, order, order.quantity);
                }
                if filled >= order.quantity {
                    let _ = self.match_order(&order, &mut trades);
                }
            },
        }
        proof {
            assert(Seq::<Trade>::empty() + c.1 =~= c.1);
        }
        Ok(trades)
    }
}

impl OrderBook {
    /// Withdraws the resting order `order_id`; refused when no such order
    /// rests. When its level empties and was the best of its side, the best
    /// index moves to the next level that holds an order.
    fn withdraw(&mut self, order_id: u64) -> (r: Result<(), OrderError>)
        requires
            old(self).wf(),
        ensures
            final(self).wf(),
            ({
                let (v, res) = old(self).view().cancel(order_id);
                final(self).view() == v && r == res
            }),
            !final(self).view().holds(order_id),
            r is Ok ==> final(self).id_to_index@ == old(self).id_to_index@.remove(order_id) && final(self).id_to_price@
                == old(self).id_to_price@.remove(order_id) && final(self).pool.free_list@ == old(
                self,
            ).pool.free_list@.push(old(self).id_to_index@[order_id]),
            r is Err ==> *final(self) == *old(self),
    {
        let ghost v0 = self.view();
        proof {
            self.lemma_holds(order_id);
        }
        let node_index = match fx_get(&self.id_to_index, order_id) {
            Some(idx) => *idx,
            None => return Err(OrderError::OrderNotFound),
        };
        let order_price = match fx_get(&self.id_to_price, order_id) {
            Some(p) => *p,
            None => return Err(OrderError::OrderNotFound),
        };
        let order_side = self.pool.nodes[node_index].order.side;
        let price_idx = match PriceLevel::get_index_from_price(order_price) {
            Some(idx) => idx,
            None => return Err(OrderError::OrderNotFound),
        };
        let ghost pos = self.queue(order_side, price_idx as int).members@.index_of(node_index);
        proof {
            crate::matching::lemma_highest_facts(v0.bids, MAX_LEVEL - 1);
            crate::matching::lemma_lowest_facts(v0.asks, 0);
            self.lemma_totals(order_side, price_idx as int);
        }
        self.remove_resting(order_side, price_idx, node_index, Ghost(pos));
        let ghost v1 = self.view();
        proof {
            self.lemma_holds(order_id);
            self.lemma_bits();
            self.lemma_head_empty(order_side, price_idx as int);
            lemma_with_level(v0, order_side, price_idx as int, v0.levels(order_side)[price_idx as int].remove(pos), v0.levels(order_side)[price_idx as int].remove(pos));
        }
        let ghost pre = *self;
        match order_side {
            OrderSide::Buy => {
                if self.bids.levels[price_idx].head.is_none() && self.best_bid_index == Some(price_idx) {
                    let from = if price_idx > 0 { price_idx - 1 } else { 0 };
                    let nb = self.bids.find_prev_non_empty_from(from);
                    proof {
                        let nbids = v1.bids;
                        match nb {
                            Some(j) => {
                                self.lemma_empty_range(OrderSide::Buy, j as int + 1, from as int + 1);
                                self.lemma_totals(OrderSide::Buy, j as int);
                                assert forall|k: int| j < k <= MAX_LEVEL - 1 implies (#[trigger] nbids[k]).len() == 0 by {
                                    if k > price_idx {
                                        assert(nbids[k] == v0.bids[k]);
                                    }
                                }
                                crate::matching::lemma_highest_is(nbids, MAX_LEVEL - 1, Some(j));
                            },
                            None => {
                                self.lemma_empty_range(OrderSide::Buy, 0, from as int + 1);
                                assert forall|k: int| 0 <= k <= MAX_LEVEL - 1 implies (#[trigger] nbids[k]).len() == 0 by {
                                    if k > price_idx {
                                        assert(nbids[k] == v0.bids[k]);
                                    }
                                }
                                crate::matching::lemma_highest_is(nbids, MAX_LEVEL - 1, None);
                            },
                        }
                    }
                    self.best_bid_index = nb;
                } else {
                    proof {
                        let nbids = v1.bids;
                        let h = v0.best_bid()->0;
                        assert forall|k: int| h < k <= MAX_LEVEL - 1 implies (#[trigger] nbids[k]).len() == 0 by {
                            assert(nbids[k] == v0.bids[k]);
                        }
                        crate::matching::lemma_highest_is(nbids, MAX_LEVEL - 1, Some(h));
                    }
                }
            },
            OrderSide::Sell => {
                if self.asks.levels[price_idx].head.is_none() && self.best_ask_index == Some(price_idx) {
                    let nb = self.asks.find_next_non_empty_from(price_idx + 1);
                    proof {
                        let nasks = v1.asks;
                        match nb {
                            Some(j) => {
                                self.lemma_empty_range(OrderSide::Sell, price_idx + 1, j as int);
                                self.lemma_totals(OrderSide::Sell, j as int);
                                assert forall|k: int| 0 <= k < j implies (#[trigger] nasks[k]).len() == 0 by {
                                    if k < price_idx {
                                        assert(nasks[k] == v0.asks[k]);
                                    }
                                }
                                crate::matching::lemma_lowest_is(nasks, 0, Some(j));
                            },
                            None => {
                                self.lemma_empty_range(OrderSide::Sell, price_idx + 1, MAX_LEVEL as int);
                                assert forall|k: int| 0 <= k < MAX_LEVEL implies (#[trigger] nasks[k]).len() == 0 by {
                                    if k < price_idx {
                                        assert(nasks[k] == v0.asks[k]);
                                    }
                                }
                                crate::matching::lemma_lowest_is(nasks, 0, None);
                            },
                        }
                    }
                    self.best_ask_index = nb;
                } else {
                    proof {
                        let nasks = v1.asks;
                        let h = v0.best_ask()->0;
                        assert forall|k: int| 0 <= k < h implies (#[trigger] nasks[k]).len() == 0 by {
                            assert(nasks[k] == v0.asks[k]);
                        }
                        crate::matching::lemma_lowest_is(nasks, 0, Some(h));
                    }
                }
            },
        }
        proof {
            lemma_wf_core_fields(&pre, self);
            self.lemma_holds(order_id);
        }
        Ok(())
    }

    /// Gives the resting order `order_id` a new price and quantity: it leaves
    /// its queue and rests last at its new level as a GTC order, without
    /// matching. Refused when no such order rests, for a zero quantity, and
    /// for a price without a level.
    fn amend(&mut self, order_id: u64, new_price: Price, new_qty: u64) -> (r: Result<(), OrderError>)
        requires
            old(self).wf(),
            old(self).view().holds(order_id) && new_qty > 0 && level_of_price(new_price) is Some ==> old(
                self,
            ).view().without(order_id).room_for(old(self).view().amended(order_id, new_price, new_qty)),
        ensures
            final(self).wf(),
            ({
                let (v, res) = old(self).view().modify(order_id, new_price, new_qty);
                final(self).view() == v && r == res
            }),
            r is Err ==> *final(self) == *old(self),
    {
        let ghost v0 = self.view();
        proof {
            self.lemma_holds(order_id);
        }
        let node_index = match fx_get(&self.id_to_index, order_id) {
            Some(idx) => *idx,
            None => return Err(OrderError::OrderNotFound),
        };
        if new_qty == 0 {
            return Err(OrderError::ZeroQuantity);
        }
        if PriceLevel::get_index_from_price(new_price).is_none() {
            return Err(OrderError::PriceOutOfRange);
        }
        let node = self.pool.nodes[node_index].order;
        let order = Order {
            id: node.id,
            user_id: node.user_id,
            asset_id: node.asset_id,
            quantity: new_qty,
            price: new_price,
            side: node.side,
            order_type: OrderType::GTC,
            timestamp: node.timestamp,
        };
        let _ = self.withdraw(order_id);
        self.insert_maker(order);
        Ok(())
    }
}

impl OrderBook {
    /// The total resting at level `i` of side `s`.
    fn total_at(&self, s: OrderSide, i: usize) -> (t: u64)
        requires
            self.wf(),
            i < MAX_LEVEL,
        ensures
            t == self.view().level_total(s, i as int),
    {
        proof {
            self.law_book_consistent();
        }
        match s {
            OrderSide::Buy => self.bids.totals[i],
            OrderSide::Sell => self.asks.totals[i],
        }
    }

    /// Whether what `order` would still want after crossing the book can
    /// join the level of its price without the level's total leaving the
    /// range of `u64`.
    pub fn has_room_for(&self, order: &Order) -> (r: bool)
        requires
            self.wf(),
        ensures
            r == self.view().room_to_rest(*order),
    {
        proof {
            self.law_book_consistent();
        }
        match PriceLevel::get_index_from_price(order.price) {
            None => true,
            Some(i) => {
                let rest = self.rest_after_cross(order);
                let t = self.total_at(order.side, i);
                t <= u64::MAX - rest
            },
        }
    }

    /// Whether giving the resting order `order_id` the price `new_price` and
    /// the quantity `new_qty` keeps the total of its new level within the
    /// range of `u64`; true where the modification would be refused.
    pub fn has_room_to_modify(&self, order_id: u64, new_price: Price, new_qty: u64) -> (r: bool)
        requires
            self.wf(),
        ensures
            r == (self.view().holds(order_id) && new_qty > 0 && level_of_price(new_price) is Some
                ==> self.view().without(order_id).room_for(self.view().amended(order_id, new_price, new_qty))),
    {
        proof {
            reveal(OrderBook::wf_core);
            self.lemma_holds(order_id);
            self.law_book_consistent();
        }
        let node_index = match fx_get(&self.id_to_index, order_id) {
            Some(idx) => *idx,
            None => return true,
        };
        if new_qty == 0 {
            return true;
        }
        let new_level = match PriceLevel::get_index_from_price(new_price) {
            Some(l) => l,
            None => return true,
        };
        let old = self.pool.nodes[node_index].order;
        let old_level = match PriceLevel::get_index_from_price(old.price) {
            Some(l) => l,
            None => return true,
        };
        let t = self.total_at(old.side, new_level);
        let ghost v = self.view();
        let ghost k = v.location(order_id).2;
        proof {
            let q = v.levels(old.side)[old_level as int];
            crate::matching::lemma_sum_remove(q, k);
            lemma_with_level(v, old.side, old_level as int, q.remove(k), q.remove(k));
            let w = v.without(order_id);
            if new_level != old_level {
                assert(w.levels(old.side)[new_level as int] == v.levels(old.side)[new_level as int]);
            }
        }
        if new_level == old_level {
            proof {
                crate::matching::lemma_sum_nonneg(v.levels(old.side)[old_level as int].remove(k));
            }
            t - old.quantity <= u64::MAX - new_qty
        } else {
            t <= u64::MAX - new_qty
        }
    }

    /// What a consistent book guarantees of its public fields and its view:
    /// every level's total is the sum of its orders, the best indices name
    /// the highest bid level and the lowest ask level that hold orders, and
    /// every resting order sits on its own side, at the level of its price,
    /// with a quantity above zero, and no two resting orders share an id.
    pub proof fn law_book_consistent(&self)
        requires
            self.wf(),
        ensures
            self.view().bids.len() == MAX_LEVEL,
            self.view().asks.len() == MAX_LEVEL,
            forall|i: int| 0 <= i < MAX_LEVEL ==> #[trigger] self.bids.totals@[i] == self.view().level_total(OrderSide::Buy, i),
            forall|i: int| 0 <= i < MAX_LEVEL ==> #[trigger] self.asks.totals@[i] == self.view().level_total(OrderSide::Sell, i),
            self.best_bid_index == self.view().best_bid(),
            self.best_ask_index == self.view().best_ask(),
            crate::laws::well_placed(self.view().bids),
            crate::laws::well_placed(self.view().asks),
            forall|s: OrderSide, i: int, k: int|
                0 <= i < MAX_LEVEL && 0 <= k < self.view().levels(s)[i].len() ==> (#[trigger] self.view().levels(s)[i][k]).side == s
                    && self.view().levels(s)[i][k].quantity > 0,
            forall|s1: OrderSide, i1: int, k1: int, s2: OrderSide, i2: int, k2: int|
                0 <= i1 < MAX_LEVEL && 0 <= k1 < self.view().levels(s1)[i1].len() && 0 <= i2 < MAX_LEVEL && 0 <= k2
                    < self.view().levels(s2)[i2].len() && (#[trigger] self.view().levels(s1)[i1][k1]).id == (
                #[trigger] self.view().levels(s2)[i2][k2]).id ==> s1 == s2 && i1 == i2 && k1 == k2,
            forall|id: u64|
                #![trigger self.id_to_index@.contains_key(id)]
                #![trigger self.view().holds(id)]
                self.id_to_index@.contains_key(id) <==> self.view().holds(id),
            self.id_to_price@.dom() == self.id_to_index@.dom(),
            forall|id: u64|
                #[trigger] self.id_to_index@.contains_key(id) ==> self.id_to_price@[id] == self.view().order_of(id).price
                    && self.id_to_index@[id] < self.pool.nodes@.len() && self.pool.nodes@[self.id_to_index@[id] as int].order
                    == self.view().order_of(id) && !self.pool.free_list@.contains(self.id_to_index@[id]),
    {
        assert forall|id: u64| #[trigger] self.id_to_index@.contains_key(id) implies self.id_to_price@[id]
            == self.view().order_of(id).price && self.id_to_index@[id] < self.pool.nodes@.len()
            && self.pool.nodes@[self.id_to_index@[id] as int].order == self.view().order_of(id)
            && !self.pool.free_list@.contains(self.id_to_index@[id]) by {
            self.lemma_holds(id);
            reveal(OrderBook::wf_core);
            assert(self.index_ok());
            assert(self.indexed_ok(id));
        }
        assert forall|id: u64| #[trigger] self.id_to_index@.contains_key(id) <==> self.view().holds(id) by {
            self.lemma_holds(id);
        }
        assert(self.id_to_price@.dom() == self.id_to_index@.dom()) by {
            reveal(OrderBook::wf_core);
            assert(self.index_ok());
        }
        assert forall|s1: OrderSide, i1: int, k1: int, s2: OrderSide, i2: int, k2: int|
            0 <= i1 < MAX_LEVEL && 0 <= k1 < self.view().levels(s1)[i1].len() && 0 <= i2 < MAX_LEVEL && 0 <= k2
                < self.view().levels(s2)[i2].len() && (#[trigger] self.view().levels(s1)[i1][k1]).id == (
            #[trigger] self.view().levels(s2)[i2][k2]).id implies s1 == s2 && i1 == i2 && k1 == k2 by {
            reveal(OrderBook::wf_core);
            self.lemma_view_level(s1, i1);
            self.lemma_view_level(s2, i2);
            let q1 = self.queue(s1, i1).members@;
            let q2 = self.queue(s2, i2).members@;
            assert(self.members_ok(s1) && self.members_ok(s2));
            assert(self.member_ok(s1, i1, q1[k1]));
            assert(self.member_ok(s2, i2, q2[k2]));
            self.lemma_node_at(s1, i1, k1);
            self.lemma_node_at(s2, i2, k2);
            assert(q1[k1] == q2[k2]);
            self.lemma_disjoint(s1, i1, k1, s2, i2, k2);
            assert(self.queues_wf(s1));
            assert(self.queue(s1, i1).wf_in(self.pool.nodes@));
            assert(q1.no_duplicates());
        }
        assert forall|i: int| 0 <= i < MAX_LEVEL implies #[trigger] self.bids.totals@[i] == self.view().level_total(OrderSide::Buy, i) by {
            self.lemma_totals(OrderSide::Buy, i);
        }
        assert forall|i: int| 0 <= i < MAX_LEVEL implies #[trigger] self.asks.totals@[i] == self.view().level_total(OrderSide::Sell, i) by {
            self.lemma_totals(OrderSide::Sell, i);
        }
        assert forall|s: OrderSide, i: int, k: int|
            0 <= i < MAX_LEVEL && 0 <= k < self.view().levels(s)[i].len() implies (#[trigger] self.view().levels(s)[i][k]).side == s
                && self.view().levels(s)[i][k].quantity > 0 && level_of_price(self.view().levels(s)[i][k].price) == Some(i as usize) by {
            self.lemma_node_at(s, i, k);
            reveal(OrderBook::wf_core);
            assert(self.members_ok(s));
            assert(self.member_ok(s, i, self.queue(s, i).members@[k]));
        }
        assert forall|i: int, k: int|
            0 <= i < self.view().bids.len() && 0 <= k < self.view().bids[i].len() implies level_of_price(#[trigger] self.view().bids[i][k].price)
                == Some(i as usize) by {
            assert(self.view().levels(OrderSide::Buy)[i][k] == self.view().bids[i][k]);
        }
        assert forall|i: int, k: int|
            0 <= i < self.view().asks.len() && 0 <= k < self.view().asks[i].len() implies level_of_price(#[trigger] self.view().asks[i][k].price)
                == Some(i as usize) by {
            assert(self.view().levels(OrderSide::Sell)[i][k] == self.view().asks[i][k]);
        }
    }
}
/// `b` is `a` with only what it has published changed.
pub open spec fn same_but_published(a: &OrderBook, b: &OrderBook) -> bool {
    &&& a.pool == b.pool
    &&& a.bids == b.bids
    &&& a.asks == b.asks
    &&& a.id_to_index == b.id_to_index
    &&& a.id_to_price == b.id_to_price
    &&& a.best_bid_index == b.best_bid_index
    &&& a.best_ask_index == b.best_ask_index
}

proof fn lemma_same_but_published(a: &OrderBook, b: &OrderBook)
    requires
        a.wf(),
        same_but_published(a, b),
    ensures
        b.wf(),
        b.view() == a.view(),
{
    lemma_wf_core_fields(a, b);
}

fn same_level(a: Option<usize>, b: Option<usize>) -> (r: bool)
    ensures
        r == (a == b),
{
    match (a, b) {
        (Some(x), Some(y)) => x == y,
        (None, None) => true,
        _ => false,
    }
}

fn level_price(i: Option<usize>) -> (r: Option<Price>)
    requires
        i matches Some(l) ==> l < MAX_LEVEL,
    ensures
        r == price_of(i),
{
    match i {
        Some(l) => Some(PriceLevel::get_price_from_index(l)),
        None => None,
    }
}

impl OrderBook {
    /// Publishes the total of the level of `price` on `side`.
    fn publish_level(&mut self, side: OrderSide, price: Price)
        requires
            old(self).wf(),
        ensures
            same_but_published(old(self), final(self)),
            final(self).market_data@ == old(self).market_data@.push(level_event(old(self).view(), side, price)),
    {
        let total = match PriceLevel::get_index_from_price(price) {
            Some(l) => self.total_at(side, l),
            None => 0,
        };
        self.market_data.push(MarketDataEvent::LevelUpdated { price, side, total_qty: total });
    }

    /// Publishes, per fill, the execution and the total of the maker's level.
    fn publish_trades(&mut self, trades: &Vec<Trade>, maker_side: OrderSide)
        requires
            old(self).wf(),
        ensures
            same_but_published(old(self), final(self)),
            final(self).market_data@ == old(self).market_data@ + trade_events(trades@, maker_side, old(self).view()),
    {
        let ghost b0 = *self;
        let ghost v = self.view();
        let mut i: usize = 0;
        proof {
            assert(trades@.subrange(0, 0) =~= Seq::<Trade>::empty());
            assert(self.market_data@ + Seq::<MarketDataEvent>::empty() =~= self.market_data@);
        }
        while i < trades.len()
            invariant
                b0.wf(),
                v == b0.view(),
                same_but_published(&b0, self),
                i <= trades.len(),
                self.market_data@ == b0.market_data@ + trade_events(trades@.subrange(0, i as int), maker_side, v),
            decreases trades.len() - i,
        {
            let t = trades[i];
            self.market_data.push(MarketDataEvent::TradeExecuted { price: t.price, quantity: t.quantity, taker_side: t.taker_side });
            proof {
                lemma_same_but_published(&b0, self);
            }
            let total = match PriceLevel::get_index_from_price(t.price) {
                Some(l) => self.total_at(maker_side, l),
                None => 0,
            };
            self.market_data.push(MarketDataEvent::LevelUpdated { price: t.price, side: maker_side, total_qty: total });
            proof {
                let s = trades@.subrange(0, i + 1);
                assert(s.drop_last() =~= trades@.subrange(0, i as int));
                assert(s.last() == t);
            }
            i = i + 1;
        }
        proof {
            assert(trades@.subrange(0, trades@.len() as int) =~= trades@);
        }
    }

    /// Publishes the best prices, when they differ from `old_bid` and
    /// `old_ask`, those of the book `before`.
    fn publish_best(&mut self, old_bid: Option<usize>, old_ask: Option<usize>, before: Ghost<BookView>)
        requires
            old(self).wf(),
            before@.best_bid() == old_bid,
            before@.best_ask() == old_ask,
        ensures
            same_but_published(old(self), final(self)),
            final(self).market_data@ == old(self).market_data@ + best_events(before@, old(self).view()),
    {
        proof {
            self.law_book_consistent();
            crate::matching::lemma_highest_facts(self.view().bids, MAX_LEVEL - 1);
            crate::matching::lemma_lowest_facts(self.view().asks, 0);
        }
        if same_level(old_bid, self.best_bid_index) && same_level(old_ask, self.best_ask_index) {
            proof {
                assert(self.market_data@ + Seq::<MarketDataEvent>::empty() =~= self.market_data@);
            }
        } else {
            let bid = level_price(self.best_bid_index);
            let ask = level_price(self.best_ask_index);
            self.market_data.push(MarketDataEvent::BestPriceChanged { best_bid: bid, best_ask: ask });
            proof {
                assert(old(self).market_data@.push(MarketDataEvent::BestPriceChanged { best_bid: bid, best_ask: ask })
                    =~= old(self).market_data@ + best_events(before@, old(self).view()));
            }
        }
    }
}

impl OrderBook {
    /// Submits a new order. A zero quantity, a price without a level, or an
    /// id that already rests is refused. Otherwise the order trades against
    /// the opposite side (`matching::BookView::cross`); a GTC order rests with
    /// what is left, an IOC order drops it, and a FOK order trades only when
    /// the opposite side could fill all of it. Returns the fills, and
    /// publishes what `market_data::submit_events` says.
    #[verifier::rlimit(40)]
    pub fn add_order(&mut self, order: Order) -> (r: Result<Vec<Trade>, OrderError>)
        requires
            old(self).wf(),
            order.order_type == OrderType::GTC && old(self).view().accepts(order) ==> old(self).view().room_to_rest(order),
        ensures
            final(self).wf(),
            ({
                let (v, res) = old(self).view().submit(order);
                &&& final(self).view() == v
                &&& match r {
                    Ok(t) => res == Ok::<Seq<Trade>, OrderError>(t@),
                    Err(e) => res == Err::<Seq<Trade>, OrderError>(e),
                }
            }),
            final(self).market_data@ == old(self).market_data@ + submit_events(old(self).view(), order),
            r is Err ==> *final(self) == *old(self),
    {
        let ghost v0 = self.view();
        let old_bid = self.best_bid_index;
        let old_ask = self.best_ask_index;
        let ghost bs = *self;
        let mut held: Vec<MarketDataEvent> = Vec::new();
        std::mem::swap(&mut held, &mut self.market_data);
        proof {
            lemma_same_but_published(&bs, self);
        }
        let r = self.submit(order);
        let ghost bc = *self;
        std::mem::swap(&mut held, &mut self.market_data);
        proof {
            lemma_same_but_published(&bc, self);
            if r.is_err() {
                assert(*self == bs);
            }
        }
        if let Ok(trades) = &r {
            let ghost b1 = *self;
            let maker_side = match order.side {
                OrderSide::Buy => OrderSide::Sell,
                OrderSide::Sell => OrderSide::Buy,
            };
            self.publish_trades(trades, maker_side);
            proof {
                lemma_same_but_published(&b1, self);
                b1.law_book_consistent();
                crate::laws::law_only_gtc_remainders_rest(v0, order);
            }
            let ghost m1 = self.market_data@;
            let rested = order.order_type == OrderType::GTC && fx_contains_key(&self.id_to_index, order.id);
            if rested {
                let ghost b2 = *self;
                self.publish_level(order.side, order.price);
                proof {
                    lemma_same_but_published(&b2, self);
                }
            }
            let ghost b3 = *self;
            let ghost m2 = self.market_data@;
            proof {
                lemma_same_but_published(&b1, self);
                assert(v0.best_bid() == old_bid && v0.best_ask() == old_ask) by {
                    reveal(OrderBook::wf_core);
                }
            }
            self.publish_best(old_bid, old_ask, Ghost(v0));
            proof {
                lemma_same_but_published(&b3, self);
                let ev = if order.order_type == OrderType::GTC && v0.cross(order).2 > 0 {
                    seq![level_event(b1.view(), order.side, order.price)]
                } else {
                    Seq::<MarketDataEvent>::empty()
                };
                assert(m2 == m1 + ev);
                assert(self.market_data@ =~= b1.market_data@ + (trade_events(trades@, maker_side, b1.view()) + ev + best_events(
                    v0,
                    b1.view(),
                )));
            }
        } else {
            proof {
                assert(self.market_data@ + Seq::<MarketDataEvent>::empty() =~= self.market_data@);
            }
        }
        r
    }

    /// Withdraws the resting order `order_id`; refused when no such order
    /// rests. When its level empties and was the best of its side, the best
    /// index moves to the next level that holds an order. Publishes what
    /// `market_data::cancel_events` says.
    pub fn cancel_order(&mut self, order_id: u64) -> (r: Result<(), OrderError>)
        requires
            old(self).wf(),
        ensures
            final(self).wf(),
            ({
                let (v, res) = old(self).view().cancel(order_id);
                final(self).view() == v && r == res
            }),
            !final(self).view().holds(order_id),
            r is Ok ==> final(self).id_to_index@ == old(self).id_to_index@.remove(order_id) && final(self).id_to_price@
                == old(self).id_to_price@.remove(order_id) && final(self).pool.free_list@ == old(
                self,
            ).pool.free_list@.push(old(self).id_to_index@[order_id]),
            final(self).market_data@ == old(self).market_data@ + cancel_events(old(self).view(), order_id),
            r is Err ==> *final(self) == *old(self),
    {
        let ghost v0 = self.view();
        let ghost b0 = *self;
        let old_bid = self.best_bid_index;
        let old_ask = self.best_ask_index;
        proof {
            self.lemma_holds(order_id);
            assert(v0.best_bid() == old_bid && v0.best_ask() == old_ask) by {
                reveal(OrderBook::wf_core);
            }
        }
        let found = match fx_get(&self.id_to_index, order_id) {
            Some(idx) => Some(self.pool.nodes[*idx].order),
            None => None,
        };
        let ghost bs = *self;
        let mut held: Vec<MarketDataEvent> = Vec::new();
        std::mem::swap(&mut held, &mut self.market_data);
        proof {
            lemma_same_but_published(&bs, self);
        }
        let r = self.withdraw(order_id);
        let ghost bc = *self;
        std::mem::swap(&mut held, &mut self.market_data);
        proof {
            lemma_same_but_published(&bc, self);
            if r.is_err() {
                assert(*self == bs);
            }
        }
        proof {
            if r.is_err() {
                assert(self.market_data@ + Seq::<MarketDataEvent>::empty() =~= self.market_data@);
            }
        }
        if let Some(o) = found {
            proof {
                assert(o == v0.order_of(order_id));
            }
            if r.is_ok() {
                let ghost b1 = *self;
                self.publish_level(o.side, o.price);
                proof {
                    lemma_same_but_published(&b1, self);
                }
                let ghost b2 = *self;
                self.publish_best(old_bid, old_ask, Ghost(v0));
                proof {
                    lemma_same_but_published(&b2, self);
                    assert(self.market_data@ =~= b0.market_data@ + cancel_events(v0, order_id));
                }
            }
        }
        r
    }

    /// Gives the resting order `order_id` a new price and quantity: it leaves
    /// its queue and rests last at its new level as a GTC order, without
    /// matching. Refused when no such order rests, for a zero quantity, and
    /// for a price without a level. Publishes what
    /// `market_data::modify_events` says.
    pub fn modify_order(&mut self, order_id: u64, new_price: Price, new_qty: u64) -> (r: Result<(), OrderError>)
        requires
            old(self).wf(),
            old(self).view().holds(order_id) && new_qty > 0 && level_of_price(new_price) is Some ==> old(
                self,
            ).view().without(order_id).room_for(old(self).view().amended(order_id, new_price, new_qty)),
        ensures
            final(self).wf(),
            ({
                let (v, res) = old(self).view().modify(order_id, new_price, new_qty);
                final(self).view() == v && r == res
            }),
            final(self).market_data@ == old(self).market_data@ + modify_events(old(self).view(), order_id, new_price, new_qty),
            r is Err ==> *final(self) == *old(self),
    {
        let ghost v0 = self.view();
        let ghost b0 = *self;
        let old_bid = self.best_bid_index;
        let old_ask = self.best_ask_index;
        proof {
            self.lemma_holds(order_id);
            assert(v0.best_bid() == old_bid && v0.best_ask() == old_ask) by {
                reveal(OrderBook::wf_core);
            }
        }
        let found = match fx_get(&self.id_to_index, order_id) {
            Some(idx) => Some(self.pool.nodes[*idx].order),
            None => None,
        };
        let ghost bs = *self;
        let mut held: Vec<MarketDataEvent> = Vec::new();
        std::mem::swap(&mut held, &mut self.market_data);
        proof {
            lemma_same_but_published(&bs, self);
        }
        let r = self.amend(order_id, new_price, new_qty);
        let ghost bc = *self;
        std::mem::swap(&mut held, &mut self.market_data);
        proof {
            lemma_same_but_published(&bc, self);
            if r.is_err() {
                assert(*self == bs);
            }
        }
        proof {
            if r.is_err() {
                assert(self.market_data@ + Seq::<MarketDataEvent>::empty() =~= self.market_data@);
            }
        }
        if let Some(o) = found {
            proof {
                assert(o == v0.order_of(order_id));
            }
            if r.is_ok() {
                let ghost b1 = *self;
                self.publish_level(o.side, o.price);
                proof {
                    lemma_same_but_published(&b1, self);
                }
                let ghost b2 = *self;
                self.publish_level(o.side, new_price);
                proof {
                    lemma_same_but_published(&b2, self);
                }
                let ghost b3 = *self;
                self.publish_best(old_bid, old_ask, Ghost(v0));
                proof {
                    lemma_same_but_published(&b3, self);
                    assert(self.market_data@ =~= b0.market_data@ + modify_events(v0, order_id, new_price, new_qty));
                }
            }
        }
        r
    }

    /// Hands out what the book has published, oldest first, and forgets it.
    pub fn drain_market_data(&mut self) -> (events: Vec<MarketDataEvent>)
        ensures
            events@ == old(self).market_data@,
            final(self).market_data@ == Seq::<MarketDataEvent>::empty(),
            same_but_published(old(self), final(self)),
            old(self).wf() ==> final(self).wf() && final(self).view() == old(self).view(),
    {
        let mut events = Vec::new();
        std::mem::swap(&mut events, &mut self.market_data);
        proof {
            if old(self).wf() {
                lemma_same_but_published(old(self), self);
            }
        }
        events
    }
}

} // verus!
