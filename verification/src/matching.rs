//! The model of a book that the contracts speak of: each side a sequence of
//! price levels, each level the queue of resting orders, front first; and
//! matching, cancelling and modifying as functions on it.
use vstd::prelude::*;

use crate::error::OrderError;
use crate::order::{Order, OrderSide, OrderType};
use crate::price::Price;
use crate::price_level::{level_of_price, MAX_LEVEL, PRICE_OFFSET};
use crate::trade::Trade;

verus! {

/// The total quantity of the orders in `s`.
pub open spec fn sum_qty(s: Seq<Order>) -> int
    decreases s.len(),
{
    if s.len() == 0 {
        0
    } else {
        sum_qty(s.drop_last()) + s.last().quantity
    }
}

/// The smaller of two quantities.
pub open spec fn min_qty(a: u64, b: u64) -> u64 {
    if a <= b {
        a
    } else {
        b
    }
}

/// The execution of `qty` between `taker` and the resting order `maker`, at
/// the maker's price.
pub open spec fn fill_of(taker: Order, maker: Order, qty: u64) -> Trade {
    Trade {
        taker_order_id: taker.id,
        maker_order_id: maker.id,
        price: maker.price,
        quantity: qty,
        taker_side: taker.side,
        timestamp: taker.timestamp,
    }
}

/// The resting order `m` once `t` of it has traded.
pub open spec fn reduced(m: Order, t: u64) -> Order {
    Order { quantity: (m.quantity - t) as u64, ..m }
}

/// One step of a sweep: the resting order `m` meets a taker that still wants
/// `acc.2`. Orders of the taker's own user are passed over; otherwise the
/// smaller of the two quantities trades, and a maker left with nothing leaves
/// the queue.
pub open spec fn sweep_step(acc: (Seq<Order>, Seq<Trade>, u64), m: Order, taker: Order) -> (
    Seq<Order>,
    Seq<Trade>,
    u64,
) {
    let kept = acc.0;
    let fills = acc.1;
    let r = acc.2;
    if r == 0 || m.user_id == taker.user_id {
        (kept.push(m), fills, r)
    } else {
        let t = min_qty(r, m.quantity);
        let fills2 = fills.push(fill_of(taker, m, t));
        if t == m.quantity {
            (kept, fills2, (r - t) as u64)
        } else {
            (kept.push(reduced(m, t)), fills2, (r - t) as u64)
        }
    }
}

/// The sweep of the first `n` orders of the queue `q` by `taker`, which wants
/// `rem`: what stays of them, the fills, and what the taker still wants.
pub open spec fn sweep_prefix(q: Seq<Order>, n: int, taker: Order, rem: u64) -> (
    Seq<Order>,
    Seq<Trade>,
    u64,
)
    decreases n,
{
    if n <= 0 {
        (Seq::empty(), Seq::empty(), rem)
    } else {
        sweep_step(sweep_prefix(q, n - 1, taker, rem), q[n - 1], taker)
    }
}

/// The sweep of a whole queue, front first.
pub open spec fn sweep(q: Seq<Order>, taker: Order, rem: u64) -> (Seq<Order>, Seq<Trade>, u64) {
    sweep_prefix(q, q.len() as int, taker, rem)
}

/// Whether `taker`'s limit reaches level `i` of the opposite side.
pub open spec fn crosses(taker: Order, i: int) -> bool {
    match taker.side {
        OrderSide::Buy => taker.price.0 >= i + PRICE_OFFSET,
        OrderSide::Sell => taker.price.0 <= i + PRICE_OFFSET,
    }
}

/// Whether a taker goes on to the next level after sweeping one with result
/// `s`: when the sweep emptied the level, and for a FOK taker also when it
/// still wants more, which leaves only its own user's orders there.
pub open spec fn passes_on(taker: Order, s: (Seq<Order>, Seq<Trade>, u64)) -> bool {
    s.0.len() == 0 || (taker.order_type == OrderType::FOK && s.2 > 0)
}

/// A buy taker against the asks from level `i` upward. Empty levels are
/// passed over; the sweep stops at a level beyond the limit, when nothing is
/// wanted any more, or after a level that the sweep did not empty. A FOK
/// taker, which the whole opposite side within its limit can fill, passes on
/// beyond a level left holding only orders of its own user.
pub open spec fn cross_up(levels: Seq<Seq<Order>>, i: int, taker: Order, rem: u64) -> (
    Seq<Seq<Order>>,
    Seq<Trade>,
    u64,
)
    decreases MAX_LEVEL - i,
{
    if i < 0 || i >= MAX_LEVEL {
        (levels, Seq::empty(), rem)
    } else if levels[i].len() == 0 {
        cross_up(levels, i + 1, taker, rem)
    } else if !crosses(taker, i) || rem == 0 {
        (levels, Seq::empty(), rem)
    } else {
        let s = sweep(levels[i], taker, rem);
        if passes_on(taker, s) {
            let rest = cross_up(levels.update(i, s.0), i + 1, taker, s.2);
            (rest.0, s.1 + rest.1, rest.2)
        } else {
            (levels.update(i, s.0), s.1, s.2)
        }
    }
}

/// A sell taker against the bids from level `i` downward, as `cross_up`.
pub open spec fn cross_down(levels: Seq<Seq<Order>>, i: int, taker: Order, rem: u64) -> (
    Seq<Seq<Order>>,
    Seq<Trade>,
    u64,
)
    decreases i + 1,
{
    if i < 0 || i >= MAX_LEVEL {
        (levels, Seq::empty(), rem)
    } else if levels[i].len() == 0 {
        cross_down(levels, i - 1, taker, rem)
    } else if !crosses(taker, i) || rem == 0 {
        (levels, Seq::empty(), rem)
    } else {
        let s = sweep(levels[i], taker, rem);
        if passes_on(taker, s) {
            let rest = cross_down(levels.update(i, s.0), i - 1, taker, s.2);
            (rest.0, s.1 + rest.1, rest.2)
        } else {
            (levels.update(i, s.0), s.1, s.2)
        }
    }
}

/// What a buy taker would still want after every level from `i` upward that
/// its limit reaches, the book left untouched.
pub open spec fn avail_up(levels: Seq<Seq<Order>>, i: int, taker: Order, rem: u64) -> u64
    decreases MAX_LEVEL - i,
{
    if i < 0 || i >= MAX_LEVEL {
        rem
    } else if levels[i].len() == 0 {
        avail_up(levels, i + 1, taker, rem)
    } else if !crosses(taker, i) || rem == 0 {
        rem
    } else {
        avail_up(levels, i + 1, taker, sweep(levels[i], taker, rem).2)
    }
}

/// What a sell taker would still want after every level from `i` downward
/// that its limit reaches, the book left untouched.
pub open spec fn avail_down(levels: Seq<Seq<Order>>, i: int, taker: Order, rem: u64) -> u64
    decreases i + 1,
{
    if i < 0 || i >= MAX_LEVEL {
        rem
    } else if levels[i].len() == 0 {
        avail_down(levels, i - 1, taker, rem)
    } else if !crosses(taker, i) || rem == 0 {
        rem
    } else {
        avail_down(levels, i - 1, taker, sweep(levels[i], taker, rem).2)
    }
}

/// The highest level at or below `i` that holds an order.
pub open spec fn highest_nonempty(levels: Seq<Seq<Order>>, i: int) -> Option<usize>
    decreases i + 1,
{
    if i < 0 {
        None
    } else if levels[i].len() > 0 {
        Some(i as usize)
    } else {
        highest_nonempty(levels, i - 1)
    }
}

/// The lowest level at or above `i` that holds an order.
pub open spec fn lowest_nonempty(levels: Seq<Seq<Order>>, i: int) -> Option<usize>
    decreases MAX_LEVEL - i,
{
    if i >= MAX_LEVEL || i < 0 {
        None
    } else if levels[i].len() > 0 {
        Some(i as usize)
    } else {
        lowest_nonempty(levels, i + 1)
    }
}

/// The resting orders of one book: per side, a FIFO queue per price level.
pub struct BookView {
    pub bids: Seq<Seq<Order>>,
    pub asks: Seq<Seq<Order>>,
}

impl BookView {
    /// A book with no order.
    pub open spec fn empty() -> BookView {
        BookView {
            bids: Seq::new(MAX_LEVEL as nat, |i: int| Seq::<Order>::empty()),
            asks: Seq::new(MAX_LEVEL as nat, |i: int| Seq::<Order>::empty()),
        }
    }

    /// The levels of one side.
    pub open spec fn levels(self, side: OrderSide) -> Seq<Seq<Order>> {
        match side {
            OrderSide::Buy => self.bids,
            OrderSide::Sell => self.asks,
        }
    }

    /// The book with level `i` of `side` replaced by `q`.
    pub open spec fn with_level(self, side: OrderSide, i: int, q: Seq<Order>) -> BookView {
        match side {
            OrderSide::Buy => BookView { bids: self.bids.update(i, q), ..self },
            OrderSide::Sell => BookView { asks: self.asks.update(i, q), ..self },
        }
    }

    /// The total quantity resting at level `i` of `side`.
    pub open spec fn level_total(self, side: OrderSide, i: int) -> int {
        sum_qty(self.levels(side)[i])
    }

    /// Whether an order with this id rests in the book.
    pub open spec fn holds(self, id: u64) -> bool {
        exists|s: OrderSide, i: int, k: int|
            0 <= i < MAX_LEVEL && 0 <= k < self.levels(s)[i].len() && (#[trigger] self.levels(s)[i][k]).id
                == id
    }

    /// Where the order with this id rests: side, level and position.
    pub open spec fn location(self, id: u64) -> (OrderSide, int, int) {
        choose|s: OrderSide, i: int, k: int|
            0 <= i < MAX_LEVEL && 0 <= k < self.levels(s)[i].len() && (#[trigger] self.levels(s)[i][k]).id
                == id
    }

    /// The resting order with this id.
    pub open spec fn order_of(self, id: u64) -> Order {
        let (s, i, k) = self.location(id);
        self.levels(s)[i][k]
    }

    /// The book without the resting order with this id.
    pub open spec fn without(self, id: u64) -> BookView {
        let (s, i, k) = self.location(id);
        self.with_level(s, i, self.levels(s)[i].remove(k))
    }

    /// The book with `o` queued last at the level of its price.
    pub open spec fn with_resting(self, o: Order) -> BookView {
        let i = level_of_price(o.price)->0 as int;
        self.with_level(o.side, i, self.levels(o.side)[i].push(o))
    }

    /// Whether `o` can join the level of its price without its total
    /// leaving the range of `u64`.
    pub open spec fn room_for(self, o: Order) -> bool {
        match level_of_price(o.price) {
            Some(i) => self.level_total(o.side, i as int) + o.quantity <= u64::MAX,
            None => true,
        }
    }

    /// Whether the book takes `o` in rather than refusing it: a quantity above
    /// zero, a price with a level, and an id that does not rest yet.
    pub open spec fn accepts(self, o: Order) -> bool {
        o.quantity > 0 && level_of_price(o.price) is Some && !self.holds(o.id)
    }

    /// Whether what `o` still wants after crossing the book can join the
    /// level of its price without its total leaving the range of `u64`.
    pub open spec fn room_to_rest(self, o: Order) -> bool {
        self.room_for(Order { quantity: self.cross(o).2, ..o })
    }

    /// The highest bid level that holds an order.
    pub open spec fn best_bid(self) -> Option<usize> {
        highest_nonempty(self.bids, MAX_LEVEL - 1)
    }

    /// The lowest ask level that holds an order.
    pub open spec fn best_ask(self) -> Option<usize> {
        lowest_nonempty(self.asks, 0)
    }

    /// `taker` matched against the opposite side: the book after, the fills,
    /// and what the taker still wants.
    pub open spec fn cross(self, taker: Order) -> (BookView, Seq<Trade>, u64) {
        match taker.side {
            OrderSide::Buy => {
                let r = cross_up(self.asks, 0, taker, taker.quantity);
                (BookView { asks: r.0, ..self }, r.1, r.2)
            },
            OrderSide::Sell => {
                let r = cross_down(self.bids, MAX_LEVEL - 1, taker, taker.quantity);
                (BookView { bids: r.0, ..self }, r.1, r.2)
            },
        }
    }

    /// What `taker` would still want after the whole opposite side within its
    /// limit, the book left untouched.
    pub open spec fn unfilled(self, taker: Order) -> u64 {
        match taker.side {
            OrderSide::Buy => avail_up(self.asks, 0, taker, taker.quantity),
            OrderSide::Sell => avail_down(self.bids, MAX_LEVEL - 1, taker, taker.quantity),
        }
    }

    /// A new order submitted to the book: the book after, and the fills or the
    /// reason for the refusal.
    pub open spec fn submit(self, order: Order) -> (BookView, Result<Seq<Trade>, OrderError>) {
        if order.quantity == 0 {
            (self, Err(OrderError::ZeroQuantity))
        } else if level_of_price(order.price) is None {
            (self, Err(OrderError::PriceOutOfRange))
        } else if self.holds(order.id) {
            (self, Err(OrderError::DuplicateOrderId))
        } else {
            match order.order_type {
                OrderType::FOK => {
                    if self.unfilled(order) == 0 {
                        let c = self.cross(order);
                        (c.0, Ok(c.1))
                    } else {
                        (self, Ok(Seq::empty()))
                    }
                },
                OrderType::IOC => {
                    let c = self.cross(order);
                    (c.0, Ok(c.1))
                },
                OrderType::GTC => {
                    let c = self.cross(order);
                    if c.2 > 0 {
                        (c.0.with_resting(Order { quantity: c.2, ..order }), Ok(c.1))
                    } else {
                        (c.0, Ok(c.1))
                    }
                },
            }
        }
    }

    /// A resting order withdrawn.
    pub open spec fn cancel(self, id: u64) -> (BookView, Result<(), OrderError>) {
        if self.holds(id) {
            (self.without(id), Ok(()))
        } else {
            (self, Err(OrderError::OrderNotFound))
        }
    }

    /// The resting order `id` re-entered, last in its new queue, with a new
    /// price and quantity, as a GTC order that does not match.
    pub open spec fn amended(self, id: u64, new_price: Price, new_qty: u64) -> Order {
        Order { quantity: new_qty, price: new_price, order_type: OrderType::GTC, ..self.order_of(id) }
    }

    /// A resting order given a new price and quantity.
    pub open spec fn modify(self, id: u64, new_price: Price, new_qty: u64) -> (
        BookView,
        Result<(), OrderError>,
    ) {
        if !self.holds(id) {
            (self, Err(OrderError::OrderNotFound))
        } else if new_qty == 0 {
            (self, Err(OrderError::ZeroQuantity))
        } else if level_of_price(new_price) is None {
            (self, Err(OrderError::PriceOutOfRange))
        } else {
            (self.without(id).with_resting(self.amended(id, new_price, new_qty)), Ok(()))
        }
    }
}

// ---------------------------------------------------------------- lemmas

pub proof fn lemma_sum_push(s: Seq<Order>, o: Order)
    ensures
        sum_qty(s.push(o)) == sum_qty(s) + o.quantity,
{
    assert(s.push(o).drop_last() =~= s);
}

pub proof fn lemma_sum_nonneg(s: Seq<Order>)
    ensures
        sum_qty(s) >= 0,
    decreases s.len(),
{
    if s.len() > 0 {
        lemma_sum_nonneg(s.drop_last());
    }
}

pub proof fn lemma_sum_append(a: Seq<Order>, b: Seq<Order>)
    ensures
        sum_qty(a + b) == sum_qty(a) + sum_qty(b),
    decreases b.len(),
{
    if b.len() == 0 {
        assert(a + b =~= a);
    } else {
        assert((a + b).drop_last() =~= a + b.drop_last());
        lemma_sum_append(a, b.drop_last());
    }
}

pub proof fn lemma_sum_single(o: Order)
    ensures
        sum_qty(seq![o]) == o.quantity,
{
    assert(seq![o].drop_last() =~= Seq::<Order>::empty());
    assert(sum_qty(Seq::<Order>::empty()) == 0);
    assert(seq![o].last() == o);
}

/// Splitting a sequence around position `k`.
pub proof fn lemma_sum_split(s: Seq<Order>, k: int)
    requires
        0 <= k < s.len(),
    ensures
        sum_qty(s) == sum_qty(s.subrange(0, k)) + s[k].quantity + sum_qty(s.subrange(k + 1, s.len() as int)),
{
    assert(s =~= s.subrange(0, k) + seq![s[k]] + s.subrange(k + 1, s.len() as int));
    lemma_sum_append(s.subrange(0, k) + seq![s[k]], s.subrange(k + 1, s.len() as int));
    lemma_sum_append(s.subrange(0, k), seq![s[k]]);
    lemma_sum_single(s[k]);
}

pub proof fn lemma_sum_remove(s: Seq<Order>, k: int)
    requires
        0 <= k < s.len(),
    ensures
        sum_qty(s.remove(k)) == sum_qty(s) - s[k].quantity,
{
    lemma_sum_split(s, k);
    lemma_sum_append(s.subrange(0, k), s.subrange(k + 1, s.len() as int));
}

pub proof fn lemma_sum_update(s: Seq<Order>, k: int, o: Order)
    requires
        0 <= k < s.len(),
    ensures
        sum_qty(s.update(k, o)) == sum_qty(s) - s[k].quantity + o.quantity,
{
    let t = s.update(k, o);
    lemma_sum_split(s, k);
    lemma_sum_split(t, k);
    assert(t.subrange(0, k) =~= s.subrange(0, k));
    assert(t.subrange(k + 1, t.len() as int) =~= s.subrange(k + 1, s.len() as int));
}

/// With every quantity positive, a queue holds quantity exactly when it
/// holds an order.
pub proof fn lemma_sum_positive(s: Seq<Order>)
    requires
        forall|k: int| 0 <= k < s.len() ==> (#[trigger] s[k]).quantity > 0,
    ensures
        sum_qty(s) == 0 <==> s.len() == 0,
    decreases s.len(),
{
    if s.len() > 0 {
        lemma_sum_nonneg(s.drop_last());
    }
}

/// `a` is what a sweep keeps of the resting order `b`: `b` itself, or `b`
/// with a smaller quantity that is still above zero when `b`'s was.
pub open spec fn kept_of(a: Order, b: Order) -> bool {
    &&& a.id == b.id
    &&& a.user_id == b.user_id
    &&& a.asset_id == b.asset_id
    &&& a.price == b.price
    &&& a.side == b.side
    &&& a.quantity <= b.quantity
    &&& b.quantity > 0 ==> a.quantity > 0
}

/// What a sweep keeps comes from the queue; while the taker still wants
/// more, it keeps only orders of the taker's own user; and it keeps every
/// such order.
pub proof fn lemma_sweep_kept(q: Seq<Order>, n: int, taker: Order, rem: u64)
    requires
        0 <= n <= q.len(),
    ensures
        forall|k: int|
            0 <= k < sweep_prefix(q, n, taker, rem).0.len() ==> exists|j: int|
                0 <= j < n && kept_of(#[trigger] sweep_prefix(q, n, taker, rem).0[k], q[j]),
        sweep_prefix(q, n, taker, rem).2 > 0 ==> forall|k: int|
            0 <= k < sweep_prefix(q, n, taker, rem).0.len() ==> (#[trigger] sweep_prefix(q, n, taker, rem).0[k]).user_id
                == taker.user_id,
        (exists|j: int| 0 <= j < n && (#[trigger] q[j]).user_id == taker.user_id) ==> sweep_prefix(
            q,
            n,
            taker,
            rem,
        ).0.len() > 0,
    decreases n,
{
    if n > 0 {
        lemma_sweep_kept(q, n - 1, taker, rem);
        let p = sweep_prefix(q, n - 1, taker, rem);
        let r = sweep_prefix(q, n, taker, rem);
        let m = q[n - 1];
        assert forall|k: int| 0 <= k < r.0.len() implies exists|j: int| 0 <= j < n && kept_of(#[trigger] r.0[k], q[j]) by {
            if k < p.0.len() {
                assert(r.0[k] == p.0[k]);
                let j = choose|j: int| 0 <= j < n - 1 && kept_of(p.0[k], q[j]);
                assert(kept_of(r.0[k], q[j]));
            } else {
                assert(kept_of(r.0[k], q[n - 1]));
            }
        }
        if r.2 > 0 {
            assert forall|k: int| 0 <= k < r.0.len() implies (#[trigger] r.0[k]).user_id == taker.user_id by {
                if k < p.0.len() {
                    assert(r.0[k] == p.0[k]);
                }
            }
        }
        if exists|j: int| 0 <= j < n && (#[trigger] q[j]).user_id == taker.user_id {
            let j = choose|j: int| 0 <= j < n && (#[trigger] q[j]).user_id == taker.user_id;
            if j < n - 1 {
                assert(p.0.len() > 0);
            }
        }
    }
}

/// A whole-queue sweep, as `lemma_sweep_kept` says.
pub proof fn lemma_sweep_kept_all(q: Seq<Order>, taker: Order, rem: u64)
    ensures
        forall|k: int|
            0 <= k < sweep(q, taker, rem).0.len() ==> exists|j: int|
                0 <= j < q.len() && kept_of(#[trigger] sweep(q, taker, rem).0[k], q[j]),
        sweep(q, taker, rem).2 > 0 ==> forall|k: int|
            0 <= k < sweep(q, taker, rem).0.len() ==> (#[trigger] sweep(q, taker, rem).0[k]).user_id == taker.user_id,
        (exists|j: int| 0 <= j < q.len() && (#[trigger] q[j]).user_id == taker.user_id) ==> sweep(q, taker, rem).0.len() > 0,
{
    lemma_sweep_kept(q, q.len() as int, taker, rem);
}

/// A taker that wants nothing keeps wanting nothing.
pub proof fn lemma_cross_zero(levels: Seq<Seq<Order>>, i: int, taker: Order)
    ensures
        cross_up(levels, i, taker, 0).2 == 0,
        cross_down(levels, i, taker, 0).2 == 0,
{
    lemma_cross_up_zero(levels, i, taker);
    lemma_cross_down_zero(levels, i, taker);
}

proof fn lemma_cross_up_zero(levels: Seq<Seq<Order>>, i: int, taker: Order)
    ensures
        cross_up(levels, i, taker, 0).2 == 0,
    decreases MAX_LEVEL - i,
{
    if 0 <= i < MAX_LEVEL && levels[i].len() == 0 {
        lemma_cross_up_zero(levels, i + 1, taker);
    }
}

proof fn lemma_cross_down_zero(levels: Seq<Seq<Order>>, i: int, taker: Order)
    ensures
        cross_down(levels, i, taker, 0).2 == 0,
    decreases i + 1,
{
    if 0 <= i < MAX_LEVEL && levels[i].len() == 0 {
        lemma_cross_down_zero(levels, i - 1, taker);
    }
}

/// What an upward sweep from `i` leaves the taker wanting does not depend
/// on a level below `i`.
pub proof fn lemma_cross_up_rest_below(levels: Seq<Seq<Order>>, j: int, x: Seq<Order>, i: int, taker: Order, rem: u64)
    requires
        0 <= j < i,
        levels.len() == MAX_LEVEL,
    ensures
        cross_up(levels.update(j, x), i, taker, rem).2 == cross_up(levels, i, taker, rem).2,
    decreases MAX_LEVEL - i,
{
    let l2 = levels.update(j, x);
    if 0 <= i < MAX_LEVEL {
        assert(l2[i] == levels[i]);
        if levels[i].len() == 0 {
            lemma_cross_up_rest_below(levels, j, x, i + 1, taker, rem);
        } else if crosses(taker, i) && rem != 0 {
            let s = sweep(levels[i], taker, rem);
            if passes_on(taker, s) {
                let l3 = levels.update(i, s.0);
                assert(l2.update(i, s.0) =~= l3.update(j, x));
                lemma_cross_up_rest_below(l3, j, x, i + 1, taker, s.2);
            }
        }
    }
}

/// What a downward sweep from `i` leaves the taker wanting does not depend
/// on a level above `i`.
pub proof fn lemma_cross_down_rest_above(levels: Seq<Seq<Order>>, j: int, x: Seq<Order>, i: int, taker: Order, rem: u64)
    requires
        i < j < MAX_LEVEL,
        levels.len() == MAX_LEVEL,
    ensures
        cross_down(levels.update(j, x), i, taker, rem).2 == cross_down(levels, i, taker, rem).2,
    decreases i + 1,
{
    let l2 = levels.update(j, x);
    if 0 <= i < MAX_LEVEL {
        assert(l2[i] == levels[i]);
        if levels[i].len() == 0 {
            lemma_cross_down_rest_above(levels, j, x, i - 1, taker, rem);
        } else if crosses(taker, i) && rem != 0 {
            let s = sweep(levels[i], taker, rem);
            if passes_on(taker, s) {
                let l3 = levels.update(i, s.0);
                assert(l2.update(i, s.0) =~= l3.update(j, x));
                lemma_cross_down_rest_above(l3, j, x, i - 1, taker, s.2);
            }
        }
    }
}

/// Once the taker wants nothing, the sweep keeps the rest of the queue as it is.
pub proof fn lemma_sweep_done(q: Seq<Order>, k: int, n: int, taker: Order, rem: u64)
    requires
        0 <= k <= n <= q.len(),
        sweep_prefix(q, k, taker, rem).2 == 0,
    ensures
        sweep_prefix(q, n, taker, rem) == (
            sweep_prefix(q, k, taker, rem).0 + q.subrange(k, n),
            sweep_prefix(q, k, taker, rem).1,
            0u64,
        ),
    decreases n - k,
{
    if n == k {
        assert(sweep_prefix(q, k, taker, rem).0 + q.subrange(k, n) =~= sweep_prefix(q, k, taker, rem).0);
    } else {
        lemma_sweep_done(q, k, n - 1, taker, rem);
        let p = sweep_prefix(q, k, taker, rem);
        assert((p.0 + q.subrange(k, n - 1)).push(q[n - 1]) =~= p.0 + q.subrange(k, n));
    }
}

/// The orders a sweep keeps have positive quantities when the queue's do.
pub proof fn lemma_sweep_positive(q: Seq<Order>, n: int, taker: Order, rem: u64)
    requires
        0 <= n <= q.len(),
        forall|k: int| 0 <= k < q.len() ==> (#[trigger] q[k]).quantity > 0,
    ensures
        forall|k: int|
            0 <= k < sweep_prefix(q, n, taker, rem).0.len() ==> (#[trigger] sweep_prefix(q, n, taker, rem).0[k]).quantity
                > 0,
    decreases n,
{
    if n > 0 {
        lemma_sweep_positive(q, n - 1, taker, rem);
    }
}

/// Levels with nothing in `[i, j)` do not change an upward sweep.
pub proof fn lemma_cross_up_skip(levels: Seq<Seq<Order>>, i: int, j: int, taker: Order, rem: u64)
    requires
        0 <= i <= j <= MAX_LEVEL,
        forall|k: int| i <= k < j ==> (#[trigger] levels[k]).len() == 0,
    ensures
        cross_up(levels, i, taker, rem) == cross_up(levels, j, taker, rem),
        avail_up(levels, i, taker, rem) == avail_up(levels, j, taker, rem),
        lowest_nonempty(levels, i) == lowest_nonempty(levels, j),
    decreases j - i,
{
    if i < j {
        lemma_cross_up_skip(levels, i + 1, j, taker, rem);
    }
}

/// Levels with nothing in `(j, i]` do not change a downward sweep.
pub proof fn lemma_cross_down_skip(levels: Seq<Seq<Order>>, i: int, j: int, taker: Order, rem: u64)
    requires
        -1 <= j <= i < MAX_LEVEL,
        forall|k: int| j < k <= i ==> (#[trigger] levels[k]).len() == 0,
    ensures
        cross_down(levels, i, taker, rem) == cross_down(levels, j, taker, rem),
        avail_down(levels, i, taker, rem) == avail_down(levels, j, taker, rem),
        highest_nonempty(levels, i) == highest_nonempty(levels, j),
    decreases i - j,
{
    if j < i {
        lemma_cross_down_skip(levels, i - 1, j, taker, rem);
    }
}


/// A sweep never keeps more orders than it saw, nor leaves the taker wanting more.
pub proof fn lemma_sweep_shrinks(q: Seq<Order>, n: int, taker: Order, rem: u64)
    requires
        0 <= n <= q.len(),
    ensures
        sweep_prefix(q, n, taker, rem).0.len() <= n,
        sweep_prefix(q, n, taker, rem).2 <= rem,
    decreases n,
{
    if n > 0 {
        lemma_sweep_shrinks(q, n - 1, taker, rem);
    }
}

/// An upward sweep only shrinks levels, and never leaves the taker wanting more.
pub proof fn lemma_cross_up_shrinks(levels: Seq<Seq<Order>>, i: int, taker: Order, rem: u64)
    requires
        levels.len() == MAX_LEVEL,
    ensures
        cross_up(levels, i, taker, rem).0.len() == MAX_LEVEL,
        forall|k: int| 0 <= k < MAX_LEVEL ==> (#[trigger] cross_up(levels, i, taker, rem).0[k]).len() <= levels[k].len(),
        cross_up(levels, i, taker, rem).2 <= rem,
    decreases MAX_LEVEL - i,
{
    if i < 0 || i >= MAX_LEVEL {
    } else if levels[i].len() == 0 {
        lemma_cross_up_shrinks(levels, i + 1, taker, rem);
    } else if !crosses(taker, i) || rem == 0 {
    } else {
        let sw = sweep(levels[i], taker, rem);
        lemma_sweep_shrinks(levels[i], levels[i].len() as int, taker, rem);
        if passes_on(taker, sw) {
            let l2 = levels.update(i, sw.0);
            lemma_cross_up_shrinks(l2, i + 1, taker, sw.2);
            assert forall|k: int| 0 <= k < MAX_LEVEL implies (#[trigger] cross_up(levels, i, taker, rem).0[k]).len()
                <= levels[k].len() by {
                assert(cross_up(l2, i + 1, taker, sw.2).0[k].len() <= l2[k].len());
            }
        }
    }
}

/// A downward sweep only shrinks levels, and never leaves the taker wanting more.
pub proof fn lemma_cross_down_shrinks(levels: Seq<Seq<Order>>, i: int, taker: Order, rem: u64)
    requires
        levels.len() == MAX_LEVEL,
    ensures
        cross_down(levels, i, taker, rem).0.len() == MAX_LEVEL,
        forall|k: int| 0 <= k < MAX_LEVEL ==> (#[trigger] cross_down(levels, i, taker, rem).0[k]).len() <= levels[k].len(),
        cross_down(levels, i, taker, rem).2 <= rem,
    decreases i + 1,
{
    if i < 0 || i >= MAX_LEVEL {
    } else if levels[i].len() == 0 {
        lemma_cross_down_shrinks(levels, i - 1, taker, rem);
    } else if !crosses(taker, i) || rem == 0 {
    } else {
        let sw = sweep(levels[i], taker, rem);
        lemma_sweep_shrinks(levels[i], levels[i].len() as int, taker, rem);
        if passes_on(taker, sw) {
            let l2 = levels.update(i, sw.0);
            lemma_cross_down_shrinks(l2, i - 1, taker, sw.2);
            assert forall|k: int| 0 <= k < MAX_LEVEL implies (#[trigger] cross_down(levels, i, taker, rem).0[k]).len()
                <= levels[k].len() by {
                assert(cross_down(l2, i - 1, taker, sw.2).0[k].len() <= l2[k].len());
            }
        }
    }
}

/// What `lowest_nonempty` finds from `i`.
pub proof fn lemma_lowest_facts(levels: Seq<Seq<Order>>, i: int)
    requires
        0 <= i,
    ensures
        match lowest_nonempty(levels, i) {
            Some(b) => i <= b < MAX_LEVEL && levels[b as int].len() > 0 && forall|k: int|
                i <= k < b ==> (#[trigger] levels[k]).len() == 0,
            None => forall|k: int| i <= k < MAX_LEVEL ==> (#[trigger] levels[k]).len() == 0,
        },
    decreases MAX_LEVEL - i,
{
    if i < MAX_LEVEL && levels[i].len() == 0 {
        lemma_lowest_facts(levels, i + 1);
    }
}

/// What `highest_nonempty` finds from `i`.
pub proof fn lemma_highest_facts(levels: Seq<Seq<Order>>, i: int)
    requires
        i < MAX_LEVEL,
    ensures
        match highest_nonempty(levels, i) {
            Some(b) => 0 <= b <= i && levels[b as int].len() > 0 && forall|k: int|
                b < k <= i ==> (#[trigger] levels[k]).len() == 0,
            None => forall|k: int| 0 <= k <= i ==> (#[trigger] levels[k]).len() == 0,
        },
    decreases i + 1,
{
    if i >= 0 && levels[i].len() == 0 {
        lemma_highest_facts(levels, i - 1);
    }
}

/// `lowest_nonempty` is determined by where the levels are empty.
pub proof fn lemma_lowest_is(levels: Seq<Seq<Order>>, i: int, r: Option<usize>)
    requires
        0 <= i <= MAX_LEVEL,
        match r {
            Some(b) => i <= b < MAX_LEVEL && levels[b as int].len() > 0 && forall|k: int|
                i <= k < b ==> (#[trigger] levels[k]).len() == 0,
            None => forall|k: int| i <= k < MAX_LEVEL ==> (#[trigger] levels[k]).len() == 0,
        },
    ensures
        lowest_nonempty(levels, i) == r,
{
    let t = Order {
        id: 0,
        user_id: 0,
        asset_id: 0,
        quantity: 0,
        price: Price(0),
        side: OrderSide::Buy,
        order_type: OrderType::GTC,
        timestamp: 0,
    };
    match r {
        Some(b) => {
            lemma_cross_up_skip(levels, i, b as int, t, 0);
        },
        None => {
            lemma_cross_up_skip(levels, i, MAX_LEVEL as int, t, 0);
        },
    }
}

/// `highest_nonempty` is determined by where the levels are empty.
pub proof fn lemma_highest_is(levels: Seq<Seq<Order>>, i: int, r: Option<usize>)
    requires
        -1 <= i < MAX_LEVEL,
        match r {
            Some(b) => 0 <= b <= i && levels[b as int].len() > 0 && forall|k: int|
                b < k <= i ==> (#[trigger] levels[k]).len() == 0,
            None => forall|k: int| 0 <= k <= i ==> (#[trigger] levels[k]).len() == 0,
        },
    ensures
        highest_nonempty(levels, i) == r,
{
    let t = Order {
        id: 0,
        user_id: 0,
        asset_id: 0,
        quantity: 0,
        price: Price(0),
        side: OrderSide::Buy,
        order_type: OrderType::GTC,
        timestamp: 0,
    };
    match r {
        Some(b) => {
            lemma_cross_down_skip(levels, i, b as int, t, 0);
        },
        None => {
            lemma_cross_down_skip(levels, i, -1, t, 0);
        },
    }
}


/// Replacing a level twice keeps the second replacement.
pub proof fn lemma_with_level(v: BookView, s: OrderSide, l: int, q1: Seq<Order>, q2: Seq<Order>)
    requires
        0 <= l < v.levels(s).len(),
    ensures
        v.with_level(s, l, q1).with_level(s, l, q2) == v.with_level(s, l, q2),
        v.with_level(s, l, q1).levels(s)[l] == q1,
        v.with_level(s, l, q1).levels(s).len() == v.levels(s).len(),
        v.with_level(s, l, q1).levels(s.opposite()) == v.levels(s.opposite()),
{
    assert(v.with_level(s, l, q1).with_level(s, l, q2).bids =~= v.with_level(s, l, q2).bids);
    assert(v.with_level(s, l, q1).with_level(s, l, q2).asks =~= v.with_level(s, l, q2).asks);
}


/// What a taker would still want never exceeds what it wants.
pub proof fn lemma_avail_le(levels: Seq<Seq<Order>>, i: int, taker: Order, rem: u64)
    ensures
        avail_up(levels, i, taker, rem) <= rem,
        avail_down(levels, i, taker, rem) <= rem,
{
    lemma_avail_up_le(levels, i, taker, rem);
    lemma_avail_down_le(levels, i, taker, rem);
}

proof fn lemma_avail_up_le(levels: Seq<Seq<Order>>, i: int, taker: Order, rem: u64)
    ensures
        avail_up(levels, i, taker, rem) <= rem,
    decreases MAX_LEVEL - i,
{
    if i < 0 || i >= MAX_LEVEL {
    } else if levels[i].len() == 0 {
        lemma_avail_up_le(levels, i + 1, taker, rem);
    } else if !crosses(taker, i) || rem == 0 {
    } else {
        lemma_sweep_shrinks(levels[i], levels[i].len() as int, taker, rem);
        lemma_avail_up_le(levels, i + 1, taker, sweep(levels[i], taker, rem).2);
    }
}

proof fn lemma_avail_down_le(levels: Seq<Seq<Order>>, i: int, taker: Order, rem: u64)
    ensures
        avail_down(levels, i, taker, rem) <= rem,
    decreases i + 1,
{
    if i < 0 || i >= MAX_LEVEL {
    } else if levels[i].len() == 0 {
        lemma_avail_down_le(levels, i - 1, taker, rem);
    } else if !crosses(taker, i) || rem == 0 {
    } else {
        lemma_sweep_shrinks(levels[i], levels[i].len() as int, taker, rem);
        lemma_avail_down_le(levels, i - 1, taker, sweep(levels[i], taker, rem).2);
    }
}

} // verus!
