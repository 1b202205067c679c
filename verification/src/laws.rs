//! Properties of the engine that hold for every input.
use vstd::prelude::*;

use vstd::bytes::{lemma_auto_spec_u32_to_from_le_bytes, lemma_auto_spec_u64_to_from_le_bytes};

use crate::codec::{decode_spec, frame, read64};
use crate::command::Command;
use crate::journal::{frame_total, split_spec};
use crate::market_data::{best_events, cancel_events, modify_events, submit_events, trade_events, MarketDataEvent};
use crate::session::session_split;
use crate::matching::{
    avail_down, avail_up, cross_down, cross_up, crosses, fill_of, min_qty, passes_on, sweep, sweep_prefix, BookView,
};
use crate::order::{side_of_code, type_of_code, Order, OrderSide, OrderType};
use crate::price::Price;
use crate::price_level::{level_of_price, price_of_level, MAX_LEVEL, PRICE_OFFSET};
use crate::protocol::{
    le32, le64, CancelOrderMsg, ModifyOrderMsg, NewOrderMsg, MSG_CANCEL_ORDER, MSG_MODIFY_ORDER, MSG_NEW_ORDER,
    HEADER_SIZE,
};
use crate::trade::Trade;

verus! {

/// The total quantity of a sequence of fills.
pub open spec fn traded(ts: Seq<Trade>) -> int
    decreases ts.len(),
{
    if ts.len() == 0 {
        0
    } else {
        traded(ts.drop_last()) + ts.last().quantity
    }
}

proof fn lemma_traded_append(a: Seq<Trade>, b: Seq<Trade>)
    ensures
        traded(a + b) == traded(a) + traded(b),
    decreases b.len(),
{
    if b.len() == 0 {
        assert(a + b =~= a);
    } else {
        assert((a + b).drop_last() =~= a + b.drop_last());
        lemma_traded_append(a, b.drop_last());
    }
}

proof fn lemma_sweep_conserves(q: Seq<Order>, n: int, taker: Order, rem: u64)
    requires
        0 <= n <= q.len(),
    ensures
        traded(sweep_prefix(q, n, taker, rem).1) + sweep_prefix(q, n, taker, rem).2 == rem,
    decreases n,
{
    if n > 0 {
        lemma_sweep_conserves(q, n - 1, taker, rem);
        let p = sweep_prefix(q, n - 1, taker, rem);
        let m = q[n - 1];
        if !(p.2 == 0 || m.user_id == taker.user_id) {
            let t = crate::matching::min_qty(p.2, m.quantity);
            assert(p.1.push(crate::matching::fill_of(taker, m, t)).drop_last() =~= p.1);
        }
    }
}

proof fn lemma_cross_up_conserves(levels: Seq<Seq<Order>>, i: int, taker: Order, rem: u64)
    ensures
        traded(cross_up(levels, i, taker, rem).1) + cross_up(levels, i, taker, rem).2 == rem,
    decreases MAX_LEVEL - i,
{
    if i < 0 || i >= MAX_LEVEL {
    } else if levels[i].len() == 0 {
        lemma_cross_up_conserves(levels, i + 1, taker, rem);
    } else if !crosses(taker, i) || rem == 0 {
    } else {
        let s = sweep(levels[i], taker, rem);
        lemma_sweep_conserves(levels[i], levels[i].len() as int, taker, rem);
        if passes_on(taker, s) {
            lemma_cross_up_conserves(levels.update(i, s.0), i + 1, taker, s.2);
            lemma_traded_append(s.1, cross_up(levels.update(i, s.0), i + 1, taker, s.2).1);
        }
    }
}

proof fn lemma_cross_down_conserves(levels: Seq<Seq<Order>>, i: int, taker: Order, rem: u64)
    ensures
        traded(cross_down(levels, i, taker, rem).1) + cross_down(levels, i, taker, rem).2 == rem,
    decreases i + 1,
{
    if i < 0 || i >= MAX_LEVEL {
    } else if levels[i].len() == 0 {
        lemma_cross_down_conserves(levels, i - 1, taker, rem);
    } else if !crosses(taker, i) || rem == 0 {
    } else {
        let s = sweep(levels[i], taker, rem);
        lemma_sweep_conserves(levels[i], levels[i].len() as int, taker, rem);
        if passes_on(taker, s) {
            lemma_cross_down_conserves(levels.update(i, s.0), i - 1, taker, s.2);
            lemma_traded_append(s.1, cross_down(levels.update(i, s.0), i - 1, taker, s.2).1);
        }
    }
}

/// Matching accounts for the whole of an incoming order: what its fills
/// traded plus what it still wants is what it asked for.
pub proof fn law_cross_conserves_quantity(v: BookView, taker: Order)
    ensures
        traded(v.cross(taker).1) + v.cross(taker).2 == taker.quantity,
{
    match taker.side {
        OrderSide::Buy => lemma_cross_up_conserves(v.asks, 0, taker, taker.quantity),
        OrderSide::Sell => lemma_cross_down_conserves(v.bids, MAX_LEVEL - 1, taker, taker.quantity),
    }
}

/// Every order of `levels` rests at the level of its price.
pub open spec fn well_placed(levels: Seq<Seq<Order>>) -> bool {
    forall|i: int, k: int|
        0 <= i < levels.len() && 0 <= k < levels[i].len() ==> level_of_price(#[trigger] levels[i][k].price)
            == Some(i as usize)
}

/// Whether a fill's price is within the limit of `taker`.
pub open spec fn within_limit(taker: Order, t: Trade) -> bool {
    match taker.side {
        OrderSide::Buy => t.price.0 <= taker.price.0,
        OrderSide::Sell => t.price.0 >= taker.price.0,
    }
}

proof fn lemma_sweep_within(q: Seq<Order>, n: int, taker: Order, rem: u64, i: int)
    requires
        0 <= n <= q.len(),
        0 <= i < MAX_LEVEL,
        crosses(taker, i),
        forall|k: int| 0 <= k < q.len() ==> level_of_price(#[trigger] q[k].price) == Some(i as usize),
    ensures
        forall|j: int|
            0 <= j < sweep_prefix(q, n, taker, rem).1.len() ==> within_limit(
                taker,
                #[trigger] sweep_prefix(q, n, taker, rem).1[j],
            ),
    decreases n,
{
    if n > 0 {
        lemma_sweep_within(q, n - 1, taker, rem, i);
        let m = q[n - 1];
        assert(level_of_price(m.price) == Some(i as usize));
        assert(m.price.0 == i + PRICE_OFFSET);
        let p = sweep_prefix(q, n - 1, taker, rem);
        let r = sweep_prefix(q, n, taker, rem);
        assert forall|j: int| 0 <= j < r.1.len() implies within_limit(taker, #[trigger] r.1[j]) by {
            if j < p.1.len() {
                assert(r.1[j] == p.1[j]);
            }
        }
    }
}

proof fn lemma_cross_up_within(levels: Seq<Seq<Order>>, i: int, taker: Order, rem: u64)
    requires
        well_placed(levels),
        levels.len() == MAX_LEVEL,
    ensures
        forall|j: int|
            0 <= j < cross_up(levels, i, taker, rem).1.len() ==> within_limit(taker, #[trigger] cross_up(levels, i, taker, rem).1[j]),
    decreases MAX_LEVEL - i,
{
    let c = cross_up(levels, i, taker, rem);
    if i < 0 || i >= MAX_LEVEL {
        assert(c.1.len() == 0);
    } else if levels[i].len() == 0 {
        lemma_cross_up_within(levels, i + 1, taker, rem);
        assert(c == cross_up(levels, i + 1, taker, rem));
    } else if !crosses(taker, i) || rem == 0 {
        assert(c.1.len() == 0);
    } else {
        let s = sweep(levels[i], taker, rem);
        assert forall|k: int| 0 <= k < levels[i].len() implies level_of_price(#[trigger] levels[i][k].price) == Some(i as usize) by {
            assert(level_of_price(levels[i][k].price) == Some(i as usize));
        }
        lemma_sweep_within(levels[i], levels[i].len() as int, taker, rem, i);
        assert(forall|j: int| 0 <= j < s.1.len() ==> within_limit(taker, #[trigger] s.1[j]));
        if passes_on(taker, s) {
            let l2 = levels.update(i, s.0);
            lemma_update_kept_placed(levels, i, taker, rem);
            lemma_cross_up_within(l2, i + 1, taker, s.2);
            let r = cross_up(l2, i + 1, taker, s.2);
            assert(c.1 == s.1 + r.1);
            assert forall|j: int| 0 <= j < c.1.len() implies within_limit(taker, #[trigger] c.1[j]) by {
                if j >= s.1.len() {
                    assert(c.1[j] == r.1[j - s.1.len()]);
                } else {
                    assert(c.1[j] == s.1[j]);
                }
            }
        } else {
            assert(c.1 == s.1);
        }
    }
}

proof fn lemma_cross_down_within(levels: Seq<Seq<Order>>, i: int, taker: Order, rem: u64)
    requires
        well_placed(levels),
        levels.len() == MAX_LEVEL,
    ensures
        forall|j: int|
            0 <= j < cross_down(levels, i, taker, rem).1.len() ==> within_limit(taker, #[trigger] cross_down(levels, i, taker, rem).1[j]),
    decreases i + 1,
{
    let c = cross_down(levels, i, taker, rem);
    if i < 0 || i >= MAX_LEVEL {
        assert(c.1.len() == 0);
    } else if levels[i].len() == 0 {
        lemma_cross_down_within(levels, i - 1, taker, rem);
        assert(c == cross_down(levels, i - 1, taker, rem));
    } else if !crosses(taker, i) || rem == 0 {
        assert(c.1.len() == 0);
    } else {
        let s = sweep(levels[i], taker, rem);
        assert forall|k: int| 0 <= k < levels[i].len() implies level_of_price(#[trigger] levels[i][k].price) == Some(i as usize) by {
            assert(level_of_price(levels[i][k].price) == Some(i as usize));
        }
        lemma_sweep_within(levels[i], levels[i].len() as int, taker, rem, i);
        assert(forall|j: int| 0 <= j < s.1.len() ==> within_limit(taker, #[trigger] s.1[j]));
        if passes_on(taker, s) {
            let l2 = levels.update(i, s.0);
            lemma_update_kept_placed(levels, i, taker, rem);
            lemma_cross_down_within(l2, i - 1, taker, s.2);
            let r = cross_down(l2, i - 1, taker, s.2);
            assert(c.1 == s.1 + r.1);
            assert forall|j: int| 0 <= j < c.1.len() implies within_limit(taker, #[trigger] c.1[j]) by {
                if j >= s.1.len() {
                    assert(c.1[j] == r.1[j - s.1.len()]);
                } else {
                    assert(c.1[j] == s.1[j]);
                }
            }
        } else {
            assert(c.1 == s.1);
        }
    }
}

/// Every fill of an incoming order is priced within its limit.
pub proof fn law_fills_within_limit(v: BookView, taker: Order)
    requires
        v.bids.len() == MAX_LEVEL,
        v.asks.len() == MAX_LEVEL,
        well_placed(v.bids),
        well_placed(v.asks),
    ensures
        forall|j: int| 0 <= j < v.cross(taker).1.len() ==> within_limit(taker, #[trigger] v.cross(taker).1[j]),
{
    match taker.side {
        OrderSide::Buy => lemma_cross_up_within(v.asks, 0, taker, taker.quantity),
        OrderSide::Sell => lemma_cross_down_within(v.bids, MAX_LEVEL - 1, taker, taker.quantity),
    }
}

/// No order of `user` rests in `levels`.
pub open spec fn none_of_user(levels: Seq<Seq<Order>>, user: u64) -> bool {
    forall|i: int, k: int| 0 <= i < levels.len() && 0 <= k < levels[i].len() ==> (#[trigger] levels[i][k]).user_id != user
}

proof fn lemma_sweep_no_self(q: Seq<Order>, n: int, taker: Order, rem: u64)
    requires
        0 <= n <= q.len(),
        forall|k: int| 0 <= k < q.len() ==> (#[trigger] q[k]).user_id != taker.user_id,
    ensures
        sweep_prefix(q, n, taker, rem).0.len() > 0 ==> sweep_prefix(q, n, taker, rem).2 == 0,
    decreases n,
{
    if n > 0 {
        lemma_sweep_no_self(q, n - 1, taker, rem);
    }
}

proof fn lemma_avail_up_zero(levels: Seq<Seq<Order>>, i: int, taker: Order)
    ensures
        avail_up(levels, i, taker, 0) == 0,
    decreases MAX_LEVEL - i,
{
    if 0 <= i < MAX_LEVEL && levels[i].len() == 0 {
        lemma_avail_up_zero(levels, i + 1, taker);
    }
}

proof fn lemma_avail_down_zero(levels: Seq<Seq<Order>>, i: int, taker: Order)
    ensures
        avail_down(levels, i, taker, 0) == 0,
    decreases i + 1,
{
    if 0 <= i < MAX_LEVEL && levels[i].len() == 0 {
        lemma_avail_down_zero(levels, i - 1, taker);
    }
}

proof fn lemma_avail_up_below(levels: Seq<Seq<Order>>, j: int, x: Seq<Order>, i: int, taker: Order, rem: u64)
    requires
        0 <= j < i,
        levels.len() == MAX_LEVEL,
    ensures
        avail_up(levels.update(j, x), i, taker, rem) == avail_up(levels, i, taker, rem),
    decreases MAX_LEVEL - i,
{
    if 0 <= i < MAX_LEVEL {
        assert(levels.update(j, x)[i] == levels[i]);
        if levels[i].len() == 0 {
            lemma_avail_up_below(levels, j, x, i + 1, taker, rem);
        } else if crosses(taker, i) && rem != 0 {
            lemma_avail_up_below(levels, j, x, i + 1, taker, sweep(levels[i], taker, rem).2);
        }
    }
}

proof fn lemma_avail_down_above(levels: Seq<Seq<Order>>, j: int, x: Seq<Order>, i: int, taker: Order, rem: u64)
    requires
        i < j < MAX_LEVEL,
        levels.len() == MAX_LEVEL,
    ensures
        avail_down(levels.update(j, x), i, taker, rem) == avail_down(levels, i, taker, rem),
    decreases i + 1,
{
    if 0 <= i < MAX_LEVEL {
        assert(levels.update(j, x)[i] == levels[i]);
        if levels[i].len() == 0 {
            lemma_avail_down_above(levels, j, x, i - 1, taker, rem);
        } else if crosses(taker, i) && rem != 0 {
            lemma_avail_down_above(levels, j, x, i - 1, taker, sweep(levels[i], taker, rem).2);
        }
    }
}

proof fn lemma_cross_up_is_avail(levels: Seq<Seq<Order>>, i: int, taker: Order, rem: u64)
    requires
        none_of_user(levels, taker.user_id) || taker.order_type == OrderType::FOK,
        levels.len() == MAX_LEVEL,
    ensures
        cross_up(levels, i, taker, rem).2 == avail_up(levels, i, taker, rem),
    decreases MAX_LEVEL - i,
{
    if i < 0 || i >= MAX_LEVEL {
    } else if levels[i].len() == 0 {
        lemma_cross_up_is_avail(levels, i + 1, taker, rem);
    } else if !crosses(taker, i) || rem == 0 {
    } else {
        let s = sweep(levels[i], taker, rem);
        let l2 = levels.update(i, s.0);
        if none_of_user(levels, taker.user_id) {
            assert forall|k: int| 0 <= k < levels[i].len() implies (#[trigger] levels[i][k]).user_id != taker.user_id by {
                assert(levels[i][k].user_id != taker.user_id);
            }
            lemma_sweep_no_self(levels[i], levels[i].len() as int, taker, rem);
        }
        if passes_on(taker, s) {
            if none_of_user(levels, taker.user_id) {
                assert(s.0.len() == 0);
                assert(none_of_user(l2, taker.user_id));
            }
            lemma_cross_up_is_avail(l2, i + 1, taker, s.2);
            lemma_avail_up_below(levels, i, s.0, i + 1, taker, s.2);
        } else {
            lemma_avail_up_zero(levels, i + 1, taker);
        }
    }
}

proof fn lemma_cross_down_is_avail(levels: Seq<Seq<Order>>, i: int, taker: Order, rem: u64)
    requires
        none_of_user(levels, taker.user_id) || taker.order_type == OrderType::FOK,
        levels.len() == MAX_LEVEL,
    ensures
        cross_down(levels, i, taker, rem).2 == avail_down(levels, i, taker, rem),
    decreases i + 1,
{
    if i < 0 || i >= MAX_LEVEL {
    } else if levels[i].len() == 0 {
        lemma_cross_down_is_avail(levels, i - 1, taker, rem);
    } else if !crosses(taker, i) || rem == 0 {
    } else {
        let s = sweep(levels[i], taker, rem);
        let l2 = levels.update(i, s.0);
        if none_of_user(levels, taker.user_id) {
            assert forall|k: int| 0 <= k < levels[i].len() implies (#[trigger] levels[i][k]).user_id != taker.user_id by {
                assert(levels[i][k].user_id != taker.user_id);
            }
            lemma_sweep_no_self(levels[i], levels[i].len() as int, taker, rem);
        }
        if passes_on(taker, s) {
            if none_of_user(levels, taker.user_id) {
                assert(s.0.len() == 0);
                assert(none_of_user(l2, taker.user_id));
            }
            lemma_cross_down_is_avail(l2, i - 1, taker, s.2);
            lemma_avail_down_above(levels, i, s.0, i - 1, taker, s.2);
        } else {
            lemma_avail_down_zero(levels, i - 1, taker);
        }
    }
}

/// Fill or kill: a FOK order trades its whole quantity when the orders of
/// other users on the opposite side within its limit can fill it, and
/// otherwise does not trade and leaves the book as it was.
pub proof fn law_fok_all_or_nothing(v: BookView, o: Order)
    requires
        o.order_type == OrderType::FOK,
        v.bids.len() == MAX_LEVEL,
        v.asks.len() == MAX_LEVEL,
        v.submit(o).1 is Ok,
    ensures
        traded(v.submit(o).1->Ok_0) == o.quantity || v.submit(o).1->Ok_0.len() == 0,
        v.unfilled(o) == 0 ==> traded(v.submit(o).1->Ok_0) == o.quantity,
        v.unfilled(o) != 0 ==> v.submit(o).1->Ok_0.len() == 0 && v.submit(o).0 == v,
{
    law_cross_conserves_quantity(v, o);
    match o.side {
        OrderSide::Buy => lemma_cross_up_is_avail(v.asks, 0, o, o.quantity),
        OrderSide::Sell => lemma_cross_down_is_avail(v.bids, MAX_LEVEL - 1, o, o.quantity),
    }
}

/// An order that joins the book and is then cancelled leaves the book as it
/// was.
pub proof fn law_cancel_undoes_rest(v: BookView, o: Order)
    requires
        !v.holds(o.id),
        level_of_price(o.price) is Some,
        v.bids.len() == MAX_LEVEL,
        v.asks.len() == MAX_LEVEL,
    ensures
        v.with_resting(o).cancel(o.id) == (v, Ok::<(), crate::error::OrderError>(())),
{
    let l = level_of_price(o.price)->0 as int;
    let w = v.with_resting(o);
    let q = v.levels(o.side)[l];
    crate::matching::lemma_with_level(v, o.side, l, q.push(o), q.push(o));
    assert(w.levels(o.side)[l][q.len() as int] == o);
    assert(w.holds(o.id));
    let (s, i, k) = w.location(o.id);
    assert(0 <= i < MAX_LEVEL && 0 <= k < w.levels(s)[i].len() && w.levels(s)[i][k].id == o.id);
    if !(s == o.side && i == l && k == q.len()) {
        if s == o.side && i == l {
            assert(w.levels(s)[i][k] == q[k]);
        } else {
            assert(w.levels(s)[i] == v.levels(s)[i]) by {
                if s != o.side {
                    assert(s == o.side.opposite());
                }
            }
        }
        assert(v.levels(s)[i][k].id == o.id);
        assert(v.holds(o.id));
    }
    assert(q.push(o).remove(q.len() as int) =~= q);
    crate::matching::lemma_with_level(v, o.side, l, q.push(o), q);
    assert(v.with_level(o.side, l, q).bids =~= v.bids);
    assert(v.with_level(o.side, l, q).asks =~= v.asks);
}

/// Every level's price falls on that level, and every price that falls on a
/// level is that level's price.
pub proof fn law_price_level_inverse(i: int, p: Price)
    ensures
        0 <= i < MAX_LEVEL ==> level_of_price(price_of_level(i)) == Some(i as usize),
        level_of_price(p) matches Some(j) ==> price_of_level(j as int) == p,
{
}

/// A frame written around a payload is read back whole, ahead of whatever
/// follows it.
pub proof fn law_split_frame(msg_type: u8, payload: Seq<u8>, rest: Seq<u8>)
    requires
        payload.len() + 1 <= u32::MAX,
    ensures
        split_spec(frame(msg_type, payload) + rest) == seq![frame(msg_type, payload)] + split_spec(rest),
{
    lemma_auto_spec_u32_to_from_le_bytes();
    let f = frame(msg_type, payload);
    let b = f + rest;
    let len = (1 + payload.len()) as u32;
    assert(le32(len).len() == 4);
    assert(b.subrange(0, 4) =~= le32(len));
    assert(frame_total(b) == 4 + 1 + payload.len());
    assert(b.subrange(0, frame_total(b)) =~= f);
    assert(b.subrange(frame_total(b), b.len() as int) =~= rest);
}

proof fn lemma_read64_at(bytes: Seq<u8>, pre: Seq<u8>, x: u64, post: Seq<u8>)
    requires
        bytes =~= pre + le64(x) + post,
    ensures
        read64(bytes, pre.len() as int) == x,
{
    lemma_auto_spec_u64_to_from_le_bytes();
    assert(le64(x).len() == 8);
    assert(bytes.subrange(pre.len() as int, pre.len() as int + 8) =~= le64(x));
}

/// A new-order message with valid codes decodes to the order it describes.
pub proof fn law_decode_new_order(m: NewOrderMsg, ts: u64)
    requires
        side_of_code(m.side) is Some,
        type_of_code(m.order_type) is Some,
    ensures
        decode_spec(MSG_NEW_ORDER, m.spec_bytes(), ts) == Some(
            Command::AddOrder {
                client_seq: m.client_seq,
                order: Order {
                    id: m.order_id,
                    user_id: m.user_id,
                    asset_id: m.asset_id,
                    quantity: m.quantity,
                    price: Price(m.price),
                    side: side_of_code(m.side)->0,
                    order_type: type_of_code(m.order_type)->0,
                    timestamp: ts,
                },
            },
        ),
{
    lemma_auto_spec_u64_to_from_le_bytes();
    let b = m.spec_bytes();
    let e = Seq::<u8>::empty();
    let codes = seq![m.side, m.order_type];
    assert(b.len() == 50);
    lemma_read64_at(b, e, m.client_seq, le64(m.order_id) + le64(m.user_id) + le64(m.asset_id) + le64(m.price) + le64(m.quantity) + codes);
    lemma_read64_at(b, le64(m.client_seq), m.order_id, le64(m.user_id) + le64(m.asset_id) + le64(m.price) + le64(m.quantity) + codes);
    lemma_read64_at(b, le64(m.client_seq) + le64(m.order_id), m.user_id, le64(m.asset_id) + le64(m.price) + le64(m.quantity) + codes);
    lemma_read64_at(b, le64(m.client_seq) + le64(m.order_id) + le64(m.user_id), m.asset_id, le64(m.price) + le64(m.quantity) + codes);
    lemma_read64_at(b, le64(m.client_seq) + le64(m.order_id) + le64(m.user_id) + le64(m.asset_id), m.price, le64(m.quantity) + codes);
    lemma_read64_at(b, le64(m.client_seq) + le64(m.order_id) + le64(m.user_id) + le64(m.asset_id) + le64(m.price), m.quantity, codes);
    assert(b[48] == m.side);
    assert(b[49] == m.order_type);
}

/// A cancel message decodes to the cancellation it describes.
pub proof fn law_decode_cancel_order(m: CancelOrderMsg, ts: u64)
    ensures
        decode_spec(MSG_CANCEL_ORDER, m.spec_bytes(), ts) == Some(
            Command::CancelOrder { client_seq: m.client_seq, asset_id: m.asset_id, order_id: m.order_id },
        ),
{
    lemma_auto_spec_u64_to_from_le_bytes();
    let b = m.spec_bytes();
    let e = Seq::<u8>::empty();
    assert(b.len() == 24);
    lemma_read64_at(b, e, m.client_seq, le64(m.order_id) + le64(m.asset_id));
    lemma_read64_at(b, le64(m.client_seq), m.order_id, le64(m.asset_id));
    lemma_read64_at(b, le64(m.client_seq) + le64(m.order_id), m.asset_id, e);
}

/// A modify message decodes to the modification it describes.
pub proof fn law_decode_modify_order(m: ModifyOrderMsg, ts: u64)
    ensures
        decode_spec(MSG_MODIFY_ORDER, m.spec_bytes(), ts) == Some(
            Command::ModifyOrder {
                client_seq: m.client_seq,
                asset_id: m.asset_id,
                order_id: m.order_id,
                new_price: Price(m.new_price),
                new_qty: m.new_qty,
            },
        ),
{
    lemma_auto_spec_u64_to_from_le_bytes();
    let b = m.spec_bytes();
    let e = Seq::<u8>::empty();
    assert(b.len() == 40);
    lemma_read64_at(b, e, m.client_seq, le64(m.order_id) + le64(m.asset_id) + le64(m.new_price) + le64(m.new_qty));
    lemma_read64_at(b, le64(m.client_seq), m.order_id, le64(m.asset_id) + le64(m.new_price) + le64(m.new_qty));
    lemma_read64_at(b, le64(m.client_seq) + le64(m.order_id), m.asset_id, le64(m.new_price) + le64(m.new_qty));
    lemma_read64_at(b, le64(m.client_seq) + le64(m.order_id) + le64(m.asset_id), m.new_price, le64(m.new_qty));
    lemma_read64_at(b, le64(m.client_seq) + le64(m.order_id) + le64(m.asset_id) + le64(m.new_price), m.new_qty, e);
}

/// `t` is a fill of `taker` against an order of the queue `q`: it carries
/// the taker's id, side and stamp, a positive quantity no larger than that
/// order's, and the id and price of that order, which belongs to another
/// user.
pub open spec fn fill_against(q: Seq<Order>, taker: Order, t: Trade) -> bool {
    &&& t.taker_order_id == taker.id
    &&& t.taker_side == taker.side
    &&& t.timestamp == taker.timestamp
    &&& 0 < t.quantity
    &&& exists|k: int|
        0 <= k < q.len() && (#[trigger] q[k]).id == t.maker_order_id && q[k].user_id != taker.user_id && q[k].price
            == t.price && t.quantity <= q[k].quantity
}

/// `t` is a fill of `taker` against an order of one of `levels`.
pub open spec fn fill_in(levels: Seq<Seq<Order>>, taker: Order, t: Trade) -> bool {
    exists|i: int| 0 <= i < levels.len() && fill_against(#[trigger] levels[i], taker, t)
}

/// Every order of `levels` has a quantity above zero.
pub open spec fn all_positive(levels: Seq<Seq<Order>>) -> bool {
    forall|i: int, k: int| 0 <= i < levels.len() && 0 <= k < levels[i].len() ==> (#[trigger] levels[i][k]).quantity > 0
}

proof fn lemma_sweep_genuine(q: Seq<Order>, n: int, taker: Order, rem: u64)
    requires
        0 <= n <= q.len(),
        forall|k: int| 0 <= k < q.len() ==> (#[trigger] q[k]).quantity > 0,
    ensures
        forall|j: int|
            0 <= j < sweep_prefix(q, n, taker, rem).1.len() ==> fill_against(q, taker, #[trigger] sweep_prefix(q, n, taker, rem).1[j]),
    decreases n,
{
    if n > 0 {
        lemma_sweep_genuine(q, n - 1, taker, rem);
        let p = sweep_prefix(q, n - 1, taker, rem);
        let r = sweep_prefix(q, n, taker, rem);
        let m = q[n - 1];
        assert forall|j: int| 0 <= j < r.1.len() implies fill_against(q, taker, #[trigger] r.1[j]) by {
            if j < p.1.len() {
                assert(r.1[j] == p.1[j]);
            } else {
                assert(q[n - 1] == m);
            }
        }
    }
}

proof fn lemma_update_kept_fill(levels: Seq<Seq<Order>>, i: int, taker: Order, rem: u64, t: Trade)
    requires
        0 <= i < levels.len(),
        fill_in(levels.update(i, sweep(levels[i], taker, rem).0), taker, t),
    ensures
        fill_in(levels, taker, t),
{
    let kept = sweep(levels[i], taker, rem).0;
    let l2 = levels.update(i, kept);
    let i2 = choose|i2: int| 0 <= i2 < l2.len() && fill_against(#[trigger] l2[i2], taker, t);
    if i2 == i {
        crate::matching::lemma_sweep_kept_all(levels[i], taker, rem);
        let k = choose|k: int|
            0 <= k < kept.len() && (#[trigger] kept[k]).id == t.maker_order_id && kept[k].user_id != taker.user_id
                && kept[k].price == t.price && t.quantity <= kept[k].quantity;
        let j = choose|j: int| 0 <= j < levels[i].len() && crate::matching::kept_of(kept[k], levels[i][j]);
        assert(levels[i][j].id == t.maker_order_id);
        assert(fill_against(levels[i], taker, t));
    } else {
        assert(l2[i2] == levels[i2]);
    }
}

proof fn lemma_update_kept_positive(levels: Seq<Seq<Order>>, i: int, taker: Order, rem: u64)
    requires
        0 <= i < levels.len(),
        all_positive(levels),
    ensures
        all_positive(levels.update(i, sweep(levels[i], taker, rem).0)),
{
    let kept = sweep(levels[i], taker, rem).0;
    let l2 = levels.update(i, kept);
    crate::matching::lemma_sweep_kept_all(levels[i], taker, rem);
    assert forall|a: int, k: int| 0 <= a < l2.len() && 0 <= k < l2[a].len() implies (#[trigger] l2[a][k]).quantity > 0 by {
        if a == i {
            let j = choose|j: int| 0 <= j < levels[i].len() && crate::matching::kept_of(kept[k], levels[i][j]);
            assert(levels[i][j].quantity > 0);
        } else {
            assert(l2[a] == levels[a]);
        }
    }
}

proof fn lemma_update_kept_placed(levels: Seq<Seq<Order>>, i: int, taker: Order, rem: u64)
    requires
        0 <= i < levels.len(),
        well_placed(levels),
    ensures
        well_placed(levels.update(i, sweep(levels[i], taker, rem).0)),
{
    let kept = sweep(levels[i], taker, rem).0;
    let l2 = levels.update(i, kept);
    crate::matching::lemma_sweep_kept_all(levels[i], taker, rem);
    assert forall|a: int, k: int| 0 <= a < l2.len() && 0 <= k < l2[a].len() implies level_of_price(
        #[trigger] l2[a][k].price,
    ) == Some(a as usize) by {
        if a == i {
            let j = choose|j: int| 0 <= j < levels[i].len() && crate::matching::kept_of(kept[k], levels[i][j]);
            assert(level_of_price(levels[i][j].price) == Some(i as usize));
        } else {
            assert(l2[a] == levels[a]);
        }
    }
}

proof fn lemma_level_fill(levels: Seq<Seq<Order>>, i: int, taker: Order, t: Trade)
    requires
        0 <= i < levels.len(),
        fill_against(levels[i], taker, t),
    ensures
        fill_in(levels, taker, t),
{
}

proof fn lemma_cross_up_genuine(levels: Seq<Seq<Order>>, i: int, taker: Order, rem: u64)
    requires
        levels.len() == MAX_LEVEL,
        all_positive(levels),
    ensures
        forall|j: int|
            0 <= j < cross_up(levels, i, taker, rem).1.len() ==> fill_in(levels, taker, #[trigger] cross_up(levels, i, taker, rem).1[j]),
    decreases MAX_LEVEL - i,
{
    let c = cross_up(levels, i, taker, rem);
    if i < 0 || i >= MAX_LEVEL {
        assert(c.1.len() == 0);
    } else if levels[i].len() == 0 {
        lemma_cross_up_genuine(levels, i + 1, taker, rem);
        assert(c == cross_up(levels, i + 1, taker, rem));
    } else if !crosses(taker, i) || rem == 0 {
        assert(c.1.len() == 0);
    } else {
        let q = levels[i];
        let s = sweep(q, taker, rem);
        assert forall|k: int| 0 <= k < q.len() implies (#[trigger] q[k]).quantity > 0 by {
            assert(levels[i][k].quantity > 0);
        }
        lemma_sweep_genuine(q, q.len() as int, taker, rem);
        if passes_on(taker, s) {
            let l2 = levels.update(i, s.0);
            lemma_update_kept_positive(levels, i, taker, rem);
            lemma_cross_up_genuine(l2, i + 1, taker, s.2);
            let r = cross_up(l2, i + 1, taker, s.2);
            assert forall|j: int| 0 <= j < c.1.len() implies fill_in(levels, taker, #[trigger] c.1[j]) by {
                if j >= s.1.len() {
                    assert(c.1[j] == r.1[j - s.1.len()]);
                    lemma_update_kept_fill(levels, i, taker, rem, c.1[j]);
                } else {
                    assert(c.1[j] == s.1[j]);
                    lemma_level_fill(levels, i, taker, c.1[j]);
                }
            }
        } else {
            assert(c.1 == s.1);
            assert forall|j: int| 0 <= j < c.1.len() implies fill_in(levels, taker, #[trigger] c.1[j]) by {
                lemma_level_fill(levels, i, taker, c.1[j]);
            }
        }
    }
}

proof fn lemma_cross_down_genuine(levels: Seq<Seq<Order>>, i: int, taker: Order, rem: u64)
    requires
        levels.len() == MAX_LEVEL,
        all_positive(levels),
    ensures
        forall|j: int|
            0 <= j < cross_down(levels, i, taker, rem).1.len() ==> fill_in(levels, taker, #[trigger] cross_down(levels, i, taker, rem).1[j]),
    decreases i + 1,
{
    let c = cross_down(levels, i, taker, rem);
    if i < 0 || i >= MAX_LEVEL {
        assert(c.1.len() == 0);
    } else if levels[i].len() == 0 {
        lemma_cross_down_genuine(levels, i - 1, taker, rem);
        assert(c == cross_down(levels, i - 1, taker, rem));
    } else if !crosses(taker, i) || rem == 0 {
        assert(c.1.len() == 0);
    } else {
        let q = levels[i];
        let s = sweep(q, taker, rem);
        assert forall|k: int| 0 <= k < q.len() implies (#[trigger] q[k]).quantity > 0 by {
            assert(levels[i][k].quantity > 0);
        }
        lemma_sweep_genuine(q, q.len() as int, taker, rem);
        if passes_on(taker, s) {
            let l2 = levels.update(i, s.0);
            lemma_update_kept_positive(levels, i, taker, rem);
            lemma_cross_down_genuine(l2, i - 1, taker, s.2);
            let r = cross_down(l2, i - 1, taker, s.2);
            assert forall|j: int| 0 <= j < c.1.len() implies fill_in(levels, taker, #[trigger] c.1[j]) by {
                if j >= s.1.len() {
                    assert(c.1[j] == r.1[j - s.1.len()]);
                    lemma_update_kept_fill(levels, i, taker, rem, c.1[j]);
                } else {
                    assert(c.1[j] == s.1[j]);
                    lemma_level_fill(levels, i, taker, c.1[j]);
                }
            }
        } else {
            assert(c.1 == s.1);
            assert forall|j: int| 0 <= j < c.1.len() implies fill_in(levels, taker, #[trigger] c.1[j]) by {
                lemma_level_fill(levels, i, taker, c.1[j]);
            }
        }
    }
}

/// Every fill of an incoming order is against an order that rested on the
/// opposite side, at that order's price, for a positive quantity no larger
/// than it, and never against an order of the incoming order's own user.
pub proof fn law_fills_genuine(v: BookView, taker: Order)
    requires
        v.bids.len() == MAX_LEVEL,
        v.asks.len() == MAX_LEVEL,
        all_positive(v.levels(taker.side.opposite())),
    ensures
        forall|j: int|
            0 <= j < v.cross(taker).1.len() ==> fill_in(v.levels(taker.side.opposite()), taker, #[trigger] v.cross(taker).1[j]),
{
    match taker.side {
        OrderSide::Buy => lemma_cross_up_genuine(v.asks, 0, taker, taker.quantity),
        OrderSide::Sell => lemma_cross_down_genuine(v.bids, MAX_LEVEL - 1, taker, taker.quantity),
    }
}

/// Fills come best price first: rising prices for a buy, falling for a sell.
pub open spec fn price_ordered(taker: Order, ts: Seq<Trade>) -> bool {
    forall|a: int, b: int|
        0 <= a < b < ts.len() ==> match taker.side {
            OrderSide::Buy => (#[trigger] ts[a]).price.0 <= (#[trigger] ts[b]).price.0,
            OrderSide::Sell => ts[a].price.0 >= ts[b].price.0,
        }
}

proof fn lemma_sweep_priced(q: Seq<Order>, n: int, taker: Order, rem: u64, p: Price)
    requires
        0 <= n <= q.len(),
        forall|k: int| 0 <= k < q.len() ==> (#[trigger] q[k]).price == p,
    ensures
        forall|j: int| 0 <= j < sweep_prefix(q, n, taker, rem).1.len() ==> (#[trigger] sweep_prefix(q, n, taker, rem).1[j]).price == p,
    decreases n,
{
    if n > 0 {
        lemma_sweep_priced(q, n - 1, taker, rem, p);
        let pr = sweep_prefix(q, n - 1, taker, rem);
        let r = sweep_prefix(q, n, taker, rem);
        assert forall|j: int| 0 <= j < r.1.len() implies (#[trigger] r.1[j]).price == p by {
            if j < pr.1.len() {
                assert(r.1[j] == pr.1[j]);
            } else {
                assert(q[n - 1].price == p);
            }
        }
    }
}

proof fn lemma_level_priced(levels: Seq<Seq<Order>>, i: int)
    requires
        well_placed(levels),
        levels.len() == MAX_LEVEL,
        0 <= i < levels.len(),
    ensures
        forall|k: int| 0 <= k < levels[i].len() ==> (#[trigger] levels[i][k]).price == price_of_level(i),
{
    assert forall|k: int| 0 <= k < levels[i].len() implies (#[trigger] levels[i][k]).price == price_of_level(i) by {
        assert(level_of_price(levels[i][k].price) == Some(i as usize));
        law_price_level_inverse(i, levels[i][k].price);
    }
}

proof fn lemma_cross_up_ordered(levels: Seq<Seq<Order>>, i: int, taker: Order, rem: u64)
    requires
        well_placed(levels),
        levels.len() == MAX_LEVEL,
        taker.side == OrderSide::Buy,
        i >= 0,
    ensures
        forall|j: int|
            0 <= j < cross_up(levels, i, taker, rem).1.len() ==> (#[trigger] cross_up(levels, i, taker, rem).1[j]).price.0
                >= i + PRICE_OFFSET,
        price_ordered(taker, cross_up(levels, i, taker, rem).1),
    decreases MAX_LEVEL - i,
{
    let c = cross_up(levels, i, taker, rem);
    if i >= MAX_LEVEL {
        assert(c.1.len() == 0);
    } else if levels[i].len() == 0 {
        lemma_cross_up_ordered(levels, i + 1, taker, rem);
        assert(c == cross_up(levels, i + 1, taker, rem));
    } else if !crosses(taker, i) || rem == 0 {
        assert(c.1.len() == 0);
    } else {
        let q = levels[i];
        let s = sweep(q, taker, rem);
        lemma_level_priced(levels, i);
        lemma_sweep_priced(q, q.len() as int, taker, rem, price_of_level(i));
        if passes_on(taker, s) {
            let l2 = levels.update(i, s.0);
            lemma_update_kept_placed(levels, i, taker, rem);
            lemma_cross_up_ordered(l2, i + 1, taker, s.2);
            let r = cross_up(l2, i + 1, taker, s.2);
            assert(c.1 == s.1 + r.1);
            assert forall|j: int| 0 <= j < c.1.len() implies (#[trigger] c.1[j]).price.0 >= i + PRICE_OFFSET by {
                if j >= s.1.len() {
                    assert(c.1[j] == r.1[j - s.1.len()]);
                } else {
                    assert(c.1[j] == s.1[j]);
                }
            }
            assert forall|a: int, b: int| 0 <= a < b < c.1.len() implies (#[trigger] c.1[a]).price.0 <= (#[trigger] c.1[b]).price.0 by {
                if b < s.1.len() {
                    assert(c.1[a] == s.1[a] && c.1[b] == s.1[b]);
                } else if a < s.1.len() {
                    assert(c.1[a] == s.1[a] && c.1[b] == r.1[b - s.1.len()]);
                } else {
                    assert(c.1[a] == r.1[a - s.1.len()] && c.1[b] == r.1[b - s.1.len()]);
                }
            }
        } else {
            assert(c.1 == s.1);
        }
    }
}

proof fn lemma_cross_down_ordered(levels: Seq<Seq<Order>>, i: int, taker: Order, rem: u64)
    requires
        well_placed(levels),
        levels.len() == MAX_LEVEL,
        taker.side == OrderSide::Sell,
        i < MAX_LEVEL,
    ensures
        forall|j: int|
            0 <= j < cross_down(levels, i, taker, rem).1.len() ==> (#[trigger] cross_down(levels, i, taker, rem).1[j]).price.0
                <= i + PRICE_OFFSET,
        price_ordered(taker, cross_down(levels, i, taker, rem).1),
    decreases i + 1,
{
    let c = cross_down(levels, i, taker, rem);
    if i < 0 {
        assert(c.1.len() == 0);
    } else if levels[i].len() == 0 {
        lemma_cross_down_ordered(levels, i - 1, taker, rem);
        assert(c == cross_down(levels, i - 1, taker, rem));
    } else if !crosses(taker, i) || rem == 0 {
        assert(c.1.len() == 0);
    } else {
        let q = levels[i];
        let s = sweep(q, taker, rem);
        lemma_level_priced(levels, i);
        lemma_sweep_priced(q, q.len() as int, taker, rem, price_of_level(i));
        if passes_on(taker, s) {
            let l2 = levels.update(i, s.0);
            lemma_update_kept_placed(levels, i, taker, rem);
            lemma_cross_down_ordered(l2, i - 1, taker, s.2);
            let r = cross_down(l2, i - 1, taker, s.2);
            assert(c.1 == s.1 + r.1);
            assert forall|j: int| 0 <= j < c.1.len() implies (#[trigger] c.1[j]).price.0 <= i + PRICE_OFFSET by {
                if j >= s.1.len() {
                    assert(c.1[j] == r.1[j - s.1.len()]);
                } else {
                    assert(c.1[j] == s.1[j]);
                }
            }
            assert forall|a: int, b: int| 0 <= a < b < c.1.len() implies (#[trigger] c.1[a]).price.0 >= (#[trigger] c.1[b]).price.0 by {
                if b < s.1.len() {
                    assert(c.1[a] == s.1[a] && c.1[b] == s.1[b]);
                } else if a < s.1.len() {
                    assert(c.1[a] == s.1[a] && c.1[b] == r.1[b - s.1.len()]);
                } else {
                    assert(c.1[a] == r.1[a - s.1.len()] && c.1[b] == r.1[b - s.1.len()]);
                }
            }
        } else {
            assert(c.1 == s.1);
        }
    }
}

/// Price priority: an incoming order trades the best prices first, so its
/// fills come at rising prices for a buy and falling prices for a sell.
pub proof fn law_fills_price_ordered(v: BookView, taker: Order)
    requires
        v.bids.len() == MAX_LEVEL,
        v.asks.len() == MAX_LEVEL,
        well_placed(v.bids),
        well_placed(v.asks),
    ensures
        price_ordered(taker, v.cross(taker).1),
{
    match taker.side {
        OrderSide::Buy => lemma_cross_up_ordered(v.asks, 0, taker, taker.quantity),
        OrderSide::Sell => lemma_cross_down_ordered(v.bids, MAX_LEVEL - 1, taker, taker.quantity),
    }
}

/// A modification that succeeds re-enters the order under its own id, side
/// and user, as a GTC order with the new price and quantity, last in the
/// queue of its new price: it loses its place in time.
pub proof fn law_modify_requeues(v: BookView, id: u64, new_price: Price, new_qty: u64)
    requires
        v.holds(id),
        new_qty > 0,
        level_of_price(new_price) is Some,
        v.bids.len() == MAX_LEVEL,
        v.asks.len() == MAX_LEVEL,
    ensures
        ({
            let (w, r) = v.modify(id, new_price, new_qty);
            let o = v.order_of(id);
            let a = v.amended(id, new_price, new_qty);
            let q = w.levels(o.side)[level_of_price(new_price)->0 as int];
            &&& r == Ok::<(), crate::error::OrderError>(())
            &&& q.len() > 0
            &&& q.last() == a
            &&& a.id == id && a.side == o.side && a.user_id == o.user_id && a.asset_id == o.asset_id
            &&& a.price == new_price && a.quantity == new_qty && a.order_type == OrderType::GTC
            &&& w.holds(id)
        }),
{
    let (s, i, k) = v.location(id);
    let o = v.order_of(id);
    assert(o.id == id);
    let u = v.without(id);
    crate::matching::lemma_with_level(v, s, i, v.levels(s)[i].remove(k), v.levels(s)[i].remove(k));
    let a = v.amended(id, new_price, new_qty);
    let l = level_of_price(new_price)->0 as int;
    let qu = u.levels(a.side)[l];
    assert(u.levels(a.side).len() == MAX_LEVEL) by {
        if a.side != s {
            assert(a.side == s.opposite());
        }
    }
    crate::matching::lemma_with_level(u, a.side, l, qu.push(a), qu.push(a));
    let w = u.with_resting(a);
    assert(w.levels(a.side)[l] == qu.push(a));
    assert(w.levels(a.side)[l][qu.len() as int] == a);
}

/// The ids of the orders of `q` that belong to a user other than `user`, in
/// queue order.
pub open spec fn others_ids(q: Seq<Order>, user: u64) -> Seq<u64>
    decreases q.len(),
{
    if q.len() == 0 {
        Seq::empty()
    } else if q.last().user_id != user {
        others_ids(q.drop_last(), user).push(q.last().id)
    } else {
        others_ids(q.drop_last(), user)
    }
}

/// The ids of the resting orders that fills were made against, in order.
pub open spec fn maker_ids(ts: Seq<Trade>) -> Seq<u64> {
    ts.map_values(|t: Trade| t.maker_order_id)
}

/// `a` is the beginning of `b`.
pub open spec fn starts(a: Seq<u64>, b: Seq<u64>) -> bool {
    a.len() <= b.len() && a == b.subrange(0, a.len() as int)
}

proof fn lemma_sweep_fifo(q: Seq<Order>, n: int, taker: Order, rem: u64)
    requires
        0 <= n <= q.len(),
    ensures
        starts(maker_ids(sweep_prefix(q, n, taker, rem).1), others_ids(q.subrange(0, n), taker.user_id)),
        sweep_prefix(q, n, taker, rem).2 > 0 ==> maker_ids(sweep_prefix(q, n, taker, rem).1) == others_ids(
            q.subrange(0, n),
            taker.user_id,
        ),
    decreases n,
{
    let u = taker.user_id;
    if n == 0 {
        assert(maker_ids(Seq::<Trade>::empty()) =~= Seq::<u64>::empty());
        assert(q.subrange(0, 0) =~= Seq::<Order>::empty());
        assert(Seq::<u64>::empty().subrange(0, 0) =~= Seq::<u64>::empty());
    } else {
        lemma_sweep_fifo(q, n - 1, taker, rem);
        let p = sweep_prefix(q, n - 1, taker, rem);
        let r = sweep_prefix(q, n, taker, rem);
        let m = q[n - 1];
        let s0 = q.subrange(0, n - 1);
        let s1 = q.subrange(0, n);
        assert(s1.drop_last() =~= s0);
        assert(s1.last() == m);
        let o0 = others_ids(s0, u);
        let o1 = others_ids(s1, u);
        if p.2 == 0 || m.user_id == u {
            assert(r.1 == p.1);
            assert(o1 == o0 || o1 == o0.push(m.id));
            assert(maker_ids(r.1) == maker_ids(p.1));
            if o1 == o0.push(m.id) {
                assert(o1.subrange(0, maker_ids(p.1).len() as int) =~= o0.subrange(0, maker_ids(p.1).len() as int));
            }
            assert(starts(maker_ids(r.1), o1));
        } else {
            assert(r.1 == p.1.push(fill_of(taker, m, min_qty(p.2, m.quantity))));
            assert(maker_ids(r.1) =~= maker_ids(p.1).push(m.id));
            assert(o1 == o0.push(m.id));
            assert(o1.subrange(0, o1.len() as int) =~= o1);
        }
    }
}

/// Time priority: at one price level, an incoming order trades against the
/// orders of other users in the order they joined the queue. The makers of
/// its fills are the first of those orders, and all of them when it still
/// wants more after the level.
pub proof fn law_time_priority(q: Seq<Order>, taker: Order, rem: u64)
    ensures
        starts(maker_ids(sweep(q, taker, rem).1), others_ids(q, taker.user_id)),
        sweep(q, taker, rem).2 > 0 ==> maker_ids(sweep(q, taker, rem).1) == others_ids(q, taker.user_id),
{
    lemma_sweep_fifo(q, q.len() as int, taker, rem);
    assert(q.subrange(0, q.len() as int) =~= q);
}

/// No order of `levels` carries the id `id`.
pub open spec fn lacks_id(levels: Seq<Seq<Order>>, id: u64) -> bool {
    forall|i: int, k: int| 0 <= i < levels.len() && 0 <= k < levels[i].len() ==> (#[trigger] levels[i][k]).id != id
}

proof fn lemma_sweep_lacks(q: Seq<Order>, n: int, taker: Order, rem: u64, id: u64)
    requires
        0 <= n <= q.len(),
        forall|k: int| 0 <= k < q.len() ==> (#[trigger] q[k]).id != id,
    ensures
        forall|k: int| 0 <= k < sweep_prefix(q, n, taker, rem).0.len() ==> (#[trigger] sweep_prefix(q, n, taker, rem).0[k]).id != id,
    decreases n,
{
    if n > 0 {
        lemma_sweep_lacks(q, n - 1, taker, rem, id);
        let p = sweep_prefix(q, n - 1, taker, rem);
        let r = sweep_prefix(q, n, taker, rem);
        assert(q[n - 1].id != id);
        assert forall|k: int| 0 <= k < r.0.len() implies (#[trigger] r.0[k]).id != id by {
            if k < p.0.len() {
                assert(r.0[k] == p.0[k]);
            }
        }
    }
}

proof fn lemma_update_lacks(levels: Seq<Seq<Order>>, i: int, q: Seq<Order>, id: u64)
    requires
        lacks_id(levels, id),
        0 <= i < levels.len(),
        forall|k: int| 0 <= k < q.len() ==> (#[trigger] q[k]).id != id,
    ensures
        lacks_id(levels.update(i, q), id),
{
    let l2 = levels.update(i, q);
    assert forall|a: int, k: int| 0 <= a < l2.len() && 0 <= k < l2[a].len() implies (#[trigger] l2[a][k]).id != id by {
        if a == i {
            assert(l2[a] == q);
        } else {
            assert(l2[a] == levels[a]);
        }
    }
}

proof fn lemma_cross_up_lacks(levels: Seq<Seq<Order>>, i: int, taker: Order, rem: u64, id: u64)
    requires
        lacks_id(levels, id),
        levels.len() == MAX_LEVEL,
    ensures
        lacks_id(cross_up(levels, i, taker, rem).0, id),
    decreases MAX_LEVEL - i,
{
    if i < 0 || i >= MAX_LEVEL {
    } else if levels[i].len() == 0 {
        lemma_cross_up_lacks(levels, i + 1, taker, rem, id);
    } else if !crosses(taker, i) || rem == 0 {
    } else {
        let q = levels[i];
        let s = sweep(q, taker, rem);
        assert forall|k: int| 0 <= k < q.len() implies (#[trigger] q[k]).id != id by {
            assert(levels[i][k].id != id);
        }
        lemma_sweep_lacks(q, q.len() as int, taker, rem, id);
        lemma_update_lacks(levels, i, s.0, id);
        if passes_on(taker, s) {
            lemma_cross_up_lacks(levels.update(i, s.0), i + 1, taker, s.2, id);
        }
    }
}

proof fn lemma_cross_down_lacks(levels: Seq<Seq<Order>>, i: int, taker: Order, rem: u64, id: u64)
    requires
        lacks_id(levels, id),
        levels.len() == MAX_LEVEL,
    ensures
        lacks_id(cross_down(levels, i, taker, rem).0, id),
    decreases i + 1,
{
    if i < 0 || i >= MAX_LEVEL {
    } else if levels[i].len() == 0 {
        lemma_cross_down_lacks(levels, i - 1, taker, rem, id);
    } else if !crosses(taker, i) || rem == 0 {
    } else {
        let q = levels[i];
        let s = sweep(q, taker, rem);
        assert forall|k: int| 0 <= k < q.len() implies (#[trigger] q[k]).id != id by {
            assert(levels[i][k].id != id);
        }
        lemma_sweep_lacks(q, q.len() as int, taker, rem, id);
        lemma_update_lacks(levels, i, s.0, id);
        if passes_on(taker, s) {
            lemma_cross_down_lacks(levels.update(i, s.0), i - 1, taker, s.2, id);
        }
    }
}

proof fn lemma_holds_lacks(v: BookView, id: u64)
    requires
        v.bids.len() == MAX_LEVEL,
        v.asks.len() == MAX_LEVEL,
    ensures
        !v.holds(id) <==> lacks_id(v.bids, id) && lacks_id(v.asks, id),
{
    if !v.holds(id) {
        assert forall|i: int, k: int| 0 <= i < v.bids.len() && 0 <= k < v.bids[i].len() implies (#[trigger] v.bids[i][k]).id != id by {
            assert(v.levels(OrderSide::Buy)[i][k] == v.bids[i][k]);
        }
        assert forall|i: int, k: int| 0 <= i < v.asks.len() && 0 <= k < v.asks[i].len() implies (#[trigger] v.asks[i][k]).id != id by {
            assert(v.levels(OrderSide::Sell)[i][k] == v.asks[i][k]);
        }
    }
    if lacks_id(v.bids, id) && lacks_id(v.asks, id) && v.holds(id) {
        let (s, i, k) = choose|s: OrderSide, i: int, k: int|
            0 <= i < MAX_LEVEL && 0 <= k < v.levels(s)[i].len() && (#[trigger] v.levels(s)[i][k]).id == id;
        match s {
            OrderSide::Buy => assert(v.bids[i][k].id == id),
            OrderSide::Sell => assert(v.asks[i][k].id == id),
        }
    }
}

/// What stays of a new order: a GTC order rests with what it did not trade;
/// an IOC or FOK order, or a GTC order that traded in full, leaves nothing
/// behind under its id.
pub proof fn law_only_gtc_remainders_rest(v: BookView, o: Order)
    requires
        v.bids.len() == MAX_LEVEL,
        v.asks.len() == MAX_LEVEL,
        !v.holds(o.id),
        o.quantity > 0,
        level_of_price(o.price) is Some,
    ensures
        o.order_type == OrderType::GTC && v.cross(o).2 > 0 ==> v.submit(o).0.holds(o.id),
        o.order_type != OrderType::GTC || v.cross(o).2 == 0 ==> !v.submit(o).0.holds(o.id),
{
    lemma_holds_lacks(v, o.id);
    let c = v.cross(o);
    lemma_cross_up_lacks(v.asks, 0, o, o.quantity, o.id);
    lemma_cross_down_lacks(v.bids, MAX_LEVEL - 1, o, o.quantity, o.id);
    crate::matching::lemma_cross_up_shrinks(v.asks, 0, o, o.quantity);
    crate::matching::lemma_cross_down_shrinks(v.bids, MAX_LEVEL - 1, o, o.quantity);
    assert(c.0.bids.len() == MAX_LEVEL && c.0.asks.len() == MAX_LEVEL);
    lemma_holds_lacks(c.0, o.id);
    if o.order_type == OrderType::GTC && c.2 > 0 {
        let rest = Order { quantity: c.2, ..o };
        let l = level_of_price(o.price)->0 as int;
        let q = c.0.levels(o.side)[l];
        crate::matching::lemma_with_level(c.0, o.side, l, q.push(rest), q.push(rest));
        let w = c.0.with_resting(rest);
        assert(w.levels(o.side)[l][q.len() as int] == rest);
    }
}

/// The exchange routes each command to the book of its asset: the books of
/// every other asset are left as they were.
pub proof fn law_other_assets_untouched(books: Map<u64, BookView>, cmd: Command, a: u64)
    requires
        a != crate::engine::asset_of(cmd),
    ensures
        crate::engine::command_effect(books, cmd).0.contains_key(a) == books.contains_key(a),
        books.contains_key(a) ==> crate::engine::command_effect(books, cmd).0[a] == books[a],
{
}

/// The frames of `fs` back to back, first to last.
pub open spec fn concat_frames(fs: Seq<Seq<u8>>) -> Seq<u8>
    decreases fs.len(),
{
    if fs.len() == 0 {
        Seq::empty()
    } else {
        fs[0] + concat_frames(fs.subrange(1, fs.len() as int))
    }
}

/// `f` is one whole frame: a length field that counts the rest of it, and at
/// least a type byte.
pub open spec fn is_frame(f: Seq<u8>) -> bool {
    f.len() >= HEADER_SIZE && frame_total(f) == f.len()
}

/// Bytes that do not start with a whole frame: fewer than a header, or a
/// frame cut short.
pub open spec fn torn(t: Seq<u8>) -> bool {
    t.len() < HEADER_SIZE || frame_total(t) > t.len()
}

proof fn lemma_split_one(f: Seq<u8>, rest: Seq<u8>)
    requires
        is_frame(f),
    ensures
        split_spec(f + rest) == seq![f] + split_spec(rest),
{
    let b = f + rest;
    assert(b.subrange(0, 4) =~= f.subrange(0, 4));
    assert(b.subrange(0, frame_total(b)) =~= f);
    assert(b.subrange(frame_total(b), b.len() as int) =~= rest);
}

/// A log of whole frames, perhaps followed by a torn tail, is split back
/// into exactly those frames.
pub proof fn law_split_round_trip(fs: Seq<Seq<u8>>, tail: Seq<u8>)
    requires
        forall|k: int| 0 <= k < fs.len() ==> is_frame(#[trigger] fs[k]),
        torn(tail),
    ensures
        split_spec(concat_frames(fs) + tail) == fs,
    decreases fs.len(),
{
    if fs.len() == 0 {
        assert(concat_frames(fs) + tail =~= tail);
        assert(split_spec(tail) =~= Seq::<Seq<u8>>::empty());
    } else {
        let rest = fs.subrange(1, fs.len() as int);
        assert forall|k: int| 0 <= k < rest.len() implies is_frame(#[trigger] rest[k]) by {
            assert(rest[k] == fs[k + 1]);
        }
        law_split_round_trip(rest, tail);
        assert(concat_frames(fs) + tail =~= fs[0] + (concat_frames(rest) + tail));
        lemma_split_one(fs[0], concat_frames(rest) + tail);
        assert(seq![fs[0]] + rest =~= fs);
    }
}

/// What a log is split into is whole frames lying back to back at its start:
/// each frame's length field counts the rest of it, and only a torn tail is
/// left over.
pub proof fn law_split_prefix(b: Seq<u8>)
    ensures
        ({
            let fs = split_spec(b);
            let n = concat_frames(fs).len();
            &&& n <= b.len()
            &&& concat_frames(fs) == b.subrange(0, n as int)
            &&& forall|k: int| 0 <= k < fs.len() ==> frame_total(#[trigger] fs[k]) == fs[k].len()
            &&& torn(b.subrange(n as int, b.len() as int))
        }),
    decreases b.len(),
{
    let fs = split_spec(b);
    if b.len() < HEADER_SIZE || frame_total(b) > b.len() {
        assert(concat_frames(fs) =~= Seq::<u8>::empty());
        assert(b.subrange(0, b.len() as int) =~= b);
        assert(b.subrange(0, 0) =~= Seq::<u8>::empty());
    } else {
        let t = frame_total(b);
        let f = b.subrange(0, t);
        let r = b.subrange(t, b.len() as int);
        law_split_prefix(r);
        let gs = split_spec(r);
        assert(fs == seq![f] + gs);
        assert(fs.subrange(1, fs.len() as int) =~= gs);
        assert(fs[0] == f);
        let m = concat_frames(gs).len();
        assert(concat_frames(fs) == f + concat_frames(gs));
        assert(f.subrange(0, 4) =~= b.subrange(0, 4));
        assert(concat_frames(fs) =~= b.subrange(0, t + m));
        assert(b.subrange(t + m, b.len() as int) =~= r.subrange(m as int, r.len() as int));
        assert forall|k: int| 0 <= k < fs.len() implies frame_total(#[trigger] fs[k]) == fs[k].len() by {
            if k > 0 {
                assert(fs[k] == gs[k - 1]);
            }
        }
    }
}

proof fn lemma_session_one(f: Seq<u8>, rest: Seq<u8>)
    requires
        is_frame(f),
    ensures
        session_split(f + rest) == match session_split(rest) {
            Some((fs, r)) => Some((seq![f] + fs, r)),
            None => None::<(Seq<Seq<u8>>, Seq<u8>)>,
        },
{
    let b = f + rest;
    assert(b.subrange(0, 4) =~= f.subrange(0, 4));
    assert(b.subrange(0, frame_total(b)) =~= f);
    assert(b.subrange(frame_total(b), b.len() as int) =~= rest);
}

/// A client's bytes made of whole frames, each with at least a type byte,
/// perhaps followed by a torn tail, are handed out as exactly those frames,
/// every one of them, with the tail kept for later.
pub proof fn law_session_hands_out_whole_frames(fs: Seq<Seq<u8>>, tail: Seq<u8>)
    requires
        forall|k: int| 0 <= k < fs.len() ==> is_frame(#[trigger] fs[k]),
        torn(tail),
    ensures
        session_split(concat_frames(fs) + tail) == Some((fs, tail)),
    decreases fs.len(),
{
    if fs.len() == 0 {
        assert(concat_frames(fs) + tail =~= tail);
    } else {
        let rest = fs.subrange(1, fs.len() as int);
        assert forall|k: int| 0 <= k < rest.len() implies is_frame(#[trigger] rest[k]) by {
            assert(rest[k] == fs[k + 1]);
        }
        law_session_hands_out_whole_frames(rest, tail);
        assert(concat_frames(fs) + tail =~= fs[0] + (concat_frames(rest) + tail));
        lemma_session_one(fs[0], concat_frames(rest) + tail);
        assert(seq![fs[0]] + rest =~= fs);
    }
}

/// A buffer holding exactly one frame written around a payload is handed
/// out as that frame, with nothing left pending.
pub proof fn law_session_one_frame(msg_type: u8, payload: Seq<u8>)
    requires
        payload.len() + 1 <= u32::MAX,
    ensures
        session_split(frame(msg_type, payload)) == Some((seq![frame(msg_type, payload)], Seq::<u8>::empty())),
{
    lemma_auto_spec_u32_to_from_le_bytes();
    let f = frame(msg_type, payload);
    let len = (1 + payload.len()) as u32;
    assert(le32(len).len() == 4);
    assert(f.subrange(0, 4) =~= le32(len));
    assert(is_frame(f));
    assert(torn(Seq::<u8>::empty()));
    let fs = seq![f];
    assert(concat_frames(fs.subrange(1, 1)) =~= Seq::<u8>::empty());
    assert(concat_frames(fs) + Seq::<u8>::empty() =~= f);
    law_session_hands_out_whole_frames(fs, Seq::empty());
}

/// The market data of one fill: its execution, then the total left at its
/// price on the maker's side of `after`.
pub open spec fn fill_pair_ok(events: Seq<MarketDataEvent>, k: int, t: Trade, maker_side: OrderSide, after: BookView) -> bool {
    &&& events[2 * k] == MarketDataEvent::TradeExecuted { price: t.price, quantity: t.quantity, taker_side: t.taker_side }
    &&& events[2 * k + 1] == MarketDataEvent::LevelUpdated {
        price: t.price,
        side: maker_side,
        total_qty: match level_of_price(t.price) {
            Some(l) => after.level_total(maker_side, l as int) as u64,
            None => 0,
        },
    }
}

proof fn lemma_trade_events_shape(ts: Seq<Trade>, maker_side: OrderSide, after: BookView)
    ensures
        trade_events(ts, maker_side, after).len() == 2 * ts.len(),
        forall|k: int| 0 <= k < ts.len() ==> fill_pair_ok(trade_events(ts, maker_side, after), k, #[trigger] ts[k], maker_side, after),
    decreases ts.len(),
{
    if ts.len() > 0 {
        let d = ts.drop_last();
        lemma_trade_events_shape(d, maker_side, after);
        let e = trade_events(ts, maker_side, after);
        let e0 = trade_events(d, maker_side, after);
        assert forall|k: int| 0 <= k < ts.len() implies fill_pair_ok(e, k, #[trigger] ts[k], maker_side, after) by {
            if k < d.len() {
                assert(ts[k] == d[k]);
                assert(e[2 * k] == e0[2 * k]);
                assert(e[2 * k + 1] == e0[2 * k + 1]);
            }
        }
    }
}

/// Every execution of a new order is published, in order: its market data
/// begins with one execution and one level total per fill, carrying that
/// fill's price, quantity and side and the total left at that price, and
/// holds no other execution.
pub proof fn law_every_fill_published(before: BookView, o: Order)
    requires
        before.submit(o).1 is Ok,
    ensures
        ({
            let (after, res) = before.submit(o);
            let ts = res->Ok_0;
            let events = submit_events(before, o);
            &&& events.len() >= 2 * ts.len()
            &&& forall|k: int| 0 <= k < ts.len() ==> fill_pair_ok(events, k, #[trigger] ts[k], o.side.opposite(), after)
            &&& forall|j: int| 2 * ts.len() <= j < events.len() ==> !(#[trigger] events[j] is TradeExecuted)
        }),
{
    let (after, res) = before.submit(o);
    let ts = res->Ok_0;
    let te = trade_events(ts, o.side.opposite(), after);
    lemma_trade_events_shape(ts, o.side.opposite(), after);
    let events = submit_events(before, o);
    assert forall|k: int| 0 <= k < ts.len() implies fill_pair_ok(events, k, #[trigger] ts[k], o.side.opposite(), after) by {
        assert(fill_pair_ok(te, k, ts[k], o.side.opposite(), after));
        assert(events[2 * k] == te[2 * k]);
        assert(events[2 * k + 1] == te[2 * k + 1]);
    }
}

/// The best-price announcement for the book `after`.
pub open spec fn best_announcement(after: BookView) -> MarketDataEvent {
    MarketDataEvent::BestPriceChanged {
        best_bid: match after.best_bid() {
            Some(l) => Some(price_of_level(l as int)),
            None => None,
        },
        best_ask: match after.best_ask() {
            Some(l) => Some(price_of_level(l as int)),
            None => None,
        },
    }
}

/// Whether the best bid or the best ask differs between two books.
pub open spec fn best_moved(before: BookView, after: BookView) -> bool {
    before.best_bid() != after.best_bid() || before.best_ask() != after.best_ask()
}

/// What a successful change publishes ends with the new best prices exactly
/// when the best bid or the best ask moved, and announces them nowhere else.
pub open spec fn announces_best(events: Seq<MarketDataEvent>, before: BookView, after: BookView) -> bool {
    &&& best_moved(before, after) <==> (events.len() > 0 && events.last() == best_announcement(after))
    &&& forall|j: int| 0 <= j < events.len() - 1 ==> !(#[trigger] events[j] is BestPriceChanged)
    &&& !best_moved(before, after) ==> forall|j: int| 0 <= j < events.len() ==> !(#[trigger] events[j] is BestPriceChanged)
}

proof fn lemma_trade_events_kinds(ts: Seq<Trade>, maker_side: OrderSide, after: BookView)
    ensures
        forall|j: int| 0 <= j < trade_events(ts, maker_side, after).len() ==> !(#[trigger] trade_events(ts, maker_side, after)[j] is BestPriceChanged),
        ts.len() > 0 ==> trade_events(ts, maker_side, after).last() is LevelUpdated,
{
    lemma_trade_events_shape(ts, maker_side, after);
    let e = trade_events(ts, maker_side, after);
    assert forall|j: int| 0 <= j < e.len() implies !(#[trigger] e[j] is BestPriceChanged) by {
        let k = j / 2;
        assert(0 <= k < ts.len());
        assert(fill_pair_ok(e, k, ts[k], maker_side, after));
        assert(j == 2 * k || j == 2 * k + 1);
    }
    if ts.len() > 0 {
        let k = ts.len() - 1;
        assert(fill_pair_ok(e, k, ts[k], maker_side, after));
    }
}

proof fn lemma_announces(head: Seq<MarketDataEvent>, before: BookView, after: BookView)
    requires
        forall|j: int| 0 <= j < head.len() ==> !(#[trigger] head[j] is BestPriceChanged),
    ensures
        announces_best(head + best_events(before, after), before, after),
{
    let e = head + best_events(before, after);
    if best_moved(before, after) {
        assert(e.last() == best_announcement(after));
        assert forall|j: int| 0 <= j < e.len() - 1 implies !(#[trigger] e[j] is BestPriceChanged) by {
            assert(e[j] == head[j]);
        }
    } else {
        assert(e =~= head);
    }
}

/// A new order that is taken in publishes the new best prices, last, exactly
/// when it moved the best bid or the best ask.
pub proof fn law_submit_announces_best(before: BookView, o: Order)
    requires
        before.submit(o).1 is Ok,
    ensures
        announces_best(submit_events(before, o), before, before.submit(o).0),
{
    let (after, res) = before.submit(o);
    let ts = res->Ok_0;
    let te = trade_events(ts, o.side.opposite(), after);
    lemma_trade_events_kinds(ts, o.side.opposite(), after);
    let rest = if o.order_type == OrderType::GTC && before.cross(o).2 > 0 {
        seq![crate::market_data::level_event(after, o.side, o.price)]
    } else {
        Seq::<MarketDataEvent>::empty()
    };
    let head = te + rest;
    assert forall|j: int| 0 <= j < head.len() implies !(#[trigger] head[j] is BestPriceChanged) by {
        if j < te.len() {
            assert(head[j] == te[j]);
        }
    }
    lemma_announces(head, before, after);
    assert(submit_events(before, o) == head + best_events(before, after));
}

/// A cancellation that succeeds publishes the new best prices, last, exactly
/// when it moved the best bid or the best ask.
pub proof fn law_cancel_announces_best(before: BookView, id: u64)
    requires
        before.cancel(id).1 is Ok,
    ensures
        announces_best(cancel_events(before, id), before, before.cancel(id).0),
{
    let (after, _) = before.cancel(id);
    let o = before.order_of(id);
    lemma_announces(seq![crate::market_data::level_event(after, o.side, o.price)], before, after);
}

/// A modification that succeeds publishes the new best prices, last, exactly
/// when it moved the best bid or the best ask.
pub proof fn law_modify_announces_best(before: BookView, id: u64, new_price: Price, new_qty: u64)
    requires
        before.modify(id, new_price, new_qty).1 is Ok,
    ensures
        announces_best(modify_events(before, id, new_price, new_qty), before, before.modify(id, new_price, new_qty).0),
{
    let (after, _) = before.modify(id, new_price, new_qty);
    let o = before.order_of(id);
    let head = seq![
        crate::market_data::level_event(after, o.side, o.price),
        crate::market_data::level_event(after, o.side, new_price),
    ];
    lemma_announces(head, before, after);
}

} // verus!
