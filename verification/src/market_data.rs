//! What a book publishes after it changes, for the event loop to fan out.
use vstd::prelude::*;

use crate::matching::BookView;
use crate::order::{Order, OrderSide, OrderType};
use crate::price::Price;
use crate::price_level::{level_of_price, price_of_level};
use crate::trade::Trade;

verus! {

/// What a book publishes after it changes.
#[derive(Clone, Copy, Debug, PartialEq, Eq, Structural)]
pub enum MarketDataEvent {
    TradeExecuted { price: Price, quantity: u64, taker_side: OrderSide },
    LevelUpdated { price: Price, side: OrderSide, total_qty: u64 },
    BestPriceChanged { best_bid: Option<Price>, best_ask: Option<Price> },
}

/// The total resting at `price` on `side` of `v`; zero for a price without a
/// level.
pub open spec fn total_at(v: BookView, side: OrderSide, price: Price) -> u64 {
    match level_of_price(price) {
        Some(l) => v.level_total(side, l as int) as u64,
        None => 0,
    }
}

/// The new total of the level of `price` on `side`.
pub open spec fn level_event(v: BookView, side: OrderSide, price: Price) -> MarketDataEvent {
    MarketDataEvent::LevelUpdated { price, side, total_qty: total_at(v, side, price) }
}

/// Per fill, in order: the execution, then the total that the maker's level
/// holds in the book `after`.
pub open spec fn trade_events(trades: Seq<Trade>, maker_side: OrderSide, after: BookView) -> Seq<MarketDataEvent>
    decreases trades.len(),
{
    if trades.len() == 0 {
        Seq::empty()
    } else {
        let t = trades.last();
        trade_events(trades.drop_last(), maker_side, after) + seq![
            MarketDataEvent::TradeExecuted { price: t.price, quantity: t.quantity, taker_side: t.taker_side },
            level_event(after, maker_side, t.price),
        ]
    }
}

/// The price of a level index, if there is one.
pub open spec fn price_of(i: Option<usize>) -> Option<Price> {
    match i {
        Some(l) => Some(price_of_level(l as int)),
        None => None,
    }
}

/// The best prices of `after`, when they differ from those of `before`.
pub open spec fn best_events(before: BookView, after: BookView) -> Seq<MarketDataEvent> {
    if before.best_bid() == after.best_bid() && before.best_ask() == after.best_ask() {
        Seq::empty()
    } else {
        seq![MarketDataEvent::BestPriceChanged { best_bid: price_of(after.best_bid()), best_ask: price_of(after.best_ask()) }]
    }
}

/// What a book publishes for a new order: per fill the execution and the
/// maker level's total, the total of the level where the rest of the order
/// joined the book, and the best prices when they moved. Nothing for a
/// refused order.
pub open spec fn submit_events(before: BookView, order: Order) -> Seq<MarketDataEvent> {
    let (after, res) = before.submit(order);
    match res {
        Err(_) => Seq::empty(),
        Ok(trades) => trade_events(trades, order.side.opposite(), after) + (if order.order_type == OrderType::GTC
            && before.cross(order).2 > 0 {
            seq![level_event(after, order.side, order.price)]
        } else {
            Seq::empty()
        }) + best_events(before, after),
    }
}

/// What a book publishes for a cancellation: the total of the order's level,
/// and the best prices when they moved. Nothing for a refused one.
pub open spec fn cancel_events(before: BookView, id: u64) -> Seq<MarketDataEvent> {
    let (after, res) = before.cancel(id);
    match res {
        Err(_) => Seq::empty(),
        Ok(_) => {
            let o = before.order_of(id);
            seq![level_event(after, o.side, o.price)] + best_events(before, after)
        },
    }
}

/// What a book publishes for a modification: the totals of the order's old
/// and new levels, and the best prices when they moved. Nothing for a
/// refused one.
pub open spec fn modify_events(before: BookView, id: u64, new_price: Price, new_qty: u64) -> Seq<MarketDataEvent> {
    let (after, res) = before.modify(id, new_price, new_qty);
    match res {
        Err(_) => Seq::empty(),
        Ok(_) => {
            let o = before.order_of(id);
            seq![level_event(after, o.side, o.price), level_event(after, o.side, new_price)] + best_events(
                before,
                after,
            )
        },
    }
}

} // verus!
