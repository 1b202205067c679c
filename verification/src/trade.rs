use vstd::prelude::*;

use crate::order::OrderSide;
use crate::price::Price;

verus! {

/// One execution between an incoming (taker) order and a resting (maker) order.
#[derive(Clone, Copy, Debug, PartialEq, Eq, Structural)]
pub struct Trade {
    pub taker_order_id: u64,
    pub maker_order_id: u64,
    pub price: Price,
    pub quantity: u64,
    pub taker_side: OrderSide,
    pub timestamp: u64,
}

} // verus!
