use vstd::prelude::*;

use crate::price::Price;

verus! {

/// The side of the book an order belongs to.
#[derive(Clone, Copy, Debug, PartialEq, Eq, Structural)]
pub enum OrderSide {
    Buy,
    Sell,
}

/// Time in force of an order.
#[derive(Clone, Copy, Debug, PartialEq, Eq, Structural)]
pub enum OrderType {
    /// Good till cancelled: what does not trade rests in the book.
    GTC,
    /// Immediate or cancel: what does not trade at once is dropped.
    IOC,
    /// Fill or kill: trades only when the whole quantity is available.
    FOK,
}

impl OrderSide {
    /// The other side.
    pub open spec fn opposite(self) -> OrderSide {
        match self {
            OrderSide::Buy => OrderSide::Sell,
            OrderSide::Sell => OrderSide::Buy,
        }
    }
}

/// The wire code of a side (`0` buy, `1` sell), if `value` is one.
pub open spec fn side_of_code(value: u8) -> Option<OrderSide> {
    if value == 0 {
        Some(OrderSide::Buy)
    } else if value == 1 {
        Some(OrderSide::Sell)
    } else {
        None
    }
}

/// The wire code of an order type (`0` GTC, `1` IOC, `2` FOK), if `value` is one.
pub open spec fn type_of_code(value: u8) -> Option<OrderType> {
    if value == 0 {
        Some(OrderType::GTC)
    } else if value == 1 {
        Some(OrderType::IOC)
    } else if value == 2 {
        Some(OrderType::FOK)
    } else {
        None
    }
}

impl vstd::std_specs::convert::TryFromSpecImpl<u8> for OrderSide {
    /// The generic `TryFrom` law is not claimed here: the error is a message,
    /// and the method's own `ensures` says on which codes it comes.
    open spec fn obeys_try_from_spec() -> bool {
        false
    }

    open spec fn try_from_spec(v: u8) -> Result<Self, String> {
        arbitrary()
    }
}

impl TryFrom<u8> for OrderSide {
    type Error = String;

    fn try_from(value: u8) -> (r: Result<Self, String>)
        ensures
            match side_of_code(value) {
                Some(s) => r == Ok::<OrderSide, String>(s),
                None => r.is_err(),
            },
    {
        match value {
            0 => Ok(OrderSide::Buy),
            1 => Ok(OrderSide::Sell),
            _ => Err("invalid order side".to_string()),
        }
    }
}

impl vstd::std_specs::convert::TryFromSpecImpl<u8> for OrderType {
    /// The generic `TryFrom` law is not claimed here: the error is a message,
    /// and the method's own `ensures` says on which codes it comes.
    open spec fn obeys_try_from_spec() -> bool {
        false
    }

    open spec fn try_from_spec(v: u8) -> Result<Self, String> {
        arbitrary()
    }
}

impl TryFrom<u8> for OrderType {
    type Error = String;

    fn try_from(value: u8) -> (r: Result<Self, String>)
        ensures
            match type_of_code(value) {
                Some(t) => r == Ok::<OrderType, String>(t),
                None => r.is_err(),
            },
    {
        match value {
            0 => Ok(OrderType::GTC),
            1 => Ok(OrderType::IOC),
            2 => Ok(OrderType::FOK),
            _ => Err("invalid order type".to_string()),
        }
    }
}

/// A limit order.
#[derive(Clone, Copy, Debug)]
pub struct Order {
    pub id: u64,
    pub user_id: u64,
    pub asset_id: u64,
    pub quantity: u64,
    pub price: Price,
    pub side: OrderSide,
    pub order_type: OrderType,
    pub timestamp: u64,
}

/// Reads the wall clock, in whole seconds since the Unix epoch, through
/// `chrono::Utc::now().timestamp()`. Nothing is claimed of the value: it is
/// the time at the call.
#[verifier::external_body]
pub(crate) fn unix_timestamp_now() -> u64 {
    chrono::Utc::now().timestamp() as u64
}

impl Order {
    /// A new order stamped with the current wall-clock time.
    pub fn new(
        id: u64,
        user_id: u64,
        asset_id: u64,
        quantity: u64,
        price: Price,
        side: OrderSide,
        order_type: OrderType,
    ) -> (o: Self)
        ensures
            o.id == id,
            o.user_id == user_id,
            o.asset_id == asset_id,
            o.quantity == quantity,
            o.price == price,
            o.side == side,
            o.order_type == order_type,
    {
        Self::with_timestamp(id, user_id, asset_id, quantity, price, side, order_type, unix_timestamp_now())
    }

    /// A new order with the given timestamp.
    pub fn with_timestamp(
        id: u64,
        user_id: u64,
        asset_id: u64,
        quantity: u64,
        price: Price,
        side: OrderSide,
        order_type: OrderType,
        timestamp: u64,
    ) -> (o: Self)
        ensures
            o == (Order { id, user_id, asset_id, quantity, price, side, order_type, timestamp }),
    {
        Order { id, user_id, asset_id, quantity, price, side, order_type, timestamp }
    }
}

} // verus!
