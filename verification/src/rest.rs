//! The decisions of the HTTP front end: reading a request for a new order,
//! and answering with the engine's response.
use vstd::prelude::*;

use crate::error::OrderError;
use crate::order::{Order, OrderSide, OrderType};
use crate::price::Price;
use crate::response::Response;
use crate::trade::Trade;

verus! {

/// The body of a request for a new order, with the side and the time in
/// force given by name.
pub struct AddOrderRequest {
    pub id: u64,
    pub user_id: u64,
    pub asset_id: u64,
    pub quantity: u64,
    pub price: u64,
    pub side: String,
    pub order_type: String,
}

/// The body of the answer to a request for a new order.
pub struct OrderResponse {
    pub success: bool,
    pub trades: Vec<Trade>,
    pub error: Option<String>,
}

/// An HTTP answer: its status (200, 400 or 500), and its body where it has one.
pub enum Reply {
    Success(OrderResponse),
    BadRequest(OrderResponse),
    InternalServerError,
}

/// The side a name stands for: `buy` or `sell`.
pub open spec fn side_of_name(s: Seq<char>) -> Option<OrderSide> {
    if s == "buy"@ {
        Some(OrderSide::Buy)
    } else if s == "sell"@ {
        Some(OrderSide::Sell)
    } else {
        None
    }
}

/// The time in force a name stands for: `gtc`, `ioc` or `fok`.
pub open spec fn type_of_name(s: Seq<char>) -> Option<OrderType> {
    if s == "gtc"@ {
        Some(OrderType::GTC)
    } else if s == "ioc"@ {
        Some(OrderType::IOC)
    } else if s == "fok"@ {
        Some(OrderType::FOK)
    } else {
        None
    }
}

/// The name of a reason, as the error of an answer gives it.
pub open spec fn error_name(e: OrderError) -> Seq<char> {
    match e {
        OrderError::ZeroQuantity => "ZeroQuantity"@,
        OrderError::PriceOutOfRange => "PriceOutOfRange"@,
        OrderError::DuplicateOrderId => "DuplicateOrderId"@,
        OrderError::OrderNotFound => "OrderNotFound"@,
        OrderError::AssetNotFound => "AssetNotFound"@,
    }
}

/// A failed answer with the message `m`.
pub open spec fn is_failure(r: OrderResponse, m: Seq<char>) -> bool {
    &&& !r.success
    &&& r.trades@ == Seq::<Trade>::empty()
    &&& r.error matches Some(e) && e@ == m
}

/// The side named by `name`.
pub fn side_from_name(name: &String) -> (r: Option<OrderSide>)
    ensures
        r == side_of_name(name@),
{
    if *name == "buy".to_owned() {
        Some(OrderSide::Buy)
    } else if *name == "sell".to_owned() {
        Some(OrderSide::Sell)
    } else {
        None
    }
}

/// The time in force named by `name`.
pub fn type_from_name(name: &String) -> (r: Option<OrderType>)
    ensures
        r == type_of_name(name@),
{
    if *name == "gtc".to_owned() {
        Some(OrderType::GTC)
    } else if *name == "ioc".to_owned() {
        Some(OrderType::IOC)
    } else if *name == "fok".to_owned() {
        Some(OrderType::FOK)
    } else {
        None
    }
}

/// The name of `e`.
pub fn name_of_error(e: OrderError) -> (s: String)
    ensures
        s@ == error_name(e),
{
    match e {
        OrderError::ZeroQuantity => "ZeroQuantity".to_owned(),
        OrderError::PriceOutOfRange => "PriceOutOfRange".to_owned(),
        OrderError::DuplicateOrderId => "DuplicateOrderId".to_owned(),
        OrderError::OrderNotFound => "OrderNotFound".to_owned(),
        OrderError::AssetNotFound => "AssetNotFound".to_owned(),
    }
}

fn failure(message: &str) -> (r: OrderResponse)
    ensures
        is_failure(r, message@),
{
    OrderResponse { success: false, trades: Vec::new(), error: Some(message.to_owned()) }
}

/// The order a request asks for, stamped with the wall clock; a failed
/// answer when the request names no side (`invalid side`) or, naming one, no
/// time in force (`invalid order_type`).
pub fn request_order(req: &AddOrderRequest) -> (r: Result<Order, OrderResponse>)
    ensures
        match (side_of_name(req.side@), type_of_name(req.order_type@)) {
            (None, _) => r matches Err(e) && is_failure(e, "invalid side"@),
            (Some(_), None) => r matches Err(e) && is_failure(e, "invalid order_type"@),
            (Some(s), Some(t)) => r matches Ok(o) && o.id == req.id && o.user_id == req.user_id && o.asset_id
                == req.asset_id && o.quantity == req.quantity && o.price == Price(req.price) && o.side == s
                && o.order_type == t,
        },
{
    let side = match side_from_name(&req.side) {
        Some(s) => s,
        None => return Err(failure("invalid side")),
    };
    let order_type = match type_from_name(&req.order_type) {
        Some(t) => t,
        None => return Err(failure("invalid order_type")),
    };
    Ok(Order::new(req.id, req.user_id, req.asset_id, req.quantity, Price(req.price), side, order_type))
}

/// The answer to a request for a new order once the engine responded:
/// the fills on success, the name of the reason on refusal, and an internal
/// error for any other response.
pub fn order_reply(response: Response) -> (r: Reply)
    ensures
        match response {
            Response::Fills { trades, .. } => r matches Reply::Success(b) && b.success && b.trades@ == trades@
                && b.error is None,
            Response::Reject { reason, .. } => r matches Reply::BadRequest(b) && is_failure(b, error_name(reason)),
            Response::Ack { .. } => r is InternalServerError,
        },
{
    match response {
        Response::Fills { trades, .. } => Reply::Success(OrderResponse { success: true, trades, error: None }),
        Response::Reject { reason, .. } => Reply::BadRequest(
            OrderResponse { success: false, trades: Vec::new(), error: Some(name_of_error(reason)) },
        ),
        Response::Ack { .. } => Reply::InternalServerError,
    }
}

/// Whether the engine's response to a cancellation is a success: only an
/// acknowledgement is.
pub fn cancel_succeeded(response: &Response) -> (ok: bool)
    ensures
        ok == (*response is Ack),
{
    match response {
        Response::Ack { .. } => true,
        _ => false,
    }
}

} // verus!
