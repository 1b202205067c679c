//! The wire messages: little-endian fields, packed without padding, each
//! framed as `[len: u32 LE][msg_type: u8][payload]` where `len` counts the
//! type byte and the payload.
use vstd::prelude::*;

use vstd::bytes::{spec_u32_to_le_bytes, spec_u64_to_le_bytes, u32_to_le_bytes, u64_to_le_bytes};

verus! {

/// The fixed part of a frame.
pub struct FrameHeader {
    pub len: u32,
    pub msg_type: u8,
}

/// The size of a frame's length and type fields.
pub const HEADER_SIZE: usize = 5;

pub const MSG_NEW_ORDER: u8 = 0x01;

pub const MSG_CANCEL_ORDER: u8 = 0x02;

pub const MSG_MODIFY_ORDER: u8 = 0x03;

pub const MSG_ACK: u8 = 0x10;

pub const MSG_FILL: u8 = 0x11;

pub const MSG_REJECT: u8 = 0x12;

pub const MSG_BBO_UPDATE: u8 = 0x13;

pub const FRAME_HEADER_SIZE: usize = 5;

pub const NEW_ORDER_MSG_SIZE: usize = 50;

pub const CANCEL_ORDER_MSG_SIZE: usize = 24;

pub const MODIFY_ORDER_MSG_SIZE: usize = 40;

pub const ACK_MSG_SIZE: usize = 16;

pub const FILL_MSG_SIZE: usize = 49;

pub const REJECT_MSG_SIZE: usize = 17;

pub const BBO_UPDATE_MSG_SIZE: usize = 33;

/// The little-endian bytes of a `u64`.
pub open spec fn le64(x: u64) -> Seq<u8> {
    spec_u64_to_le_bytes(x)
}

/// The little-endian bytes of a `u32`.
pub open spec fn le32(x: u32) -> Seq<u8> {
    spec_u32_to_le_bytes(x)
}

/// `x` appended to `buf` in little-endian order.
pub fn put_u64(buf: &mut Vec<u8>, x: u64)
    ensures
        final(buf)@ == old(buf)@ + le64(x),
{
    let mut b = u64_to_le_bytes(x);
    buf.append(&mut b);
}

/// `x` appended to `buf` in little-endian order.
pub fn put_u32(buf: &mut Vec<u8>, x: u32)
    ensures
        final(buf)@ == old(buf)@ + le32(x),
{
    let mut b = u32_to_le_bytes(x);
    buf.append(&mut b);
}

/// Client to engine: a new limit order.
#[derive(Clone, Copy, Debug, PartialEq, Eq)]
pub struct NewOrderMsg {
    pub client_seq: u64,
    pub order_id: u64,
    pub user_id: u64,
    pub asset_id: u64,
    pub price: u64,
    pub quantity: u64,
    pub side: u8,
    pub order_type: u8,
}

/// Client to engine: withdraw an order.
#[derive(Clone, Copy, Debug, PartialEq, Eq)]
pub struct CancelOrderMsg {
    pub client_seq: u64,
    pub order_id: u64,
    pub asset_id: u64,
}

/// Client to engine: change an order's price and quantity.
#[derive(Clone, Copy, Debug, PartialEq, Eq)]
pub struct ModifyOrderMsg {
    pub client_seq: u64,
    pub order_id: u64,
    pub asset_id: u64,
    pub new_price: u64,
    pub new_qty: u64,
}

/// Engine to client: a request was accepted.
#[derive(Clone, Copy, Debug, PartialEq, Eq)]
pub struct AckMsg {
    pub client_seq: u64,
    pub engine_seq: u64,
}

/// Engine to client: an execution.
#[derive(Clone, Copy, Debug, PartialEq, Eq)]
pub struct FillMsg {
    pub engine_seq: u64,
    pub taker_order_id: u64,
    pub maker_order_id: u64,
    pub price: u64,
    pub quantity: u64,
    pub taker_side: u8,
    pub timestamp: u64,
}

/// Engine to client: a request was refused.
#[derive(Clone, Copy, Debug, PartialEq, Eq)]
pub struct RejectMsg {
    pub client_seq: u64,
    pub engine_seq: u64,
    pub reason: u8,
}

/// Engine to every client: the new total of a price level.
#[derive(Clone, Copy, Debug, PartialEq, Eq)]
pub struct BboUpdateMsg {
    pub engine_seq: u64,
    pub asset_id: u64,
    pub price: u64,
    pub quantity: u64,
    pub side: u8,
}

impl NewOrderMsg {
    pub open spec fn spec_bytes(self) -> Seq<u8> {
        le64(self.client_seq) + le64(self.order_id) + le64(self.user_id) + le64(self.asset_id) + le64(self.price)
            + le64(self.quantity) + seq![self.side, self.order_type]
    }

    /// The payload bytes.
    pub fn to_bytes(&self) -> (b: Vec<u8>)
        ensures
            b@ == self.spec_bytes(),
    {
        let mut b = Vec::new();
        put_u64(&mut b, self.client_seq);
        put_u64(&mut b, self.order_id);
        put_u64(&mut b, self.user_id);
        put_u64(&mut b, self.asset_id);
        put_u64(&mut b, self.price);
        put_u64(&mut b, self.quantity);
        b.push(self.side);
        b.push(self.order_type);
        proof {
            assert(b@ =~= self.spec_bytes());
        }
        b
    }
}

impl CancelOrderMsg {
    pub open spec fn spec_bytes(self) -> Seq<u8> {
        le64(self.client_seq) + le64(self.order_id) + le64(self.asset_id)
    }

    /// The payload bytes.
    pub fn to_bytes(&self) -> (b: Vec<u8>)
        ensures
            b@ == self.spec_bytes(),
    {
        let mut b = Vec::new();
        put_u64(&mut b, self.client_seq);
        put_u64(&mut b, self.order_id);
        put_u64(&mut b, self.asset_id);
        proof {
            assert(b@ =~= self.spec_bytes());
        }
        b
    }
}

impl ModifyOrderMsg {
    pub open spec fn spec_bytes(self) -> Seq<u8> {
        le64(self.client_seq) + le64(self.order_id) + le64(self.asset_id) + le64(self.new_price) + le64(
            self.new_qty,
        )
    }

    /// The payload bytes.
    pub fn to_bytes(&self) -> (b: Vec<u8>)
        ensures
            b@ == self.spec_bytes(),
    {
        let mut b = Vec::new();
        put_u64(&mut b, self.client_seq);
        put_u64(&mut b, self.order_id);
        put_u64(&mut b, self.asset_id);
        put_u64(&mut b, self.new_price);
        put_u64(&mut b, self.new_qty);
        proof {
            assert(b@ =~= self.spec_bytes());
        }
        b
    }
}

impl AckMsg {
    pub open spec fn spec_bytes(self) -> Seq<u8> {
        le64(self.client_seq) + le64(self.engine_seq)
    }

    /// The payload bytes.
    pub fn to_bytes(&self) -> (b: Vec<u8>)
        ensures
            b@ == self.spec_bytes(),
    {
        let mut b = Vec::new();
        put_u64(&mut b, self.client_seq);
        put_u64(&mut b, self.engine_seq);
        proof {
            assert(b@ =~= self.spec_bytes());
        }
        b
    }
}

impl FillMsg {
    pub open spec fn spec_bytes(self) -> Seq<u8> {
        le64(self.engine_seq) + le64(self.taker_order_id) + le64(self.maker_order_id) + le64(self.price) + le64(
            self.quantity,
        ) + seq![self.taker_side] + le64(self.timestamp)
    }

    /// The payload bytes.
    pub fn to_bytes(&self) -> (b: Vec<u8>)
        ensures
            b@ == self.spec_bytes(),
    {
        let mut b = Vec::new();
        put_u64(&mut b, self.engine_seq);
        put_u64(&mut b, self.taker_order_id);
        put_u64(&mut b, self.maker_order_id);
        put_u64(&mut b, self.price);
        put_u64(&mut b, self.quantity);
        b.push(self.taker_side);
        put_u64(&mut b, self.timestamp);
        proof {
            assert(b@ =~= self.spec_bytes());
        }
        b
    }
}

impl RejectMsg {
    pub open spec fn spec_bytes(self) -> Seq<u8> {
        le64(self.client_seq) + le64(self.engine_seq) + seq![self.reason]
    }

    /// The payload bytes.
    pub fn to_bytes(&self) -> (b: Vec<u8>)
        ensures
            b@ == self.spec_bytes(),
    {
        let mut b = Vec::new();
        put_u64(&mut b, self.client_seq);
        put_u64(&mut b, self.engine_seq);
        b.push(self.reason);
        proof {
            assert(b@ =~= self.spec_bytes());
        }
        b
    }
}

impl BboUpdateMsg {
    pub open spec fn spec_bytes(self) -> Seq<u8> {
        le64(self.engine_seq) + le64(self.asset_id) + le64(self.price) + le64(self.quantity) + seq![self.side]
    }

    /// The payload bytes.
    pub fn to_bytes(&self) -> (b: Vec<u8>)
        ensures
            b@ == self.spec_bytes(),
    {
        let mut b = Vec::new();
        put_u64(&mut b, self.engine_seq);
        put_u64(&mut b, self.asset_id);
        put_u64(&mut b, self.price);
        put_u64(&mut b, self.quantity);
        b.push(self.side);
        proof {
            assert(b@ =~= self.spec_bytes());
        }
        b
    }
}

} // verus!
