//! Encoding and decoding between wire bytes and engine commands and responses.
use vstd::prelude::*;

use vstd::bytes::{spec_u64_from_le_bytes, u64_from_le_bytes};
use vstd::slice::slice_subrange;

use crate::command::Command;
use crate::error::{error_code, OrderError};
use crate::order::{side_of_code, type_of_code, unix_timestamp_now, Order, OrderSide, OrderType};
use crate::price::Price;
use crate::protocol::{
    le32, le64, put_u32, AckMsg, FillMsg, RejectMsg, CANCEL_ORDER_MSG_SIZE, MODIFY_ORDER_MSG_SIZE,
    MSG_ACK, MSG_CANCEL_ORDER, MSG_FILL, MSG_MODIFY_ORDER, MSG_NEW_ORDER, MSG_REJECT, NEW_ORDER_MSG_SIZE,
};
use crate::response::Response;
use crate::trade::Trade;

verus! {

/// A frame: the length of what follows it, the type byte, the payload.
pub open spec fn frame(msg_type: u8, payload: Seq<u8>) -> Seq<u8> {
    le32((1 + payload.len()) as u32) + seq![msg_type] + payload
}

/// The `u64` stored little-endian at offset `at` of `p`.
pub open spec fn read64(p: Seq<u8>, at: int) -> u64 {
    spec_u64_from_le_bytes(p.subrange(at, at + 8))
}

/// The command that a payload of type `msg_type` encodes, the order of a
/// new-order message stamped `ts`. Bytes beyond a message's size are ignored.
pub open spec fn decode_spec(msg_type: u8, p: Seq<u8>, ts: u64) -> Option<Command> {
    if msg_type == MSG_NEW_ORDER {
        if p.len() < NEW_ORDER_MSG_SIZE {
            None
        } else {
            Some(
                Command::AddOrder {
                    client_seq: read64(p, 0),
                    order: Order {
                        id: read64(p, 8),
                        user_id: read64(p, 16),
                        asset_id: read64(p, 24),
                        quantity: read64(p, 40),
                        price: Price(read64(p, 32)),
                        side: side_of_code(p[48])->0,
                        order_type: type_of_code(p[49])->0,
                        timestamp: ts,
                    },
                },
            )
        }
    } else if msg_type == MSG_CANCEL_ORDER {
        if p.len() < CANCEL_ORDER_MSG_SIZE {
            None
        } else {
            Some(Command::CancelOrder { client_seq: read64(p, 0), asset_id: read64(p, 16), order_id: read64(p, 8) })
        }
    } else if msg_type == MSG_MODIFY_ORDER {
        if p.len() < MODIFY_ORDER_MSG_SIZE {
            None
        } else {
            Some(
                Command::ModifyOrder {
                    client_seq: read64(p, 0),
                    asset_id: read64(p, 16),
                    order_id: read64(p, 8),
                    new_price: Price(read64(p, 24)),
                    new_qty: read64(p, 32),
                },
            )
        }
    } else {
        None
    }
}

/// A new-order payload's side and type bytes are valid codes.
pub open spec fn codes_valid(msg_type: u8, p: Seq<u8>) -> bool {
    msg_type == MSG_NEW_ORDER && p.len() >= NEW_ORDER_MSG_SIZE ==> side_of_code(p[48]) is Some
        && type_of_code(p[49]) is Some
}

/// Tests `codes_valid`: whether a new-order payload names a side and a type.
pub fn has_valid_codes(msg_type: u8, payload: &[u8]) -> (r: bool)
    ensures
        r == codes_valid(msg_type, payload@),
{
    if msg_type == MSG_NEW_ORDER && payload.len() >= NEW_ORDER_MSG_SIZE {
        let side_ok = payload[48] == 0 || payload[48] == 1;
        let type_ok = payload[49] == 0 || payload[49] == 1 || payload[49] == 2;
        side_ok && type_ok
    } else {
        true
    }
}

fn read_u64(p: &[u8], at: usize) -> (x: u64)
    requires
        at + 8 <= p@.len(),
    ensures
        x == read64(p@, at as int),
{
    let n = p.len();
    assert(at + 8 <= n);
    u64_from_le_bytes(slice_subrange(p, at, at + 8))
}

/// Decodes a payload of type `msg_type`; new orders are stamped `timestamp`.
/// `None` for an unknown type or a payload shorter than its message.
pub fn decode_command_at(msg_type: u8, payload: &[u8], timestamp: u64) -> (r: Option<Command>)
    requires
        codes_valid(msg_type, payload@),
    ensures
        r == decode_spec(msg_type, payload@, timestamp),
{
    if msg_type == MSG_NEW_ORDER {
        if payload.len() < NEW_ORDER_MSG_SIZE {
            return None;
        }
        let side = match OrderSide::try_from(payload[48]) {
            Ok(s) => s,
            Err(_) => return None,
        };
        let order_type = match OrderType::try_from(payload[49]) {
            Ok(t) => t,
            Err(_) => return None,
        };
        let order = Order::with_timestamp(
            read_u64(payload, 8),
            read_u64(payload, 16),
            read_u64(payload, 24),
            read_u64(payload, 40),
            Price(read_u64(payload, 32)),
            side,
            order_type,
            timestamp,
        );
        Some(Command::AddOrder { client_seq: read_u64(payload, 0), order })
    } else if msg_type == MSG_CANCEL_ORDER {
        if payload.len() < CANCEL_ORDER_MSG_SIZE {
            return None;
        }
        Some(
            Command::CancelOrder {
                client_seq: read_u64(payload, 0),
                asset_id: read_u64(payload, 16),
                order_id: read_u64(payload, 8),
            },
        )
    } else if msg_type == MSG_MODIFY_ORDER {
        if payload.len() < MODIFY_ORDER_MSG_SIZE {
            return None;
        }
        Some(
            Command::ModifyOrder {
                new_price: Price(read_u64(payload, 24)),
                new_qty: read_u64(payload, 32),
                client_seq: read_u64(payload, 0),
                asset_id: read_u64(payload, 16),
                order_id: read_u64(payload, 8),
            },
        )
    } else {
        None
    }
}

/// Decodes a payload of type `msg_type`, stamping a new order with the wall
/// clock. `None` for an unknown type or a payload shorter than its message.
pub fn decode_command(msg_type: u8, payload: &[u8]) -> (r: Option<Command>)
    requires
        codes_valid(msg_type, payload@),
    ensures
        exists|ts: u64| r == #[trigger] decode_spec(msg_type, payload@, ts),
{
    let ts = unix_timestamp_now();
    decode_command_at(msg_type, payload, ts)
}

/// The wire code of a side.
pub open spec fn side_code(s: OrderSide) -> u8 {
    match s {
        OrderSide::Buy => 0,
        OrderSide::Sell => 1,
    }
}

/// The fill message of trade `t` under `engine_seq`.
pub open spec fn fill_msg(engine_seq: u64, t: Trade) -> FillMsg {
    FillMsg {
        engine_seq,
        taker_order_id: t.taker_order_id,
        maker_order_id: t.maker_order_id,
        price: t.price.0,
        quantity: t.quantity,
        taker_side: side_code(t.taker_side),
        timestamp: t.timestamp,
    }
}

/// One fill frame per trade, in order.
pub open spec fn fills_bytes(engine_seq: u64, trades: Seq<Trade>) -> Seq<u8>
    decreases trades.len(),
{
    if trades.len() == 0 {
        Seq::empty()
    } else {
        fills_bytes(engine_seq, trades.drop_last()) + frame(MSG_FILL, fill_msg(engine_seq, trades.last()).spec_bytes())
    }
}

/// The frames that answer a request.
pub open spec fn response_bytes(r: Response) -> Seq<u8> {
    match r {
        Response::Ack { engine_seq, client_seq } => frame(MSG_ACK, AckMsg { client_seq, engine_seq }.spec_bytes()),
        Response::Fills { engine_seq, trades } => fills_bytes(engine_seq, trades@),
        Response::Reject { engine_seq, client_seq, reason } => frame(
            MSG_REJECT,
            RejectMsg { client_seq, engine_seq, reason: error_code(reason) }.spec_bytes(),
        ),
    }
}

/// Appends one frame of type `msg_type` around `payload`.
pub fn write_frame(buf: &mut Vec<u8>, msg_type: u8, payload: &Vec<u8>)
    requires
        payload@.len() + 1 <= u32::MAX,
    ensures
        final(buf)@ == old(buf)@ + frame(msg_type, payload@),
{
    let len = (1 + payload.len()) as u32;
    put_u32(buf, len);
    buf.push(msg_type);
    let mut p = vstd::slice::slice_to_vec(payload.as_slice());
    buf.append(&mut p);
    proof {
        assert(final(buf)@ =~= old(buf)@ + frame(msg_type, payload@));
    }
}

proof fn lemma_le64_len(x: u64)
    ensures
        le64(x).len() == 8,
{
    vstd::bytes::lemma_auto_spec_u64_to_from_le_bytes();
}

/// Appends the frames that answer `response`: one ack, one fill per trade,
/// or one reject.
pub fn encode_response(response: &Response, buf: &mut Vec<u8>)
    ensures
        final(buf)@ == old(buf)@ + response_bytes(*response),
{
    proof {
        vstd::bytes::lemma_auto_spec_u64_to_from_le_bytes();
    }
    match response {
        Response::Ack { engine_seq, client_seq } => {
            let msg = AckMsg { engine_seq: *engine_seq, client_seq: *client_seq };
            let p = msg.to_bytes();
            proof {
                lemma_le64_len(*engine_seq);
                lemma_le64_len(*client_seq);
            }
            write_frame(buf, MSG_ACK, &p);
        },
        Response::Fills { engine_seq, trades } => {
            let ghost b0 = buf@;
            let mut i: usize = 0;
            while i < trades.len()
                invariant
                    0 <= i <= trades.len(),
                    buf@ == b0 + fills_bytes(*engine_seq, trades@.subrange(0, i as int)),
                decreases trades.len() - i,
            {
                let trade = trades[i];
                let taker_side = match trade.taker_side {
                    OrderSide::Buy => 0,
                    OrderSide::Sell => 1,
                };
                let msg = FillMsg {
                    engine_seq: *engine_seq,
                    taker_order_id: trade.taker_order_id,
                    maker_order_id: trade.maker_order_id,
                    price: trade.price.0,
                    quantity: trade.quantity,
                    taker_side,
                    timestamp: trade.timestamp,
                };
                let p = msg.to_bytes();
                proof {
                    lemma_le64_len(msg.engine_seq);
                    lemma_le64_len(msg.taker_order_id);
                    lemma_le64_len(msg.maker_order_id);
                    lemma_le64_len(msg.price);
                    lemma_le64_len(msg.quantity);
                    lemma_le64_len(msg.timestamp);
                }
                write_frame(buf, MSG_FILL, &p);
                proof {
                    let s = trades@.subrange(0, i + 1);
                    assert(s.drop_last() =~= trades@.subrange(0, i as int));
                    assert(s.last() == trade);
                    assert(msg == fill_msg(*engine_seq, trade));
                }
                i = i + 1;
            }
            proof {
                assert(trades@.subrange(0, trades@.len() as int) =~= trades@);
            }
        },
        Response::Reject { engine_seq, client_seq, reason } => {
            let msg = RejectMsg { client_seq: *client_seq, engine_seq: *engine_seq, reason: u8::from(reason) };
            let p = msg.to_bytes();
            proof {
                lemma_le64_len(*engine_seq);
                lemma_le64_len(*client_seq);
            }
            write_frame(buf, MSG_REJECT, &p);
        },
    }
}

} // verus!
