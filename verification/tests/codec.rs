use trading::codec::{decode_command, decode_command_at, encode_response, has_valid_codes, write_frame};
use trading::command::Command;
use trading::error::OrderError;
use trading::order::{OrderSide, OrderType};
use trading::price::Price;
use trading::protocol::{
    AckMsg, CancelOrderMsg, FillMsg, ModifyOrderMsg, NewOrderMsg, RejectMsg, ACK_MSG_SIZE, CANCEL_ORDER_MSG_SIZE,
    FILL_MSG_SIZE, FRAME_HEADER_SIZE, HEADER_SIZE, MODIFY_ORDER_MSG_SIZE, MSG_ACK, MSG_CANCEL_ORDER, MSG_FILL,
    MSG_MODIFY_ORDER, MSG_NEW_ORDER, MSG_REJECT, NEW_ORDER_MSG_SIZE, REJECT_MSG_SIZE,
};
use trading::response::Response;
use trading::session::Session;
use trading::trade::Trade;

fn build_frame(msg_type: u8, payload: Vec<u8>) -> Vec<u8> {
    let mut buf = Vec::new();
    write_frame(&mut buf, msg_type, &payload);
    buf
}

fn split_frame(buf: &[u8]) -> (u8, &[u8]) {
    (buf[4], &buf[5..])
}

fn u64_at(buf: &[u8], at: usize) -> u64 {
    let mut b = [0u8; 8];
    b.copy_from_slice(&buf[at..at + 8]);
    u64::from_le_bytes(b)
}

fn len_field(buf: &[u8]) -> usize {
    u32::from_le_bytes([buf[0], buf[1], buf[2], buf[3]]) as usize
}

fn ack_at(buf: &[u8]) -> AckMsg {
    AckMsg { client_seq: u64_at(buf, 0), engine_seq: u64_at(buf, 8) }
}

fn fill_at(buf: &[u8]) -> FillMsg {
    FillMsg {
        engine_seq: u64_at(buf, 0),
        taker_order_id: u64_at(buf, 8),
        maker_order_id: u64_at(buf, 16),
        price: u64_at(buf, 24),
        quantity: u64_at(buf, 32),
        taker_side: buf[40],
        timestamp: u64_at(buf, 41),
    }
}

fn reject_at(buf: &[u8]) -> RejectMsg {
    RejectMsg { client_seq: u64_at(buf, 0), engine_seq: u64_at(buf, 8), reason: buf[16] }
}

#[test]
fn test_decode_new_order() {
    let msg = NewOrderMsg {
        client_seq: 42,
        order_id: 100,
        user_id: 7,
        asset_id: 1,
        price: 10050,
        quantity: 500,
        side: 0,
        order_type: 0,
    };

    let frame = build_frame(MSG_NEW_ORDER, msg.to_bytes());
    let (msg_type, payload) = split_frame(&frame);
    let cmd = decode_command(msg_type, payload).expect("decode failed");

    match cmd {
        Command::AddOrder { client_seq, order } => {
            assert_eq!(client_seq, 42);
            assert_eq!(order.id, 100);
            assert_eq!(order.user_id, 7);
            assert_eq!(order.asset_id, 1);
            assert_eq!(order.price.0, 10050);
            assert_eq!(order.quantity, 500);
            assert!(order.side == OrderSide::Buy);
        }
        _ => panic!("expected AddOrder"),
    }
}

#[test]
fn test_decode_new_order_sell_ioc() {
    let msg = NewOrderMsg {
        client_seq: 1,
        order_id: 200,
        user_id: 3,
        asset_id: 5,
        price: 9900,
        quantity: 100,
        side: 1,
        order_type: 1,
    };

    let frame = build_frame(MSG_NEW_ORDER, msg.to_bytes());
    let (msg_type, payload) = split_frame(&frame);
    let cmd = decode_command(msg_type, payload).expect("decode failed");

    match cmd {
        Command::AddOrder { order, .. } => {
            assert!(order.side == OrderSide::Sell);
            assert_eq!(order.price.0, 9900);
        }
        _ => panic!("expected AddOrder"),
    }
}

#[test]
fn test_decode_cancel_order() {
    let msg = CancelOrderMsg { client_seq: 10, order_id: 55, asset_id: 2 };

    let frame = build_frame(MSG_CANCEL_ORDER, msg.to_bytes());
    let (msg_type, payload) = split_frame(&frame);
    let cmd = decode_command(msg_type, payload).expect("decode failed");

    match cmd {
        Command::CancelOrder { client_seq, asset_id, order_id } => {
            assert_eq!(client_seq, 10);
            assert_eq!(order_id, 55);
            assert_eq!(asset_id, 2);
        }
        _ => panic!("expected CancelOrder"),
    }
}

#[test]
fn test_decode_modify_order() {
    let msg = ModifyOrderMsg { client_seq: 99, order_id: 77, asset_id: 3, new_price: 12000, new_qty: 250 };

    let frame = build_frame(MSG_MODIFY_ORDER, msg.to_bytes());
    let (msg_type, payload) = split_frame(&frame);
    let cmd = decode_command(msg_type, payload).expect("decode failed");

    match cmd {
        Command::ModifyOrder { client_seq, asset_id, order_id, new_price, new_qty } => {
            assert_eq!(client_seq, 99);
            assert_eq!(order_id, 77);
            assert_eq!(asset_id, 3);
            assert_eq!(new_price.0, 12000);
            assert_eq!(new_qty, 250);
        }
        _ => panic!("expected ModifyOrder"),
    }
}

#[test]
fn test_decode_truncated_payload() {
    let payload = [0u8; 4];
    assert!(decode_command(MSG_NEW_ORDER, &payload).is_none());
}

#[test]
fn test_decode_unknown_msg_type() {
    let payload = [0u8; 64];
    assert!(decode_command(0xFF, &payload).is_none());
}

#[test]
fn test_decode_empty_payload() {
    assert!(decode_command(MSG_NEW_ORDER, &[]).is_none());
    assert!(decode_command(MSG_CANCEL_ORDER, &[]).is_none());
    assert!(decode_command(MSG_MODIFY_ORDER, &[]).is_none());
}

#[test]
fn test_encode_ack() {
    let response = Response::Ack { engine_seq: 1001, client_seq: 42 };

    let mut buf = Vec::new();
    encode_response(&response, &mut buf);

    let len = len_field(&buf);
    assert_eq!(len, 1 + ACK_MSG_SIZE);
    assert_eq!(buf[4], MSG_ACK);

    let msg = ack_at(&buf[5..]);
    assert_eq!(msg.client_seq, 42);
    assert_eq!(msg.engine_seq, 1001);
}

#[test]
fn test_encode_single_fill() {
    let trade = Trade {
        taker_order_id: 10,
        maker_order_id: 20,
        price: Price(9500),
        quantity: 50,
        taker_side: OrderSide::Buy,
        timestamp: 1234567890,
    };

    let response = Response::Fills { engine_seq: 500, trades: vec![trade] };

    let mut buf = Vec::new();
    encode_response(&response, &mut buf);

    let len = len_field(&buf);
    assert_eq!(buf[4], MSG_FILL);
    assert_eq!(buf.len(), 4 + len);

    let msg = fill_at(&buf[5..]);
    assert_eq!(msg.engine_seq, 500);
    assert_eq!(msg.taker_order_id, 10);
    assert_eq!(msg.maker_order_id, 20);
    assert_eq!(msg.price, 9500);
    assert_eq!(msg.quantity, 50);
    assert_eq!(msg.taker_side, 0);
    assert_eq!(msg.timestamp, 1234567890);
}

#[test]
fn test_encode_multiple_fills() {
    let trades = vec![
        Trade {
            taker_order_id: 1,
            maker_order_id: 2,
            price: Price(100),
            quantity: 10,
            taker_side: OrderSide::Buy,
            timestamp: 111,
        },
        Trade {
            taker_order_id: 1,
            maker_order_id: 3,
            price: Price(101),
            quantity: 20,
            taker_side: OrderSide::Buy,
            timestamp: 222,
        },
    ];

    let response = Response::Fills { engine_seq: 7, trades };

    let mut buf = Vec::new();
    encode_response(&response, &mut buf);

    let frame_size = 4 + 1 + FILL_MSG_SIZE;
    assert_eq!(buf.len(), frame_size * 2);

    let second_frame = &buf[frame_size..];
    assert_eq!(second_frame[4], MSG_FILL);
    let msg2 = fill_at(&second_frame[5..]);
    assert_eq!(msg2.maker_order_id, 3);
    assert_eq!(msg2.price, 101);
    assert_eq!(msg2.quantity, 20);
}

#[test]
fn test_encode_empty_fills() {
    let response = Response::Fills { engine_seq: 1, trades: vec![] };

    let mut buf = Vec::new();
    encode_response(&response, &mut buf);

    assert!(buf.is_empty());
}

#[test]
fn test_encode_reject() {
    let response = Response::Reject { engine_seq: 999, client_seq: 5, reason: OrderError::OrderNotFound };

    let mut buf = Vec::new();
    encode_response(&response, &mut buf);

    assert_eq!(buf[4], MSG_REJECT);
    let msg = reject_at(&buf[5..]);
    assert_eq!(msg.engine_seq, 999);
    assert_eq!(msg.client_seq, 5);
    assert_eq!(msg.reason, 3);
}

#[test]
fn test_session_frame_parsing_integration() {
    let msg = NewOrderMsg {
        client_seq: 1,
        order_id: 42,
        user_id: 10,
        asset_id: 1,
        price: 10000,
        quantity: 100,
        side: 0,
        order_type: 0,
    };

    let frame = build_frame(MSG_NEW_ORDER, msg.to_bytes());

    let mut session = Session::new(0);
    session.read_buf[..frame.len()].copy_from_slice(&frame);
    session.read_pos = frame.len();

    let (msg_type, payload) = session.try_parse_frame().expect("frame should be complete");
    let cmd = decode_command(msg_type, payload).expect("decode should succeed");

    match cmd {
        Command::AddOrder { client_seq, order } => {
            assert_eq!(client_seq, 1);
            assert_eq!(order.id, 42);
            assert_eq!(order.price.0, 10000);
        }
        _ => panic!("expected AddOrder"),
    }

    session.consume_frame();
    assert_eq!(session.read_pos, 0);
    assert!(session.try_parse_frame().is_none());
}

#[test]
fn test_session_multiple_frames_in_buffer() {
    let msg1 = CancelOrderMsg { client_seq: 1, order_id: 10, asset_id: 1 };
    let msg2 = CancelOrderMsg { client_seq: 2, order_id: 20, asset_id: 2 };

    let frame1 = build_frame(MSG_CANCEL_ORDER, msg1.to_bytes());
    let frame2 = build_frame(MSG_CANCEL_ORDER, msg2.to_bytes());

    let mut session = Session::new(0);
    session.read_buf[..frame1.len()].copy_from_slice(&frame1);
    session.read_buf[frame1.len()..frame1.len() + frame2.len()].copy_from_slice(&frame2);
    session.read_pos = frame1.len() + frame2.len();

    let (t1, p1) = session.try_parse_frame().unwrap();
    let cmd1 = decode_command(t1, p1).unwrap();
    session.consume_frame();

    let (t2, p2) = session.try_parse_frame().unwrap();
    let cmd2 = decode_command(t2, p2).unwrap();
    session.consume_frame();

    match cmd1 {
        Command::CancelOrder { client_seq, order_id, .. } => {
            assert_eq!(client_seq, 1);
            assert_eq!(order_id, 10);
        }
        _ => panic!("expected CancelOrder"),
    }
    match cmd2 {
        Command::CancelOrder { client_seq, order_id, .. } => {
            assert_eq!(client_seq, 2);
            assert_eq!(order_id, 20);
        }
        _ => panic!("expected CancelOrder"),
    }

    assert_eq!(session.read_pos, 0);
}

#[test]
fn test_session_partial_frame() {
    let msg = NewOrderMsg {
        client_seq: 1,
        order_id: 1,
        user_id: 1,
        asset_id: 1,
        price: 100,
        quantity: 10,
        side: 0,
        order_type: 0,
    };
    let frame = build_frame(MSG_NEW_ORDER, msg.to_bytes());
    let half = frame.len() / 2;

    let mut session = Session::new(0);
    session.read_buf[..half].copy_from_slice(&frame[..half]);
    session.read_pos = half;

    assert!(session.try_parse_frame().is_none());
}

#[test]
fn test_protocol_struct_sizes() {
    let new_order = NewOrderMsg {
        client_seq: 1,
        order_id: 2,
        user_id: 3,
        asset_id: 4,
        price: 5,
        quantity: 6,
        side: 0,
        order_type: 0,
    };
    let cancel = CancelOrderMsg { client_seq: 1, order_id: 2, asset_id: 3 };
    let modify = ModifyOrderMsg { client_seq: 1, order_id: 2, asset_id: 3, new_price: 4, new_qty: 5 };
    let ack = AckMsg { client_seq: 1, engine_seq: 2 };
    let fill = FillMsg {
        engine_seq: 1,
        taker_order_id: 2,
        maker_order_id: 3,
        price: 4,
        quantity: 5,
        taker_side: 0,
        timestamp: 6,
    };
    let reject = RejectMsg { client_seq: 1, engine_seq: 2, reason: 0 };
    assert_eq!(FRAME_HEADER_SIZE, 5);
    assert_eq!(HEADER_SIZE, 5);
    assert_eq!(new_order.to_bytes().len(), 50);
    assert_eq!(NEW_ORDER_MSG_SIZE, 50);
    assert_eq!(cancel.to_bytes().len(), 24);
    assert_eq!(CANCEL_ORDER_MSG_SIZE, 24);
    assert_eq!(modify.to_bytes().len(), 40);
    assert_eq!(MODIFY_ORDER_MSG_SIZE, 40);
    assert_eq!(ack.to_bytes().len(), 16);
    assert_eq!(ACK_MSG_SIZE, 16);
    assert_eq!(fill.to_bytes().len(), 49);
    assert_eq!(FILL_MSG_SIZE, 49);
    assert_eq!(reject.to_bytes().len(), 17);
    assert_eq!(REJECT_MSG_SIZE, 17);
}

#[test]
fn decode_at_stamps_the_given_time() {
    let msg = NewOrderMsg {
        client_seq: 3,
        order_id: 9,
        user_id: 4,
        asset_id: 2,
        price: 10100,
        quantity: 7,
        side: 1,
        order_type: 2,
    };
    let payload = msg.to_bytes();
    match decode_command_at(MSG_NEW_ORDER, &payload, 777).unwrap() {
        Command::AddOrder { client_seq, order } => {
            assert_eq!(client_seq, 3);
            assert_eq!(order.timestamp, 777);
            assert_eq!(order.order_type, OrderType::FOK);
            assert_eq!(order.side, OrderSide::Sell);
            assert_eq!(order.quantity, 7);
        }
        _ => panic!("expected AddOrder"),
    }
}

#[test]
fn decode_ignores_bytes_beyond_the_message() {
    let msg = CancelOrderMsg { client_seq: 8, order_id: 6, asset_id: 4 };
    let mut payload = msg.to_bytes();
    payload.extend_from_slice(&[0xAA, 0xBB, 0xCC]);
    match decode_command(MSG_CANCEL_ORDER, &payload).unwrap() {
        Command::CancelOrder { client_seq, asset_id, order_id } => {
            assert_eq!((client_seq, asset_id, order_id), (8, 4, 6));
        }
        _ => panic!("expected CancelOrder"),
    }
}

#[test]
fn valid_codes_are_checked_on_new_orders_only() {
    let mut payload = NewOrderMsg {
        client_seq: 1,
        order_id: 1,
        user_id: 1,
        asset_id: 1,
        price: 10000,
        quantity: 1,
        side: 0,
        order_type: 2,
    }
    .to_bytes();
    assert!(has_valid_codes(MSG_NEW_ORDER, &payload));
    payload[48] = 2;
    assert!(!has_valid_codes(MSG_NEW_ORDER, &payload));
    payload[48] = 1;
    payload[49] = 3;
    assert!(!has_valid_codes(MSG_NEW_ORDER, &payload));
    assert!(has_valid_codes(MSG_CANCEL_ORDER, &payload));
    assert!(has_valid_codes(MSG_NEW_ORDER, &payload[..10]));
}

#[test]
fn frame_length_counts_type_and_payload() {
    let mut buf = vec![9u8];
    write_frame(&mut buf, 0x42, &vec![1, 2, 3]);
    assert_eq!(buf, vec![9, 4, 0, 0, 0, 0x42, 1, 2, 3]);
}

#[test]
fn reject_codes_follow_the_reasons() {
    let reasons = [
        (OrderError::ZeroQuantity, 0u8),
        (OrderError::PriceOutOfRange, 1),
        (OrderError::DuplicateOrderId, 2),
        (OrderError::OrderNotFound, 3),
        (OrderError::AssetNotFound, 4),
    ];
    for (reason, code) in reasons {
        assert_eq!(u8::from(&reason), code);
        let mut buf = Vec::new();
        encode_response(&Response::Reject { engine_seq: 1, client_seq: 2, reason }, &mut buf);
        assert_eq!(buf.len(), 4 + 1 + REJECT_MSG_SIZE);
        assert_eq!(reject_at(&buf[5..]).reason, code);
    }
}
