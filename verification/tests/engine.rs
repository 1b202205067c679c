use trading::codec::{encode_response, write_frame};
use trading::command::Command;
use trading::engine::process;
use trading::error::OrderError;
use trading::exchange::Exchange;
use trading::journal::split_frames;
use trading::market_data::MarketDataEvent;
use trading::order::{Order, OrderSide, OrderType};
use trading::price::Price;
use trading::protocol::{
    BboUpdateMsg, CancelOrderMsg, ModifyOrderMsg, NewOrderMsg, BBO_UPDATE_MSG_SIZE, MSG_BBO_UPDATE, MSG_CANCEL_ORDER,
    MSG_MODIFY_ORDER, MSG_NEW_ORDER,
};
use trading::reactor::{
    apply_frame, decode_token, encode_broadcast, encode_token, handle_frame, Applied, OP_ACCEPT, OP_JOURNAL_WRITE,
    OP_READ, OP_WRITE,
};
use trading::response::Response;
use trading::session::Session;

fn order(id: u64, user: u64, asset: u64, qty: u64, price: u64, side: OrderSide, typ: OrderType) -> Order {
    Order::with_timestamp(id, user, asset, qty, Price(price), side, typ, 1000 + id)
}

fn frame(msg_type: u8, payload: Vec<u8>) -> Vec<u8> {
    let mut buf = Vec::new();
    write_frame(&mut buf, msg_type, &payload);
    buf
}

fn new_order_frame(client_seq: u64, id: u64, user: u64, asset: u64, price: u64, qty: u64, side: u8, typ: u8) -> Vec<u8> {
    let msg = NewOrderMsg {
        client_seq,
        order_id: id,
        user_id: user,
        asset_id: asset,
        price,
        quantity: qty,
        side,
        order_type: typ,
    };
    frame(MSG_NEW_ORDER, msg.to_bytes())
}

#[test]
fn exchange_routes_by_asset() {
    let mut ex = Exchange::new(64);
    assert!(ex.get_book(1).is_none());
    let _ = ex.add_order(order(1, 1, 1, 10, 10010, OrderSide::Sell, OrderType::GTC));
    let _ = ex.add_order(order(2, 1, 2, 20, 10010, OrderSide::Sell, OrderType::GTC));
    assert_eq!(ex.get_book(1).unwrap().asks.totals[10], 10);
    assert_eq!(ex.get_book(2).unwrap().asks.totals[10], 20);
    let trades = ex.add_order(order(3, 2, 2, 5, 10010, OrderSide::Buy, OrderType::IOC)).unwrap();
    assert_eq!(trades.len(), 1);
    assert_eq!(ex.get_book(2).unwrap().asks.totals[10], 15);
    assert_eq!(ex.get_book(1).unwrap().asks.totals[10], 10);
}

#[test]
fn unknown_asset_is_refused() {
    let mut ex = Exchange::new(64);
    assert_eq!(ex.cancel_order(9, 1), Err(OrderError::AssetNotFound));
    assert_eq!(ex.modify_order(9, 1, Price(10010), 5), Err(OrderError::AssetNotFound));
    assert!(ex.get_book(9).is_none());
    let _ = ex.add_order(order(1, 1, 9, 10, 10010, OrderSide::Sell, OrderType::GTC));
    assert_eq!(ex.cancel_order(9, 2), Err(OrderError::OrderNotFound));
    assert_eq!(ex.modify_order(9, 1, Price(10012), 4), Ok(()));
    assert_eq!(ex.get_book(9).unwrap().asks.totals[12], 4);
    assert_eq!(ex.cancel_order(9, 1), Ok(()));
    assert_eq!(ex.get_book(9).unwrap().best_ask_index, None);
}

#[test]
fn process_numbers_every_command() {
    let mut ex = Exchange::new(64);
    let mut seq = 10u64;
    let r = process(&mut ex, &mut seq, Command::AddOrder { client_seq: 1, order: order(1, 1, 1, 10, 10010, OrderSide::Sell, OrderType::GTC) });
    assert_eq!(seq, 11);
    match r {
        Response::Fills { engine_seq, trades } => {
            assert_eq!(engine_seq, 11);
            assert!(trades.is_empty());
        }
        _ => panic!("expected Fills"),
    }
    let r = process(&mut ex, &mut seq, Command::CancelOrder { client_seq: 2, asset_id: 1, order_id: 1 });
    assert!(matches!(r, Response::Ack { engine_seq: 12, client_seq: 2 }));
    let r = process(&mut ex, &mut seq, Command::CancelOrder { client_seq: 3, asset_id: 1, order_id: 1 });
    assert!(matches!(r, Response::Reject { engine_seq: 13, client_seq: 3, reason: OrderError::OrderNotFound }));
    let r = process(&mut ex, &mut seq, Command::ModifyOrder { client_seq: 4, asset_id: 5, order_id: 1, new_price: Price(10010), new_qty: 1 });
    assert!(matches!(r, Response::Reject { engine_seq: 14, client_seq: 4, reason: OrderError::AssetNotFound }));
    let r = process(&mut ex, &mut seq, Command::AddOrder { client_seq: 5, order: order(2, 1, 1, 0, 10010, OrderSide::Sell, OrderType::GTC) });
    assert!(matches!(r, Response::Reject { engine_seq: 15, client_seq: 5, reason: OrderError::ZeroQuantity }));
}

#[test]
fn room_for_commands() {
    let mut ex = Exchange::new(64);
    let big = order(1, 1, 1, u64::MAX, 10010, OrderSide::Sell, OrderType::GTC);
    assert!(ex.has_room_for(&Command::AddOrder { client_seq: 0, order: big }));
    let _ = ex.add_order(big);
    let more = order(2, 2, 1, 1, 10010, OrderSide::Sell, OrderType::GTC);
    assert!(!ex.has_room_for(&Command::AddOrder { client_seq: 0, order: more }));
    let ioc = order(2, 2, 1, 1, 10010, OrderSide::Sell, OrderType::IOC);
    assert!(ex.has_room_for(&Command::AddOrder { client_seq: 0, order: ioc }));
    assert!(ex.has_room_for(&Command::CancelOrder { client_seq: 0, asset_id: 1, order_id: 1 }));
    assert!(ex.has_room_for(&Command::ModifyOrder { client_seq: 0, asset_id: 1, order_id: 1, new_price: Price(10010), new_qty: u64::MAX }));
}

#[test]
fn apply_frame_outcomes() {
    let mut ex = Exchange::new(64);
    let mut seq = 0u64;

    assert!(matches!(apply_frame(&mut ex, &mut seq, &[1, 0, 0, 0]), Applied::Malformed));
    let bad_side = new_order_frame(1, 1, 1, 1, 10010, 5, 2, 0);
    assert!(matches!(apply_frame(&mut ex, &mut seq, &bad_side), Applied::Malformed));
    let bad_type = new_order_frame(1, 1, 1, 1, 10010, 5, 0, 3);
    assert!(matches!(apply_frame(&mut ex, &mut seq, &bad_type), Applied::Malformed));
    let unknown = frame(0x40, vec![0u8; 64]);
    assert!(matches!(apply_frame(&mut ex, &mut seq, &unknown), Applied::Ignored));
    let short = frame(MSG_CANCEL_ORDER, vec![0u8; 10]);
    assert!(matches!(apply_frame(&mut ex, &mut seq, &short), Applied::Ignored));
    assert_eq!(seq, 0);

    let sell = new_order_frame(7, 1, 1, 3, 10010, 5, 1, 0);
    match apply_frame(&mut ex, &mut seq, &sell) {
        Applied::Answered { response: Response::Fills { engine_seq, trades }, asset_id: 3, .. } => {
            assert_eq!(engine_seq, 1);
            assert!(trades.is_empty());
        }
        _ => panic!("expected fills"),
    }
    assert_eq!(ex.get_book(3).unwrap().asks.totals[10], 5);

    let mut full = 0u64.wrapping_sub(1);
    assert!(matches!(apply_frame(&mut ex, &mut full, &sell), Applied::Overflow));
    assert_eq!(full, u64::MAX);
}

#[test]
fn handle_frame_answers_and_journals() {
    let mut ex = Exchange::new(64);
    let mut seq = 0u64;
    let mut out = Vec::new();
    let mut fan = Vec::new();
    let mut journal = Vec::new();

    let sell = new_order_frame(1, 10, 1, 1, 10020, 8, 1, 0);
    let _ = handle_frame(&mut ex, &mut seq, &sell, &mut out, &mut fan, &mut journal);
    let mut expected = Vec::new();
    encode_response(&Response::Fills { engine_seq: 1, trades: vec![] }, &mut expected);
    assert_eq!(out, expected);
    assert_eq!(journal, sell);
    let mut expected_fan = Vec::new();
    write_frame(&mut expected_fan, MSG_BBO_UPDATE, &BboUpdateMsg { engine_seq: 1, asset_id: 1, price: 10020, quantity: 8, side: 1 }.to_bytes());
    assert_eq!(fan, expected_fan);

    let cancel = frame(MSG_CANCEL_ORDER, CancelOrderMsg { client_seq: 2, order_id: 10, asset_id: 1 }.to_bytes());
    let _ = handle_frame(&mut ex, &mut seq, &cancel, &mut out, &mut fan, &mut journal);
    encode_response(&Response::Ack { engine_seq: 2, client_seq: 2 }, &mut expected);
    assert_eq!(out, expected);
    write_frame(&mut expected_fan, MSG_BBO_UPDATE, &BboUpdateMsg { engine_seq: 2, asset_id: 1, price: 10020, quantity: 0, side: 1 }.to_bytes());
    assert_eq!(fan, expected_fan);
    let mut both = sell.clone();
    both.extend_from_slice(&cancel);
    assert_eq!(journal, both);

    let unknown = frame(0x20, vec![1, 2, 3]);
    let a = handle_frame(&mut ex, &mut seq, &unknown, &mut out, &mut fan, &mut journal);
    assert!(matches!(a, Applied::Ignored));
    assert_eq!(out, expected);
    assert_eq!(fan, expected_fan);
    assert_eq!(journal, both);

    let frames = split_frames(&journal);
    assert_eq!(frames, vec![sell.clone(), cancel.clone()]);

    let mut replayed = Exchange::new(64);
    let mut replay_seq = 0u64;
    for f in &frames {
        assert!(matches!(apply_frame(&mut replayed, &mut replay_seq, f), Applied::Answered { .. }));
    }
    assert_eq!(replay_seq, seq);
    assert_eq!(replayed.get_book(1).unwrap().asks.totals[20], 0);
}

#[test]
fn books_publish_market_data() {
    let mut ex = Exchange::new(64);
    assert!(ex.drain_market_data(1).is_empty());
    let _ = ex.add_order(order(1, 1, 1, 10, 10010, OrderSide::Sell, OrderType::GTC));
    let _ = ex.add_order(order(2, 2, 1, 4, 10010, OrderSide::Buy, OrderType::GTC));
    let events = ex.drain_market_data(1);
    assert_eq!(
        events,
        vec![
            MarketDataEvent::LevelUpdated { price: Price(10010), side: OrderSide::Sell, total_qty: 10 },
            MarketDataEvent::BestPriceChanged { best_bid: None, best_ask: Some(Price(10010)) },
            MarketDataEvent::TradeExecuted { price: Price(10010), quantity: 4, taker_side: OrderSide::Buy },
            MarketDataEvent::LevelUpdated { price: Price(10010), side: OrderSide::Sell, total_qty: 6 },
        ]
    );
    assert!(ex.drain_market_data(1).is_empty());
    assert_eq!(ex.modify_order(1, 1, Price(10011), 6), Ok(()));
    assert_eq!(
        ex.drain_market_data(1),
        vec![
            MarketDataEvent::LevelUpdated { price: Price(10010), side: OrderSide::Sell, total_qty: 0 },
            MarketDataEvent::LevelUpdated { price: Price(10011), side: OrderSide::Sell, total_qty: 6 },
            MarketDataEvent::BestPriceChanged { best_bid: None, best_ask: Some(Price(10011)) },
        ]
    );
    assert_eq!(ex.cancel_order(1, 7), Err(OrderError::OrderNotFound));
    assert!(ex.drain_market_data(1).is_empty());
}

#[test]
fn modify_frame_reaches_the_book() {
    let mut ex = Exchange::new(64);
    let mut seq = 0u64;
    let _ = apply_frame(&mut ex, &mut seq, &new_order_frame(1, 5, 1, 4, 10030, 9, 0, 0));
    let m = frame(MSG_MODIFY_ORDER, ModifyOrderMsg { client_seq: 2, order_id: 5, asset_id: 4, new_price: 10040, new_qty: 3 }.to_bytes());
    assert!(matches!(apply_frame(&mut ex, &mut seq, &m), Applied::Answered { response: Response::Ack { engine_seq: 2, client_seq: 2 }, asset_id: 4, .. }));
    let book = ex.get_book(4).unwrap();
    assert_eq!(book.bids.totals[30], 0);
    assert_eq!(book.bids.totals[40], 3);
    assert_eq!(book.best_bid_index, Some(40));
}

#[test]
fn take_frames_hands_out_whole_frames() {
    let f1 = frame(MSG_CANCEL_ORDER, CancelOrderMsg { client_seq: 1, order_id: 2, asset_id: 3 }.to_bytes());
    let f2 = frame(0x77, vec![9, 9]);
    let mut session = Session::new(4);
    let mut bytes = f1.clone();
    bytes.extend_from_slice(&f2);
    bytes.extend_from_slice(&[7, 0, 0]);
    session.read_buf[..bytes.len()].copy_from_slice(&bytes);
    session.read_pos = bytes.len();

    let frames = session.take_frames().unwrap();
    assert_eq!(frames, vec![f1, f2]);
    assert_eq!(session.read_pos, 3);
    assert_eq!(&session.read_buf[..3], &[7, 0, 0]);
    assert_eq!(session.fd, 4);

    let mut empty_len = Session::new(5);
    empty_len.read_buf[..6].copy_from_slice(&[0, 0, 0, 0, 1, 2]);
    empty_len.read_pos = 6;
    assert!(empty_len.take_frames().is_none());
}

#[test]
fn broadcast_frames_level_updates_only() {
    let events = vec![
        MarketDataEvent::TradeExecuted { price: Price(10010), quantity: 5, taker_side: OrderSide::Buy },
        MarketDataEvent::LevelUpdated { price: Price(10010), side: OrderSide::Sell, total_qty: 45 },
        MarketDataEvent::BestPriceChanged { best_bid: None, best_ask: Some(Price(10010)) },
        MarketDataEvent::LevelUpdated { price: Price(10020), side: OrderSide::Buy, total_qty: 7 },
    ];
    let b = encode_broadcast(3, 9, &events);
    let size = 4 + 1 + BBO_UPDATE_MSG_SIZE;
    assert_eq!(b.len(), 2 * size);
    let mut expected = Vec::new();
    write_frame(&mut expected, MSG_BBO_UPDATE, &BboUpdateMsg { engine_seq: 3, asset_id: 9, price: 10010, quantity: 45, side: 1 }.to_bytes());
    write_frame(&mut expected, MSG_BBO_UPDATE, &BboUpdateMsg { engine_seq: 3, asset_id: 9, price: 10020, quantity: 7, side: 0 }.to_bytes());
    assert_eq!(b, expected);
    assert_eq!(b[4], 0x13);
    assert!(encode_broadcast(1, 1, &vec![]).is_empty());
}

#[test]
fn tokens_round_trip() {
    for (fd, op) in [(0, OP_ACCEPT), (7, OP_READ), (123456, OP_WRITE), (i32::MAX, OP_JOURNAL_WRITE)] {
        let t = encode_token(fd, op);
        assert_eq!(t, ((fd as u64) << 8) | op as u64);
        assert_eq!(decode_token(t), (fd, op));
    }
    assert_eq!(encode_token(3, 2), 0x302);
}

#[test]
fn split_frames_keeps_whole_frames() {
    let f1 = frame(1, vec![1, 2, 3]);
    let f2 = frame(2, vec![]);
    let mut log = f1.clone();
    log.extend_from_slice(&f2);
    log.extend_from_slice(&[200, 0, 0, 0, 1, 1]);
    assert_eq!(split_frames(&log), vec![f1, f2]);
    assert!(split_frames(&[1, 0, 0]).is_empty());
    assert!(split_frames(&[]).is_empty());
}
