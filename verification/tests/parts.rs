use std::convert::TryFrom;

use trading::error::OrderError;
use trading::order::{Order, OrderSide, OrderType};
use trading::order_book::OrderBook;
use trading::order_pool::OrderPool;
use trading::order_queue::OrderQueue;
use trading::price::Price;
use trading::price_level::{PriceLevel, MAX_LEVEL, PRICE_OFFSET};
use trading::response::Response;
use trading::rest::{
    cancel_succeeded, name_of_error, order_reply, request_order, side_from_name, type_from_name, AddOrderRequest,
    Reply,
};
use trading::trade::Trade;

fn order(id: u64, user: u64, qty: u64, price: u64, side: OrderSide, typ: OrderType) -> Order {
    Order::with_timestamp(id, user, 1, qty, Price(price), side, typ, 50)
}

fn request(side: &str, typ: &str) -> AddOrderRequest {
    AddOrderRequest {
        id: 4,
        user_id: 5,
        asset_id: 6,
        quantity: 7,
        price: 10008,
        side: side.to_string(),
        order_type: typ.to_string(),
    }
}

#[test]
fn side_and_type_codes() {
    assert_eq!(OrderSide::try_from(0u8), Ok(OrderSide::Buy));
    assert_eq!(OrderSide::try_from(1u8), Ok(OrderSide::Sell));
    assert_eq!(OrderSide::try_from(2u8), Err("invalid order side".to_string()));
    assert_eq!(OrderType::try_from(0u8), Ok(OrderType::GTC));
    assert_eq!(OrderType::try_from(1u8), Ok(OrderType::IOC));
    assert_eq!(OrderType::try_from(2u8), Ok(OrderType::FOK));
    assert_eq!(OrderType::try_from(3u8), Err("invalid order type".to_string()));
}

#[test]
fn new_order_keeps_its_fields() {
    let o = Order::new(1, 2, 3, 4, Price(10005), OrderSide::Sell, OrderType::IOC);
    assert_eq!((o.id, o.user_id, o.asset_id, o.quantity, o.price), (1, 2, 3, 4, Price(10005)));
    assert_eq!(o.side, OrderSide::Sell);
    assert_eq!(o.order_type, OrderType::IOC);
    assert!(o.timestamp > 1_600_000_000);
}

#[test]
fn pool_reuses_the_last_freed_slot() {
    let mut pool = OrderPool::new(4);
    let a = pool.allocate(order(1, 1, 1, 10000, OrderSide::Buy, OrderType::GTC));
    let b = pool.allocate(order(2, 1, 1, 10000, OrderSide::Buy, OrderType::GTC));
    let c = pool.allocate(order(3, 1, 1, 10000, OrderSide::Buy, OrderType::GTC));
    assert_eq!((a, b, c), (0, 1, 2));
    pool.deallocate(0);
    pool.deallocate(2);
    assert_eq!(pool.allocate(order(4, 1, 1, 10000, OrderSide::Buy, OrderType::GTC)), 2);
    assert_eq!(pool.allocate(order(5, 1, 1, 10000, OrderSide::Buy, OrderType::GTC)), 0);
    assert_eq!(pool.allocate(order(6, 1, 1, 10000, OrderSide::Buy, OrderType::GTC)), 3);
    assert_eq!(pool.nodes[0].order.id, 5);
    assert!(pool.nodes[0].next.is_none() && pool.nodes[0].prev.is_none());
}

#[test]
fn queue_links_and_unlinks() {
    let mut pool = OrderPool::new(4);
    let mut q = OrderQueue::new();
    let a = pool.allocate(order(1, 1, 1, 10000, OrderSide::Buy, OrderType::GTC));
    let b = pool.allocate(order(2, 1, 1, 10000, OrderSide::Buy, OrderType::GTC));
    let c = pool.allocate(order(3, 1, 1, 10000, OrderSide::Buy, OrderType::GTC));
    q.push_back(&mut pool, a);
    q.push_back(&mut pool, b);
    q.push_back(&mut pool, c);
    assert_eq!((q.head, q.tail), (Some(a), Some(c)));
    assert_eq!((pool.nodes[b].prev, pool.nodes[b].next), (Some(a), Some(c)));
    q.unlink(&mut pool, b);
    assert_eq!(pool.nodes[a].next, Some(c));
    assert_eq!(pool.nodes[c].prev, Some(a));
    assert_eq!((pool.nodes[b].prev, pool.nodes[b].next), (None, None));
    q.unlink(&mut pool, a);
    assert_eq!((q.head, q.tail), (Some(c), Some(c)));
    q.unlink(&mut pool, c);
    assert_eq!((q.head, q.tail), (None, None));
}

#[test]
fn price_levels_and_prices() {
    assert_eq!(PriceLevel::get_index_from_price(Price(10000)), Some(0));
    assert_eq!(PriceLevel::get_index_from_price(Price(11000)), Some(1000));
    assert_eq!(PriceLevel::get_index_from_price(Price(9999)), None);
    assert_eq!(PriceLevel::get_index_from_price(Price(11001)), None);
    assert_eq!(PriceLevel::get_index_from_price(Price(u64::MAX)), None);
    for i in [0usize, 1, 500, MAX_LEVEL - 1] {
        let p = PriceLevel::get_price_from_index(i);
        assert_eq!(p, Price(i as u64 + PRICE_OFFSET));
        assert_eq!(PriceLevel::get_index_from_price(p), Some(i));
    }
}

#[test]
fn level_totals_and_searches() {
    let mut pl = PriceLevel::new();
    assert_eq!(pl.find_next_non_empty_from(0), None);
    assert_eq!(pl.find_prev_non_empty_from(MAX_LEVEL - 1), None);
    pl.add_qty_at(3, 10);
    pl.add_qty_at(700, 5);
    pl.add_qty_at(64, 1);
    assert_eq!(pl.find_next_non_empty_from(0), Some(3));
    assert_eq!(pl.find_next_non_empty_from(4), Some(64));
    assert_eq!(pl.find_next_non_empty_from(65), Some(700));
    assert_eq!(pl.find_next_non_empty_from(701), None);
    assert_eq!(pl.find_prev_non_empty_from(MAX_LEVEL - 1), Some(700));
    assert_eq!(pl.find_prev_non_empty_from(699), Some(64));
    assert_eq!(pl.find_prev_non_empty_from(63), Some(3));
    assert_eq!(pl.find_prev_non_empty_from(2), None);
    assert_eq!(pl.find_prev_non_empty_from(5000), Some(700));
    pl.sub_qty_at(64, 1);
    assert_eq!(pl.totals[64], 0);
    assert_eq!(pl.find_next_non_empty_from(4), Some(700));
    let d = PriceLevel::default();
    assert_eq!(d.totals[0], 0);
    assert_eq!(d.bitmap, [0u64; 16]);
}

#[test]
fn quantity_is_conserved_when_matching() {
    let mut book = OrderBook::new(16);
    let _ = book.add_order(order(1, 1, 30, 10010, OrderSide::Sell, OrderType::GTC));
    let _ = book.add_order(order(2, 2, 30, 10011, OrderSide::Sell, OrderType::GTC));
    let trades = book.add_order(order(3, 3, 100, 10011, OrderSide::Buy, OrderType::GTC)).unwrap();
    let traded: u64 = trades.iter().map(|t| t.quantity).sum();
    assert_eq!(traded + book.bids.totals[11], 100);
    assert_eq!(book.bids.totals[11], 40);
}

#[test]
fn fills_stay_within_the_limit_and_hit_other_users() {
    let mut book = OrderBook::new(16);
    let _ = book.add_order(order(1, 1, 10, 10010, OrderSide::Sell, OrderType::GTC));
    let _ = book.add_order(order(2, 9, 10, 10012, OrderSide::Sell, OrderType::GTC));
    let _ = book.add_order(order(3, 2, 10, 10014, OrderSide::Sell, OrderType::GTC));
    let _ = book.add_order(order(4, 3, 10, 10016, OrderSide::Sell, OrderType::GTC));
    let trades = book.add_order(order(5, 9, 100, 10014, OrderSide::Buy, OrderType::IOC)).unwrap();
    assert_eq!(trades.len(), 1);
    assert_eq!(trades[0].maker_order_id, 1);
    assert!(trades.iter().all(|t| t.price.0 <= 10014 && t.maker_order_id != 2 && t.quantity > 0));
    assert_eq!(book.asks.totals[12], 10);
    assert_eq!(book.asks.totals[14], 10);
}

#[test]
fn cancel_restores_the_book() {
    let mut book = OrderBook::new(16);
    let _ = book.add_order(order(1, 1, 10, 10020, OrderSide::Buy, OrderType::GTC));
    let totals_before = book.bids.totals;
    let best_before = (book.best_bid_index, book.best_ask_index);
    let _ = book.add_order(order(2, 2, 7, 10030, OrderSide::Buy, OrderType::GTC));
    assert_eq!(book.cancel_order(2), Ok(()));
    assert_eq!(book.bids.totals, totals_before);
    assert_eq!((book.best_bid_index, book.best_ask_index), best_before);
}

#[test]
fn request_names() {
    assert_eq!(side_from_name(&"buy".to_string()), Some(OrderSide::Buy));
    assert_eq!(side_from_name(&"sell".to_string()), Some(OrderSide::Sell));
    assert_eq!(side_from_name(&"Buy".to_string()), None);
    assert_eq!(type_from_name(&"gtc".to_string()), Some(OrderType::GTC));
    assert_eq!(type_from_name(&"ioc".to_string()), Some(OrderType::IOC));
    assert_eq!(type_from_name(&"fok".to_string()), Some(OrderType::FOK));
    assert_eq!(type_from_name(&"day".to_string()), None);
    assert_eq!(name_of_error(OrderError::ZeroQuantity), "ZeroQuantity");
    assert_eq!(name_of_error(OrderError::AssetNotFound), "AssetNotFound");
    assert_eq!(name_of_error(OrderError::DuplicateOrderId), format!("{:?}", OrderError::DuplicateOrderId));
}

#[test]
fn request_order_reads_the_body() {
    let o = request_order(&request("sell", "fok")).ok().unwrap();
    assert_eq!((o.id, o.user_id, o.asset_id, o.quantity, o.price), (4, 5, 6, 7, Price(10008)));
    assert_eq!((o.side, o.order_type), (OrderSide::Sell, OrderType::FOK));

    let e = request_order(&request("hold", "fok")).err().unwrap();
    assert!(!e.success);
    assert!(e.trades.is_empty());
    assert_eq!(e.error.as_deref(), Some("invalid side"));

    let e = request_order(&request("buy", "day")).err().unwrap();
    assert_eq!(e.error.as_deref(), Some("invalid order_type"));

    let e = request_order(&request("hold", "day")).err().unwrap();
    assert_eq!(e.error.as_deref(), Some("invalid side"));
}

#[test]
fn replies_follow_the_response() {
    let t = Trade { taker_order_id: 1, maker_order_id: 2, price: Price(10001), quantity: 3, taker_side: OrderSide::Buy, timestamp: 4 };
    match order_reply(Response::Fills { engine_seq: 1, trades: vec![t] }) {
        Reply::Success(b) => {
            assert!(b.success);
            assert_eq!(b.trades, vec![t]);
            assert!(b.error.is_none());
        }
        _ => panic!("expected success"),
    }
    match order_reply(Response::Reject { engine_seq: 1, client_seq: 0, reason: OrderError::PriceOutOfRange }) {
        Reply::BadRequest(b) => {
            assert!(!b.success);
            assert!(b.trades.is_empty());
            assert_eq!(b.error.as_deref(), Some("PriceOutOfRange"));
        }
        _ => panic!("expected bad request"),
    }
    assert!(matches!(order_reply(Response::Ack { engine_seq: 1, client_seq: 0 }), Reply::InternalServerError));
    assert!(cancel_succeeded(&Response::Ack { engine_seq: 1, client_seq: 0 }));
    assert!(!cancel_succeeded(&Response::Reject { engine_seq: 1, client_seq: 0, reason: OrderError::OrderNotFound }));
    assert!(!cancel_succeeded(&Response::Fills { engine_seq: 1, trades: vec![] }));
}
