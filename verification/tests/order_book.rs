use trading::error::OrderError;
use trading::order::{Order, OrderSide, OrderType};
use trading::order_book::OrderBook;
use trading::price::Price;

fn create_order(id: u64, user_id: u64, qty: u64, price: u64, side: OrderSide, typ: OrderType) -> Order {
    Order::new(id, user_id, 1, qty, Price(price), side, typ)
}

#[test]
fn test_add_single_maker_order() {
    let mut book = OrderBook::new(1024);
    let order = create_order(1, 1, 100, 10000, OrderSide::Buy, OrderType::GTC);

    let _ = book.add_order(order);

    assert_eq!(book.best_bid_index, Some(0));
    assert_eq!(book.best_ask_index, None);
    assert_eq!(book.bids.totals[0], 100);
}

#[test]
fn test_match_full_taker_order() {
    let mut book = OrderBook::new(1024);

    let _ = book.add_order(create_order(1, 1, 100, 10010, OrderSide::Sell, OrderType::GTC));
    assert_eq!(book.best_ask_index, Some(10));
    assert_eq!(book.asks.totals[10], 100);

    let _ = book.add_order(create_order(2, 2, 50, 10010, OrderSide::Buy, OrderType::GTC));

    assert_eq!(book.asks.totals[10], 50);
    assert_eq!(book.best_bid_index, None);
}

#[test]
fn test_match_partial_taker_order_rests() {
    let mut book = OrderBook::new(1024);

    let _ = book.add_order(create_order(1, 1, 50, 10010, OrderSide::Sell, OrderType::GTC));
    let _ = book.add_order(create_order(2, 2, 100, 10010, OrderSide::Buy, OrderType::GTC));

    assert_eq!(book.asks.totals[10], 0);
    assert_eq!(book.best_ask_index, None);

    assert_eq!(book.bids.totals[10], 50);
    assert_eq!(book.best_bid_index, Some(10));
}

#[test]
fn test_ioc_order_does_not_rest() {
    let mut book = OrderBook::new(1024);

    let _ = book.add_order(create_order(1, 1, 50, 10010, OrderSide::Sell, OrderType::GTC));
    let _ = book.add_order(create_order(2, 2, 100, 10010, OrderSide::Buy, OrderType::IOC));

    assert_eq!(book.asks.totals[10], 0);
    assert_eq!(book.best_ask_index, None);
    assert_eq!(book.best_bid_index, None);
}

#[test]
fn test_fok_order_success() {
    let mut book = OrderBook::new(1024);

    let _ = book.add_order(create_order(1, 1, 50, 10010, OrderSide::Sell, OrderType::GTC));
    let _ = book.add_order(create_order(2, 1, 50, 10020, OrderSide::Sell, OrderType::GTC));

    let _ = book.add_order(create_order(3, 2, 100, 10020, OrderSide::Buy, OrderType::FOK));

    assert_eq!(book.asks.totals[10], 0);
    assert_eq!(book.asks.totals[20], 0);
    assert_eq!(book.best_ask_index, None);
}

#[test]
fn test_fok_order_failure_due_to_price() {
    let mut book = OrderBook::new(1024);

    let _ = book.add_order(create_order(1, 1, 50, 10010, OrderSide::Sell, OrderType::GTC));
    let _ = book.add_order(create_order(2, 1, 50, 10020, OrderSide::Sell, OrderType::GTC));

    let _ = book.add_order(create_order(3, 2, 100, 10015, OrderSide::Buy, OrderType::FOK));

    assert_eq!(book.asks.totals[10], 50);
    assert_eq!(book.asks.totals[20], 50);
    assert_eq!(book.best_ask_index, Some(10));
}

#[test]
fn test_fok_order_failure_due_to_quantity() {
    let mut book = OrderBook::new(1024);

    let _ = book.add_order(create_order(1, 1, 50, 10010, OrderSide::Sell, OrderType::GTC));
    let _ = book.add_order(create_order(2, 2, 100, 10020, OrderSide::Buy, OrderType::FOK));

    assert_eq!(book.asks.totals[10], 50);
}

#[test]
fn test_self_trade_prevention() {
    let mut book = OrderBook::new(1024);

    let _ = book.add_order(create_order(1, 1, 50, 10010, OrderSide::Sell, OrderType::GTC));
    let _ = book.add_order(create_order(2, 1, 50, 10010, OrderSide::Buy, OrderType::GTC));

    assert_eq!(book.asks.totals[10], 50);
    assert_eq!(book.bids.totals[10], 50);
}

#[test]
fn test_cancel_order() {
    let mut book = OrderBook::new(1024);

    let _ = book.add_order(create_order(1, 1, 50, 10010, OrderSide::Sell, OrderType::GTC));
    assert_eq!(book.asks.totals[10], 50);
    assert_eq!(book.best_ask_index, Some(10));

    let _ = book.cancel_order(1);

    assert_eq!(book.asks.totals[10], 0);
    assert_eq!(book.best_ask_index, None);
    assert!(!book.id_to_index.contains_key(&1));
}

#[test]
fn test_modify_order() {
    let mut book = OrderBook::new(1024);

    let _ = book.add_order(create_order(1, 1, 50, 10010, OrderSide::Sell, OrderType::GTC));

    let _ = book.modify_order(1, Price(10020), 100);

    assert_eq!(book.asks.totals[10], 0);
    assert_eq!(book.asks.totals[20], 100);
    assert_eq!(book.best_ask_index, Some(20));
    assert!(book.id_to_index.contains_key(&1));
}

#[test]
fn fills_carry_taker_and_maker() {
    let mut book = OrderBook::new(16);
    let _ = book.add_order(Order::with_timestamp(1, 1, 1, 30, Price(10010), OrderSide::Sell, OrderType::GTC, 5));
    let _ = book.add_order(Order::with_timestamp(2, 2, 1, 30, Price(10012), OrderSide::Sell, OrderType::GTC, 6));
    let trades = book
        .add_order(Order::with_timestamp(3, 3, 1, 45, Price(10020), OrderSide::Buy, OrderType::GTC, 9))
        .unwrap();
    assert_eq!(trades.len(), 2);
    assert_eq!((trades[0].taker_order_id, trades[0].maker_order_id, trades[0].price, trades[0].quantity), (3, 1, Price(10010), 30));
    assert_eq!((trades[1].taker_order_id, trades[1].maker_order_id, trades[1].price, trades[1].quantity), (3, 2, Price(10012), 15));
    assert_eq!(trades[1].taker_side, OrderSide::Buy);
    assert_eq!(trades[1].timestamp, 9);
    assert_eq!(book.asks.totals[12], 15);
    assert_eq!(book.best_ask_index, Some(12));
    assert_eq!(book.best_bid_index, None);
}

#[test]
fn time_priority_within_a_level() {
    let mut book = OrderBook::new(16);
    let _ = book.add_order(create_order(1, 1, 10, 10050, OrderSide::Buy, OrderType::GTC));
    let _ = book.add_order(create_order(2, 2, 10, 10050, OrderSide::Buy, OrderType::GTC));
    let trades = book.add_order(create_order(3, 3, 15, 10050, OrderSide::Sell, OrderType::IOC)).unwrap();
    assert_eq!(trades.len(), 2);
    assert_eq!((trades[0].maker_order_id, trades[0].quantity), (1, 10));
    assert_eq!((trades[1].maker_order_id, trades[1].quantity), (2, 5));
    assert_eq!(book.bids.totals[50], 5);
}

#[test]
fn a_sell_sweeps_bids_from_the_highest() {
    let mut book = OrderBook::new(16);
    let _ = book.add_order(create_order(1, 1, 10, 10040, OrderSide::Buy, OrderType::GTC));
    let _ = book.add_order(create_order(2, 1, 10, 10060, OrderSide::Buy, OrderType::GTC));
    let _ = book.add_order(create_order(3, 1, 10, 10050, OrderSide::Buy, OrderType::GTC));
    assert_eq!(book.best_bid_index, Some(60));
    let trades = book.add_order(create_order(4, 2, 25, 10045, OrderSide::Sell, OrderType::GTC)).unwrap();
    let prices: Vec<u64> = trades.iter().map(|t| t.price.0).collect();
    assert_eq!(prices, vec![10060, 10050]);
    assert_eq!(book.best_bid_index, Some(40));
    assert_eq!(book.asks.totals[45], 5);
    assert_eq!(book.best_ask_index, Some(45));
}

#[test]
fn refused_orders() {
    let mut book = OrderBook::new(16);
    assert_eq!(book.add_order(create_order(1, 1, 0, 10010, OrderSide::Buy, OrderType::GTC)), Err(OrderError::ZeroQuantity));
    assert_eq!(book.add_order(create_order(1, 1, 5, 9999, OrderSide::Buy, OrderType::GTC)), Err(OrderError::PriceOutOfRange));
    assert_eq!(book.add_order(create_order(1, 1, 5, 11001, OrderSide::Buy, OrderType::GTC)), Err(OrderError::PriceOutOfRange));
    assert_eq!(book.add_order(create_order(1, 1, 5, 11000, OrderSide::Buy, OrderType::GTC)), Ok(vec![]));
    assert_eq!(book.add_order(create_order(1, 2, 5, 10000, OrderSide::Sell, OrderType::GTC)), Err(OrderError::DuplicateOrderId));
    assert_eq!(book.cancel_order(7), Err(OrderError::OrderNotFound));
    assert_eq!(book.modify_order(7, Price(10010), 5), Err(OrderError::OrderNotFound));
    assert_eq!(book.modify_order(1, Price(10010), 0), Err(OrderError::ZeroQuantity));
    assert_eq!(book.modify_order(1, Price(20000), 5), Err(OrderError::PriceOutOfRange));
    assert_eq!(book.bids.totals[1000], 5);
    assert_eq!(book.best_bid_index, Some(1000));
}

#[test]
fn cancel_moves_the_best_bid_down() {
    let mut book = OrderBook::new(16);
    let _ = book.add_order(create_order(1, 1, 10, 10030, OrderSide::Buy, OrderType::GTC));
    let _ = book.add_order(create_order(2, 1, 10, 10070, OrderSide::Buy, OrderType::GTC));
    assert_eq!(book.best_bid_index, Some(70));
    assert_eq!(book.cancel_order(2), Ok(()));
    assert_eq!(book.best_bid_index, Some(30));
    assert_eq!(book.cancel_order(1), Ok(()));
    assert_eq!(book.best_bid_index, None);
    assert_eq!(book.cancel_order(1), Err(OrderError::OrderNotFound));
}

#[test]
fn modify_loses_time_priority() {
    let mut book = OrderBook::new(16);
    let _ = book.add_order(create_order(1, 1, 10, 10010, OrderSide::Sell, OrderType::GTC));
    let _ = book.add_order(create_order(2, 2, 10, 10010, OrderSide::Sell, OrderType::GTC));
    assert_eq!(book.modify_order(1, Price(10010), 10), Ok(()));
    let trades = book.add_order(create_order(3, 3, 10, 10010, OrderSide::Buy, OrderType::GTC)).unwrap();
    assert_eq!(trades.len(), 1);
    assert_eq!(trades[0].maker_order_id, 2);
}

#[test]
fn modify_does_not_match() {
    let mut book = OrderBook::new(16);
    let _ = book.add_order(create_order(1, 1, 10, 10010, OrderSide::Sell, OrderType::GTC));
    let _ = book.add_order(create_order(2, 2, 10, 10005, OrderSide::Buy, OrderType::GTC));
    assert_eq!(book.modify_order(2, Price(10020), 10), Ok(()));
    assert_eq!(book.asks.totals[10], 10);
    assert_eq!(book.bids.totals[20], 10);
    assert_eq!(book.bids.totals[5], 0);
    assert_eq!(book.best_bid_index, Some(20));
}

#[test]
fn fok_skips_own_orders() {
    let mut book = OrderBook::new(16);
    let _ = book.add_order(create_order(1, 1, 50, 10010, OrderSide::Sell, OrderType::GTC));
    let _ = book.add_order(create_order(2, 2, 100, 10020, OrderSide::Sell, OrderType::GTC));
    let trades = book.add_order(create_order(3, 1, 100, 10020, OrderSide::Buy, OrderType::FOK)).unwrap();
    assert_eq!(trades.len(), 1);
    assert_eq!((trades[0].maker_order_id, trades[0].quantity), (2, 100));
    assert_eq!(book.asks.totals[10], 50);
    assert_eq!(book.asks.totals[20], 0);
}

#[test]
fn room_checks() {
    let mut book = OrderBook::new(16);
    let _ = book.add_order(create_order(1, 1, u64::MAX - 10, 10010, OrderSide::Sell, OrderType::GTC));
    assert!(book.has_room_for(&create_order(2, 2, 10, 10010, OrderSide::Sell, OrderType::GTC)));
    assert!(!book.has_room_for(&create_order(2, 2, 11, 10010, OrderSide::Sell, OrderType::GTC)));
    assert!(book.has_room_for(&create_order(2, 2, 11, 10011, OrderSide::Sell, OrderType::GTC)));
    assert!(book.has_room_to_modify(1, Price(10010), u64::MAX));
    let _ = book.add_order(create_order(3, 2, 5, 10011, OrderSide::Sell, OrderType::GTC));
    assert!(book.has_room_to_modify(3, Price(10010), 10));
    assert!(!book.has_room_to_modify(3, Price(10010), 11));
    assert!(book.has_room_to_modify(3, Price(10010), 0));
    assert!(book.has_room_to_modify(9, Price(10010), 11));
}

#[test]
fn only_gtc_remainders_rest() {
    let mut book = OrderBook::new(16);
    let _ = book.add_order(create_order(1, 1, 10, 10010, OrderSide::Sell, OrderType::GTC));
    let _ = book.add_order(create_order(2, 2, 30, 10010, OrderSide::Buy, OrderType::IOC));
    assert!(!book.id_to_index.contains_key(&2));
    let _ = book.add_order(create_order(3, 2, 30, 10020, OrderSide::Buy, OrderType::FOK));
    assert!(!book.id_to_index.contains_key(&3));
    let _ = book.add_order(create_order(4, 2, 30, 10020, OrderSide::Buy, OrderType::GTC));
    assert!(book.id_to_index.contains_key(&4));
    assert_eq!(book.bids.totals[20], 30);
    let _ = book.add_order(create_order(5, 3, 30, 10020, OrderSide::Sell, OrderType::GTC));
    assert!(!book.id_to_index.contains_key(&5));
    assert!(!book.id_to_index.contains_key(&4));
    assert_eq!(book.best_bid_index, None);
}

#[test]
fn fok_passes_over_own_orders() {
    let mut book = OrderBook::new(16);
    let _ = book.add_order(create_order(1, 2, 50, 10010, OrderSide::Sell, OrderType::GTC));
    let _ = book.add_order(create_order(2, 1, 10, 10010, OrderSide::Sell, OrderType::GTC));
    let _ = book.add_order(create_order(3, 2, 50, 10020, OrderSide::Sell, OrderType::GTC));
    let trades = book.add_order(create_order(4, 1, 100, 10020, OrderSide::Buy, OrderType::FOK)).unwrap();
    assert_eq!(trades.len(), 2);
    assert_eq!((trades[0].maker_order_id, trades[0].quantity), (1, 50));
    assert_eq!((trades[1].maker_order_id, trades[1].quantity), (3, 50));
    assert_eq!(book.asks.totals[10], 10);
    assert_eq!(book.asks.totals[20], 0);
    assert_eq!(book.best_ask_index, Some(10));
}

#[test]
fn fok_behind_own_order_fills_in_full() {
    let mut book = OrderBook::new(16);
    let _ = book.add_order(create_order(1, 1, 50, 10010, OrderSide::Sell, OrderType::GTC));
    let _ = book.add_order(create_order(2, 2, 30, 10010, OrderSide::Sell, OrderType::GTC));
    let _ = book.add_order(create_order(3, 2, 50, 10020, OrderSide::Sell, OrderType::GTC));
    let trades = book.add_order(create_order(4, 1, 60, 10020, OrderSide::Buy, OrderType::FOK)).unwrap();
    let traded: u64 = trades.iter().map(|t| t.quantity).sum();
    assert_eq!(traded, 60);
    assert_eq!(book.asks.totals[10], 50);
    assert_eq!(book.asks.totals[20], 20);
    assert!(!book.id_to_index.contains_key(&4));
}

#[test]
fn gtc_still_stops_at_own_orders() {
    let mut book = OrderBook::new(16);
    let _ = book.add_order(create_order(1, 1, 50, 10010, OrderSide::Sell, OrderType::GTC));
    let _ = book.add_order(create_order(2, 2, 50, 10020, OrderSide::Sell, OrderType::GTC));
    let trades = book.add_order(create_order(3, 1, 30, 10020, OrderSide::Buy, OrderType::GTC)).unwrap();
    assert!(trades.is_empty());
    assert_eq!(book.bids.totals[20], 30);
    assert_eq!(book.asks.totals[20], 50);
}

#[test]
fn room_counts_only_what_rests() {
    let mut book = OrderBook::new(16);
    let _ = book.add_order(create_order(1, 1, 100, 10005, OrderSide::Sell, OrderType::GTC));
    let _ = book.add_order(create_order(2, 1, u64::MAX - 5, 10010, OrderSide::Buy, OrderType::GTC));
    assert_eq!(book.bids.totals[10], u64::MAX - 5);
    assert!(book.has_room_for(&create_order(3, 2, 105, 10010, OrderSide::Buy, OrderType::GTC)));
    assert!(!book.has_room_for(&create_order(3, 2, 106, 10010, OrderSide::Buy, OrderType::GTC)));
    let trades = book.add_order(create_order(3, 2, 100, 10010, OrderSide::Buy, OrderType::GTC)).unwrap();
    assert_eq!(trades.len(), 1);
    assert_eq!(book.bids.totals[10], u64::MAX - 5);
}

#[test]
fn id_maps_follow_the_book() {
    let mut book = OrderBook::new(16);
    assert!(book.id_to_index.is_empty() && book.id_to_price.is_empty());
    let _ = book.add_order(create_order(1, 1, 5, 10010, OrderSide::Sell, OrderType::GTC));
    let slot = book.id_to_index[&1];
    assert_eq!(book.id_to_price[&1], Price(10010));
    assert_eq!(book.cancel_order(1), Ok(()));
    assert!(!book.id_to_index.contains_key(&1) && !book.id_to_price.contains_key(&1));
    assert_eq!(book.pool.free_list.last(), Some(&slot));
    let before = (book.pool.free_list.clone(), book.asks.totals);
    assert_eq!(book.cancel_order(1), Err(OrderError::OrderNotFound));
    assert_eq!((book.pool.free_list.clone(), book.asks.totals), before);
    let _ = book.add_order(create_order(2, 1, 5, 10010, OrderSide::Sell, OrderType::GTC));
    assert_eq!(book.modify_order(2, Price(10030), 7), Ok(()));
    assert!(book.id_to_index.contains_key(&2));
    assert_eq!(book.id_to_price[&2], Price(10030));
}
