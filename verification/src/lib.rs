pub mod error;
pub mod order;
pub mod price;
pub mod trade;
pub mod order_pool;
pub mod order_queue;
pub mod price_level;
pub mod matching;
pub mod fx_map;
pub mod order_book;
pub mod exchange;
pub mod command;
pub mod response;
pub mod engine;
pub mod protocol;
pub mod codec;
pub mod session;
pub mod journal;
pub mod reactor;
pub mod laws;
pub mod market_data;
pub mod rest;
