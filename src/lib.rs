//! A central limit order book with price-time priority matching.
//!
//! Two books live here. `orderbook` with `matching_engine` is a plain limit
//! book whose price levels keep their orders in a `LinkedHashMap`, matched by
//! `execute_limit`. `order_book` is the full engine: four ladders of order
//! trackers, stop orders, all-or-none and immediate-or-cancel conditions, and
//! a queue of callback records for the listeners.
pub mod types;
pub mod order;
pub mod orderbook;
pub mod matching_engine;
pub mod comparable_price;
pub mod order_tracker;
pub mod callback;
pub mod order_book;
