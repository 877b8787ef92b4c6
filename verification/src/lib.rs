//! Core of a small trading venue: order and status vocabulary, per-instrument
//! order books with price-time-priority matching, an engine that routes
//! commands to books and reports top-of-book changes, and the byte codecs for
//! the command and market-data wire formats.

pub mod types;
pub mod order_book;
pub mod matching_engine;
pub mod gateway;
pub mod market_data;
