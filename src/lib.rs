//! A single-instrument limit order book driven by a replayable log of
//! transaction records, with price-time priority matching and top-of-book
//! change reporting.

pub mod types;
pub mod parse;
pub mod order;
pub mod ledger;
pub mod book;
pub mod render;
pub mod laws;
pub mod config;
