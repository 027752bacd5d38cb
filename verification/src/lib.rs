//! A limit-order matching engine for tokenized instruments.
//!
//! The crate holds the price-time-priority order book, the bounded ingestion
//! queue with its matching worker, the settlement coordinator and the decision
//! logic of the ledger event pipeline. Its functions are verified against
//! contracts stated over mathematical models of the data. What is taken on
//! trust is kept small and in the open: the calls into the queue crate in
//! [`queue`], and one call that writes a number in decimal in [`chain::order`].

pub mod chain;
pub mod config;
pub mod manager;
pub mod matching_engine;
pub mod mdata;
pub mod order_manager;
pub mod orderbook;
pub mod queue;
pub mod server;
