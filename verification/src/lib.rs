//! A single-instrument limit order book with continuous price/time-priority
//! matching.
//!
//! The book accepts incoming limit orders, matches them against resting
//! opposite-side liquidity, returns the sequence of fills produced, and keeps
//! the residual book. Orders can be cancelled by id, and the resting state of
//! each side can be read out for display.
//!
//! Prices are exact integer tick counts (no floating point); a caller that
//! works in decimal prices converts them to ticks at a fixed scale before
//! submitting.

pub mod book;
pub mod order;

pub use book::OrderBook;
pub use order::Fill;
pub use order::Order;
pub use order::Side;
pub use order::SubmitError;
