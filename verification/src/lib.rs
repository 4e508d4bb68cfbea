//! Verified core of a tick-based multi-agent market simulator: configuration
//! vocabulary, a price-time priority limit order book, position bookkeeping,
//! the engine's tick clock with its circuit breaker, and the integer parts of
//! regime statistics.

pub mod config;
pub mod engine;
pub mod ids;
pub mod text;
pub mod market;
pub mod portfolio;
pub mod regime;
pub mod types;
