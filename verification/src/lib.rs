//! A verified matching-engine core: a price-time-priority limit order
//! book, the deterministic matching algorithm over it, the per-market
//! engine facade, and a checksummed, length-prefixed write-ahead log from
//! which the book provably rebuilds.

pub mod engine;
pub mod matching;
pub mod orderbook;
pub mod snapshot;
pub mod types;
pub mod wal;
