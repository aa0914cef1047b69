//! A streaming OHLC ("kline") aggregation pipeline for exchange ticker polling.
//!
//! The library holds the verified core of the pipeline: the symbol rotator
//! that partitions the symbol universe into batches, the tick-buffering
//! aggregation engine that extracts exactly-completed candles, the rate-budget
//! tracker and retry policy of the resilient fetch client, and the pure
//! decision logic of the polling scheduler. Network, storage and clock edges
//! live outside and hand the library plain values.

pub mod aggregator;
pub mod clock;
pub mod config;
pub mod entities;
pub mod exchanges;
pub mod kline_sql;
pub mod rate_limit;
pub mod retry;
pub mod rotator;
pub mod scheduler;
pub mod textnum;
