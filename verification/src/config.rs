//! The configuration surface of the pipeline, as plain data.
//!
//! Loading and persisting these settings (YAML files, environment) happens
//! outside the library; the structs here carry the values the verified
//! logic reads.

use vstd::prelude::*;

verus! {

/// Tuning knobs of the aggregation side of the poller.
#[derive(Clone, Debug)]
pub struct AggregatorSettings {
    pub enable_jitter: bool,
    pub jitter_max_millis: i32,
    pub enable_batch_stats: bool,
    pub persist_raw_ticks: PersistRawTicks,
}

/// Whether and where raw ticks are additionally persisted.
#[derive(Clone, Debug)]
pub struct PersistRawTicks {
    pub enabled: bool,
    pub output: String,
}

/// Optional streaming fan-out of observations.
#[derive(Clone, Debug)]
pub struct StreamingConfig {
    pub enabled: bool,
    pub provider: String,
    pub redis: RedisConfig,
    pub kafka: KafkaConfig,
}

/// Connection settings of a stream target keyed by address and stream.
#[derive(Clone, Debug)]
pub struct RedisConfig {
    pub address: String,
    pub stream: String,
    pub password: Option<String>,
    pub db: Option<i32>,
}

/// Connection settings of a brokered stream target.
#[derive(Clone, Debug)]
pub struct KafkaConfig {
    pub brokers: Vec<String>,
    pub topic: String,
}

/// The relational persistence backend's provider and connection string.
#[derive(Clone, Debug)]
pub struct DatabaseConfig {
    pub provider: String,
    pub connection_string: String,
}

/// Everything the process reads at startup: which exchange to poll, how
/// often, which symbols, the initial blacklist, and the backends.
#[derive(Clone, Debug)]
pub struct AppSettings {
    pub exchange: String,
    pub instance: String,
    pub refresh_seconds: i32,
    pub symbols: Vec<String>,
    pub blacklisted_symbols: Vec<String>,
    pub aggregator: AggregatorSettings,
    pub streaming: StreamingConfig,
    pub debug: bool,
    pub database: DatabaseConfig,
}

} // verus!
