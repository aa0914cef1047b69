//! The output record of the aggregation engine: one OHLC candle per symbol,
//! interval and window, ready to be handed to a persistence sink.
//!
//! Prices and volumes are fixed-point decimals: an `i64` (or `i128` for the
//! summed volume) holding the value scaled by `PRICE_SCALE`. Timestamps are
//! milliseconds since the Unix epoch.

use vstd::prelude::*;

use crate::textnum::spec_ends_with;
use crate::textnum::spec_strip_all;
use crate::textnum::upper_of;
use crate::textnum::ends_with_str;
use crate::textnum::strip_suffix_all;
use crate::textnum::to_upper;

verus! {

/// Fixed-point scale of prices and volumes: 8 decimal places.
pub const PRICE_SCALE: i64 = 100_000_000;

/// Number of decimal places carried by the fixed-point representation.
pub const PRICE_DECIMALS: u32 = 8;

/// The mathematical value of a candle record: character sequences for the
/// strings, unbounded integers for the numeric fields.
pub struct CandleView {
    pub symbol: Seq<char>,
    pub interval: Seq<char>,
    pub open: i64,
    pub high: i64,
    pub low: i64,
    pub close: i64,
    pub open_time_ms: i64,
    pub volume: int,
    pub trade_count: int,
}

/// One aggregated OHLC candle for a symbol and interval.
///
/// `open` is the price of the earliest tick in the window, `close` the price
/// of the latest, `high`/`low` the extrema, `volume` the sum of the tick
/// volumes and `trade_count` the number of ticks. `open_time_ms` is the
/// wall-clock-aligned start of the window.
#[derive(Clone, Debug)]
pub struct SymbolKlineData {
    pub symbol: String,
    pub interval: String,
    pub open: i64,
    pub high: i64,
    pub low: i64,
    pub close: i64,
    pub open_time_ms: i64,
    pub volume: i128,
    pub trade_count: i64,
}

impl View for SymbolKlineData {
    type V = CandleView;

    open spec fn view(&self) -> CandleView {
        CandleView {
            symbol: self.symbol@,
            interval: self.interval@,
            open: self.open,
            high: self.high,
            low: self.low,
            close: self.close,
            open_time_ms: self.open_time_ms,
            volume: self.volume as int,
            trade_count: self.trade_count as int,
        }
    }
}

/// The cleaned form of an uppercased symbol: the first matching derivative
/// suffix is stripped (repeatedly, as `str::trim_end_matches` does); when
/// none matches, the first matching quote-asset suffix is stripped instead.
pub open spec fn spec_clean(up: Seq<char>) -> Seq<char> {
    if spec_ends_with(up, "-USDT-SWAP"@) {
        spec_strip_all(up, "-USDT-SWAP"@)
    } else if spec_ends_with(up, "-USDT"@) {
        spec_strip_all(up, "-USDT"@)
    } else if spec_ends_with(up, "-USD-SWAP"@) {
        spec_strip_all(up, "-USD-SWAP"@)
    } else if spec_ends_with(up, "-USD"@) {
        spec_strip_all(up, "-USD"@)
    } else if spec_ends_with(up, "-PERP"@) {
        spec_strip_all(up, "-PERP"@)
    } else if spec_ends_with(up, "-FUTURE"@) {
        spec_strip_all(up, "-FUTURE"@)
    } else if spec_ends_with(up, "-SWAP"@) {
        spec_strip_all(up, "-SWAP"@)
    } else if spec_ends_with(up, "USDT"@) {
        spec_strip_all(up, "USDT"@)
    } else if spec_ends_with(up, "USD"@) {
        spec_strip_all(up, "USD"@)
    } else if spec_ends_with(up, "BUSD"@) {
        spec_strip_all(up, "BUSD"@)
    } else if spec_ends_with(up, "USDC"@) {
        spec_strip_all(up, "USDC"@)
    } else if spec_ends_with(up, "TUSD"@) {
        spec_strip_all(up, "TUSD"@)
    } else if spec_ends_with(up, "DAI"@) {
        spec_strip_all(up, "DAI"@)
    } else if spec_ends_with(up, "USDT_UMCBL"@) {
        spec_strip_all(up, "USDT_UMCBL"@)
    } else {
        up
    }
}

/// Normalize a venue symbol to its base asset: uppercase it, then strip the
/// first matching derivative or quote-asset suffix.
pub fn clean_symbol(raw: &str) -> (r: String)
    ensures
        r@ == spec_clean(upper_of(raw@)),
{
    let up = to_upper(raw);
    if ends_with_str(up.as_str(), "-USDT-SWAP") {
        strip_suffix_all(up.as_str(), "-USDT-SWAP")
    } else if ends_with_str(up.as_str(), "-USDT") {
        strip_suffix_all(up.as_str(), "-USDT")
    } else if ends_with_str(up.as_str(), "-USD-SWAP") {
        strip_suffix_all(up.as_str(), "-USD-SWAP")
    } else if ends_with_str(up.as_str(), "-USD") {
        strip_suffix_all(up.as_str(), "-USD")
    } else if ends_with_str(up.as_str(), "-PERP") {
        strip_suffix_all(up.as_str(), "-PERP")
    } else if ends_with_str(up.as_str(), "-FUTURE") {
        strip_suffix_all(up.as_str(), "-FUTURE")
    } else if ends_with_str(up.as_str(), "-SWAP") {
        strip_suffix_all(up.as_str(), "-SWAP")
    } else if ends_with_str(up.as_str(), "USDT") {
        strip_suffix_all(up.as_str(), "USDT")
    } else if ends_with_str(up.as_str(), "USD") {
        strip_suffix_all(up.as_str(), "USD")
    } else if ends_with_str(up.as_str(), "BUSD") {
        strip_suffix_all(up.as_str(), "BUSD")
    } else if ends_with_str(up.as_str(), "USDC") {
        strip_suffix_all(up.as_str(), "USDC")
    } else if ends_with_str(up.as_str(), "TUSD") {
        strip_suffix_all(up.as_str(), "TUSD")
    } else if ends_with_str(up.as_str(), "DAI") {
        strip_suffix_all(up.as_str(), "DAI")
    } else if ends_with_str(up.as_str(), "USDT_UMCBL") {
        strip_suffix_all(up.as_str(), "USDT_UMCBL")
    } else {
        up
    }
}

} // verus!
