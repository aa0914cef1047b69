use kline_feed::aggregator::KlineAggregator;
use kline_feed::entities::PRICE_SCALE;

const SC: i64 = PRICE_SCALE;
const MIN_MS: i64 = 60_000;

fn one_minute() -> Vec<String> {
    vec!["1m".to_string()]
}

#[test]
fn windowing_builds_the_documented_candle() {
    let mut agg = KlineAggregator::new(false);
    let t0: i64 = MIN_MS; // start of the completed window [60s, 120s)
    agg.add_price("BTCUSDT", 5 * SC, 1 * SC, t0 + 10_000);
    agg.add_price("BTCUSDT", 8 * SC, 2 * SC, t0 + 30_000);
    agg.add_price("BTCUSDT", 3 * SC, 3 * SC, t0 + 50_000);
    let candles = agg.extract_ohlc(&one_minute(), t0 + MIN_MS);
    assert_eq!(candles.len(), 1);
    let c = &candles[0];
    assert_eq!(c.symbol, "BTCUSDT");
    assert_eq!(c.interval, "1m");
    assert_eq!(c.open, 5 * SC);
    assert_eq!(c.close, 3 * SC);
    assert_eq!(c.high, 8 * SC);
    assert_eq!(c.low, 3 * SC);
    assert_eq!(c.volume, (6 * SC) as i128);
    assert_eq!(c.trade_count, 3);
    assert_eq!(c.open_time_ms, t0);
}

#[test]
fn post_extraction_the_window_is_empty() {
    let mut agg = KlineAggregator::new(false);
    let t0: i64 = MIN_MS;
    agg.add_price("BTCUSDT", 5 * SC, 1, t0 + 10_000);
    agg.add_price("BTCUSDT", 8 * SC, 2, t0 + 30_000);
    let first = agg.extract_ohlc(&one_minute(), t0 + MIN_MS);
    assert_eq!(first.len(), 1);
    let second = agg.extract_ohlc(&one_minute(), t0 + MIN_MS);
    assert!(second.is_empty());
}

#[test]
fn same_second_observations_store_one_tick() {
    let mut agg = KlineAggregator::new(false);
    let t0: i64 = MIN_MS;
    // both observations fall into the 70th second's bucket
    agg.add_price("ETHUSDT", 5 * SC, 1, t0 + 10_123);
    agg.add_price("ETHUSDT", 9 * SC, 7, t0 + 10_987);
    let candles = agg.extract_ohlc(&one_minute(), t0 + MIN_MS);
    assert_eq!(candles.len(), 1);
    assert_eq!(candles[0].trade_count, 1);
    assert_eq!(candles[0].open, 5 * SC);
    assert_eq!(candles[0].close, 5 * SC);
    assert_eq!(candles[0].volume, 1i128);
}

#[test]
fn retention_drops_old_ticks_even_when_interval_not_requested() {
    let mut agg = KlineAggregator::new(false);
    agg.add_price("BTCUSDT", 5 * SC, 1, 70_000);
    // cleanup runs for every symbol even with no interval requested;
    // 70_000 < 251_000 - 3 * 60_000
    let none: Vec<String> = Vec::new();
    let candles = agg.extract_ohlc(&none, 251_000);
    assert!(candles.is_empty());
    // had the tick survived, this extraction would have emitted a candle
    let later = agg.extract_ohlc(&one_minute(), 120_000);
    assert!(later.is_empty());
}

#[test]
fn ticks_in_open_window_are_kept_for_later() {
    let mut agg = KlineAggregator::new(false);
    let t0: i64 = MIN_MS;
    // observation inside the window that is not yet complete at `now`
    agg.add_price("BTCUSDT", 5 * SC, 1, t0 + 10_000);
    let early = agg.extract_ohlc(&one_minute(), t0 + 30_000);
    assert!(early.is_empty());
    let later = agg.extract_ohlc(&one_minute(), t0 + MIN_MS);
    assert_eq!(later.len(), 1);
}

#[test]
fn stragglers_before_the_window_are_evicted_with_it() {
    let mut agg = KlineAggregator::new(false);
    let t0: i64 = 10 * MIN_MS;
    // a tick one window earlier, never extracted
    agg.add_price("BTCUSDT", 2 * SC, 1, t0 - MIN_MS + 5_000);
    agg.add_price("BTCUSDT", 5 * SC, 1, t0 + 10_000);
    let candles = agg.extract_ohlc(&one_minute(), t0 + MIN_MS);
    // only the completed window's tick forms the candle
    assert_eq!(candles.len(), 1);
    assert_eq!(candles[0].trade_count, 1);
    assert_eq!(candles[0].open, 5 * SC);
    // and the straggler went with it
    let again = agg.extract_ohlc(&one_minute(), t0);
    assert!(again.is_empty());
}

#[test]
fn unknown_interval_requests_are_ignored() {
    let mut agg = KlineAggregator::new(false);
    agg.add_price("BTCUSDT", 5 * SC, 1, 70_000);
    let candles = agg.extract_ohlc(&vec!["5m".to_string()], 120_000);
    assert!(candles.is_empty());
}

#[test]
fn symbols_aggregate_independently() {
    let mut agg = KlineAggregator::new(false);
    let t0: i64 = MIN_MS;
    agg.add_price("BTCUSDT", 5 * SC, 1, t0 + 10_000);
    agg.add_price("ETHUSDT", 7 * SC, 2, t0 + 20_000);
    let candles = agg.extract_ohlc(&one_minute(), t0 + MIN_MS);
    assert_eq!(candles.len(), 2);
    assert_eq!(candles[0].symbol, "BTCUSDT");
    assert_eq!(candles[1].symbol, "ETHUSDT");
    assert_eq!(candles[0].trade_count, 1);
    assert_eq!(candles[1].trade_count, 1);
}
