use kline_feed::entities::PRICE_SCALE;
use kline_feed::exchanges::Exchange;
use kline_feed::exchanges::TickerInfo;
use kline_feed::exchanges::parse_exchange;
use kline_feed::scheduler::Scheduler;
use kline_feed::scheduler::effective_refresh_secs;
use kline_feed::scheduler::filter_batch;
use kline_feed::scheduler::get_flush_intervals;

fn syms(v: &[&str]) -> Vec<String> {
    v.iter().map(|s| s.to_string()).collect()
}

fn ticker(symbol: &str, price: &str, vol: Option<&str>) -> TickerInfo {
    TickerInfo {
        symbol: symbol.to_string(),
        last_price: price.to_string(),
        vol_24h: vol.map(|s| s.to_string()),
    }
}

#[test]
fn missing_symbols_are_blacklisted_and_skipped_thereafter() {
    let mut s = Scheduler::new(syms(&["BTCUSDT"]), 50, Vec::new(), false);
    let flush = get_flush_intervals();

    // first cycle: the exchange returns no ticker for the symbol
    let batch = s.begin_cycle();
    assert_eq!(batch, syms(&["BTCUSDT"]));
    let r1 = s.complete_cycle(&batch, &Vec::new(), &flush, 120_000);
    assert_eq!(r1.new_blacklist_entries, syms(&["BTCUSDT"]));
    assert!(r1.candles.is_empty());

    // every later cycle: the symbol is excluded before any fetch
    let batch2 = s.begin_cycle();
    assert!(batch2.is_empty());
    let batch3 = s.begin_cycle();
    assert!(batch3.is_empty());
}

#[test]
fn blacklisting_happens_once_and_is_case_insensitive() {
    let mut s = Scheduler::new(syms(&["btcusdt"]), 50, syms(&["BTCUSDT"]), false);
    let batch = s.begin_cycle();
    assert!(batch.is_empty());
}

#[test]
fn matched_tickers_feed_the_aggregator_and_flush() {
    let mut s = Scheduler::new(syms(&["BTCUSDT", "ETHUSDT"]), 50, Vec::new(), false);
    let flush = get_flush_intervals();
    let batch = s.begin_cycle();
    assert_eq!(batch, syms(&["BTCUSDT", "ETHUSDT"]));

    let tickers = vec![
        ticker("BTCUSDT", "5.5", Some("2")),
        ticker("ETHUSDT", "not-a-price", Some("2")),
        ticker("XRPUSDT", "1.0", Some("1")),
    ];
    // ticks land in the window [60s, 120s); extraction runs at 120s
    let r = s.complete_cycle(&batch, &tickers, &flush, 119_000);
    // ETHUSDT was returned (so not blacklisted) but its price does not parse
    assert!(r.new_blacklist_entries.is_empty());
    assert!(r.candles.is_empty());

    let batch2 = s.begin_cycle();
    let r2 = s.complete_cycle(&batch2, &tickers, &flush, 120_000);
    assert_eq!(r2.candles.len(), 1);
    let c = &r2.candles[0];
    assert_eq!(c.symbol, "BTCUSDT");
    assert_eq!(c.open, 5 * PRICE_SCALE + PRICE_SCALE / 2);
    assert_eq!(c.trade_count, 1);
}

#[test]
fn unmatched_tickers_are_ignored() {
    let mut s = Scheduler::new(syms(&["BTCUSDT"]), 50, Vec::new(), false);
    let flush = get_flush_intervals();
    let batch = s.begin_cycle();
    let tickers = vec![ticker("XRPUSDT", "1.0", Some("1"))];
    let r = s.complete_cycle(&batch, &tickers, &flush, 120_000);
    // BTCUSDT missing: blacklisted; XRPUSDT not in the batch: no tick stored
    assert_eq!(r.new_blacklist_entries, syms(&["BTCUSDT"]));
    assert!(r.candles.is_empty());
}

#[test]
fn batch_filter_is_case_insensitive() {
    let batch = syms(&["btcUSDT", "ethusdt"]);
    let blacklist = syms(&["BTCUSDT"]);
    assert_eq!(filter_batch(&batch, &blacklist), syms(&["ethusdt"]));
}

#[test]
fn refresh_floor_is_four_seconds() {
    assert_eq!(effective_refresh_secs(1), 4);
    assert_eq!(effective_refresh_secs(-10), 4);
    assert_eq!(effective_refresh_secs(4), 4);
    assert_eq!(effective_refresh_secs(30), 30);
}

#[test]
fn flush_intervals_are_the_smallest_configured() {
    assert_eq!(get_flush_intervals(), syms(&["1m"]));
}

#[test]
fn exchange_names_resolve_case_insensitively() {
    assert_eq!(parse_exchange("BINANCE"), Some(Exchange::Binance));
    assert_eq!(parse_exchange("binance"), Some(Exchange::Binance));
    assert_eq!(parse_exchange("Okx"), Some(Exchange::Okx));
    assert_eq!(parse_exchange("bitget"), Some(Exchange::Bitget));
    assert_eq!(parse_exchange("ByBit"), Some(Exchange::Bybit));
    assert_eq!(parse_exchange("kraken"), None);
}

#[test]
fn tickers_without_volume_are_dropped_singly() {
    let mut s = Scheduler::new(syms(&["BTCUSDT", "ETHUSDT"]), 50, Vec::new(), false);
    let flush = get_flush_intervals();
    let batch = s.begin_cycle();
    let tickers = vec![
        ticker("BTCUSDT", "5", None),
        ticker("ETHUSDT", "7", Some("1")),
    ];
    s.complete_cycle(&batch, &tickers, &flush, 90_000);
    let batch2 = s.begin_cycle();
    let r = s.complete_cycle(&batch2, &tickers, &flush, 120_000);
    // only the ticker with a parseable volume produced a tick
    assert_eq!(r.candles.len(), 1);
    assert_eq!(r.candles[0].symbol, "ETHUSDT");
}

#[test]
fn an_empty_batch_blacklists_nothing() {
    let mut s = Scheduler::new(Vec::new(), 50, Vec::new(), false);
    let flush = get_flush_intervals();
    let batch = s.begin_cycle();
    assert!(batch.is_empty());
    let r = s.complete_cycle(&batch, &Vec::new(), &flush, 120_000);
    assert!(r.new_blacklist_entries.is_empty());
    assert!(r.candles.is_empty());
}
