use kline_feed::entities::PRICE_SCALE;
use kline_feed::entities::SymbolKlineData;
use kline_feed::kline_sql::KlineSqlError;
use kline_feed::kline_sql::build_insert_sql;
use kline_feed::kline_sql::escape_sql;
use kline_feed::kline_sql::prepare_rows;
use kline_feed::kline_sql::render_fixed;
use kline_feed::kline_sql::render_i64;
use kline_feed::kline_sql::render_u64;

fn row(symbol: &str, interval: &str) -> SymbolKlineData {
    SymbolKlineData {
        symbol: symbol.to_string(),
        interval: interval.to_string(),
        open: PRICE_SCALE + PRICE_SCALE / 2,
        high: 2 * PRICE_SCALE,
        low: PRICE_SCALE,
        close: PRICE_SCALE + 3 * (PRICE_SCALE / 4),
        open_time_ms: 60_000,
        volume: (6 * PRICE_SCALE) as i128,
        trade_count: 3,
    }
}

#[test]
fn numbers_render_in_plain_decimal() {
    assert_eq!(render_u64(0), "0");
    assert_eq!(render_u64(1234567890), "1234567890");
    assert_eq!(render_i64(-42), "-42");
    assert_eq!(render_i64(i64::MIN), "-9223372036854775808");
}

#[test]
fn fixed_point_renders_with_eight_places() {
    assert_eq!(render_fixed((PRICE_SCALE + PRICE_SCALE / 2) as i128), "1.50000000");
    assert_eq!(render_fixed(0), "0.00000000");
    assert_eq!(render_fixed(1), "0.00000001");
    assert_eq!(render_fixed(-(PRICE_SCALE as i128) / 4), "-0.25000000");
    assert_eq!(render_fixed((123 * PRICE_SCALE + 45_000_000) as i128), "123.45000000");
}

#[test]
fn quotes_are_doubled() {
    assert_eq!(escape_sql("O'NE"), "O''NE");
    assert_eq!(escape_sql("''"), "''''");
    assert_eq!(escape_sql("plain"), "plain");
}

#[test]
fn prepare_rows_rejects_empty_fields() {
    assert!(matches!(prepare_rows(&vec![row("", "1m")]), Err(KlineSqlError::EmptyField)));
    assert!(matches!(prepare_rows(&vec![row("BTCUSDT", "")]), Err(KlineSqlError::EmptyField)));
}

#[test]
fn prepare_rows_cleans_symbols() {
    let out = prepare_rows(&vec![row("btc-usdt", "1m")]).unwrap();
    assert_eq!(out.len(), 1);
    assert_eq!(out[0].symbol, "BTC");
    assert_eq!(out[0].interval, "1m");
    assert_eq!(out[0].open, PRICE_SCALE + PRICE_SCALE / 2);
}

#[test]
fn insert_statement_renders_the_whole_batch() {
    let sql = build_insert_sql(&vec![row("O'NE", "1m")]);
    assert_eq!(
        sql,
        "INSERT INTO kline_data (symbol, interval, open, high, low, close, volume, timestamp, \
         trade_count) VALUES ('O''NE','1m',1.50000000,2.00000000,1.00000000,1.75000000,\
         6.00000000,'1970-01-01 00:01:00',3)"
    );
}

#[test]
fn insert_statement_joins_rows_with_commas() {
    let sql = build_insert_sql(&vec![row("A", "1m"), row("B", "1m")]);
    assert!(sql.contains("),('B','1m',"));
    assert_eq!(sql.matches("('").count(), 2);
}
