use kline_feed::exchanges::BinanceTickerInfo;
use kline_feed::exchanges::BitgetTickerInfo;
use kline_feed::exchanges::BybitTickerInfo;
use kline_feed::exchanges::OKXTickerInfo;
use kline_feed::exchanges::bybit_response_ok;
use kline_feed::exchanges::map_binance_tickers;
use kline_feed::exchanges::map_bitget_tickers;
use kline_feed::exchanges::map_bybit_tickers;
use kline_feed::exchanges::map_okx_tickers;
use kline_feed::exchanges::okx_response_ok;

#[test]
fn binance_rows_map_field_for_field() {
    let rows = vec![BinanceTickerInfo {
        symbol: "BTCUSDT".to_string(),
        last_price: "5.5".to_string(),
        volume: "100".to_string(),
    }];
    let out = map_binance_tickers(&rows);
    assert_eq!(out.len(), 1);
    assert_eq!(out[0].symbol, "BTCUSDT");
    assert_eq!(out[0].last_price, "5.5");
    assert_eq!(out[0].vol_24h.as_deref(), Some("100"));
}

#[test]
fn bitget_rows_carry_the_base_volume() {
    let rows = vec![BitgetTickerInfo {
        symbol: "ETHUSDT".to_string(),
        last_price: "7".to_string(),
        base_volume: "42".to_string(),
    }];
    let out = map_bitget_tickers(&rows);
    assert_eq!(out[0].vol_24h.as_deref(), Some("42"));
}

#[test]
fn bybit_rows_carry_the_24h_volume() {
    let rows = vec![BybitTickerInfo {
        symbol: "XRPUSDT".to_string(),
        last_price: "1".to_string(),
        volume_24h: "9".to_string(),
    }];
    let out = map_bybit_tickers(&rows);
    assert_eq!(out[0].symbol, "XRPUSDT");
    assert_eq!(out[0].vol_24h.as_deref(), Some("9"));
}

#[test]
fn okx_instrument_ids_become_symbols() {
    let rows = vec![OKXTickerInfo {
        instrument_id: "BTC-USDT-SWAP".to_string(),
        last_price: "5".to_string(),
        volume_24h: "3".to_string(),
    }];
    let out = map_okx_tickers(&rows);
    assert_eq!(out[0].symbol, "BTC-USDT-SWAP");
}

#[test]
fn envelope_codes_gate_success() {
    assert!(bybit_response_ok(0));
    assert!(!bybit_response_ok(10001));
    assert!(okx_response_ok("0"));
    assert!(!okx_response_ok("51000"));
}
