use kline_feed::entities::PRICE_SCALE;
use kline_feed::entities::clean_symbol;
use kline_feed::textnum::contains_str;
use kline_feed::textnum::ends_with_str;
use kline_feed::textnum::parse_fixed;
use kline_feed::textnum::parse_i32;
use kline_feed::textnum::parse_i64;
use kline_feed::textnum::parse_u64;
use kline_feed::textnum::strip_suffix_all;

#[test]
fn parse_u64_plain_digits() {
    assert_eq!(parse_u64("0"), Some(0));
    assert_eq!(parse_u64("1234567890"), Some(1_234_567_890));
    assert_eq!(parse_u64("18446744073709551615"), Some(u64::MAX));
}

#[test]
fn parse_u64_rejects_junk_and_overflow() {
    assert_eq!(parse_u64(""), None);
    assert_eq!(parse_u64("12a"), None);
    assert_eq!(parse_u64("-1"), None);
    assert_eq!(parse_u64("18446744073709551616"), None);
}

#[test]
fn parse_i64_handles_signs() {
    assert_eq!(parse_i64("42"), Some(42));
    assert_eq!(parse_i64("-42"), Some(-42));
    assert_eq!(parse_i64("-9223372036854775808"), Some(i64::MIN));
    assert_eq!(parse_i64("9223372036854775808"), None);
}

#[test]
fn parse_i32_bounds() {
    assert_eq!(parse_i32("2147483647"), Some(i32::MAX));
    assert_eq!(parse_i32("-2147483648"), Some(i32::MIN));
    assert_eq!(parse_i32("2147483648"), None);
    assert_eq!(parse_i32("x"), None);
}

#[test]
fn parse_fixed_decimal_forms() {
    assert_eq!(parse_fixed("123.45"), Some(123_45_000_000));
    assert_eq!(parse_fixed("5"), Some(5 * PRICE_SCALE));
    assert_eq!(parse_fixed("5."), Some(5 * PRICE_SCALE));
    assert_eq!(parse_fixed(".5"), Some(PRICE_SCALE / 2));
    assert_eq!(parse_fixed("0.00000001"), Some(1));
    assert_eq!(parse_fixed("-2"), Some(-2 * PRICE_SCALE));
}

#[test]
fn parse_fixed_truncates_past_eight_places() {
    assert_eq!(parse_fixed("12.3456789012"), Some(12_34_567_890));
}

#[test]
fn parse_fixed_rejects_junk() {
    assert_eq!(parse_fixed(""), None);
    assert_eq!(parse_fixed("."), None);
    assert_eq!(parse_fixed("-"), None);
    assert_eq!(parse_fixed("1e5"), None);
    assert_eq!(parse_fixed("1.2.3"), None);
    assert_eq!(parse_fixed("99999999999999999999"), None);
}

#[test]
fn clean_symbol_uppercases_and_strips() {
    assert_eq!(clean_symbol("btc-usdt"), "BTC");
    assert_eq!(clean_symbol("ETHUSDT"), "ETH");
    assert_eq!(clean_symbol("SOL-USDT-SWAP"), "SOL");
    assert_eq!(clean_symbol("doge-perp"), "DOGE");
    // "USD" stands before "BUSD" in the suffix list, so it matches first
    assert_eq!(clean_symbol("adabusd"), "ADAB");
    assert_eq!(clean_symbol("XMR"), "XMR");
}

#[test]
fn clean_symbol_strips_repeated_suffixes() {
    // trim_end_matches semantics: every trailing copy goes
    assert_eq!(clean_symbol("XUSDTUSDT"), "X");
}

#[test]
fn suffix_and_substring_helpers() {
    assert!(ends_with_str("BTCUSDT", "USDT"));
    assert!(!ends_with_str("BTC", "USDT"));
    assert!(contains_str("connection reset by peer", "reset"));
    assert!(!contains_str("ok", "reset"));
    assert_eq!(strip_suffix_all("AAXX", "X"), "AA");
    assert_eq!(strip_suffix_all("AA", "X"), "AA");
}

#[test]
fn clock_reads_a_modern_time() {
    let now = kline_feed::clock::current_millis();
    // after 2020-01-01 and before year 3000
    assert!(now > 1_577_836_800_000);
    assert!(now < 32_503_680_000_000);
}
