//! Exchange-facing data shapes and the pure part of every adapter: the
//! venue-specific ticker records, their mapping into the one normalized
//! shape the scheduler consumes, response-code checks, and the dispatch
//! from a configured exchange name to a venue.
//!
//! Fetching bytes over HTTP and decoding them into the venue records stays
//! outside the library; only plain values come through here.

use vstd::prelude::*;

use crate::textnum::lower_of;
use crate::textnum::to_lower;

verus! {

/// The normalized ticker snapshot every venue adapter produces: a symbol,
/// its last trade price and its 24-hour volume, as the venue printed them.
#[derive(Clone, Debug)]
pub struct TickerInfo {
    pub symbol: String,
    pub last_price: String,
    pub vol_24h: Option<String>,
}

/// The mathematical value of a normalized ticker.
pub struct TickerView {
    pub symbol: Seq<char>,
    pub last_price: Seq<char>,
    pub vol_24h: Option<Seq<char>>,
}

impl View for TickerInfo {
    type V = TickerView;

    open spec fn view(&self) -> TickerView {
        TickerView {
            symbol: self.symbol@,
            last_price: self.last_price@,
            vol_24h: match self.vol_24h {
                Option::Some(ref s) => Option::Some(s@),
                Option::None => Option::None,
            },
        }
    }
}

/// A 24-hour ticker row as one venue reports it.
#[derive(Clone, Debug)]
pub struct BinanceTickerInfo {
    pub symbol: String,
    pub last_price: String,
    pub volume: String,
}

/// A ticker row of a venue that reports a base volume.
#[derive(Clone, Debug)]
pub struct BitgetTickerInfo {
    pub symbol: String,
    pub last_price: String,
    pub base_volume: String,
}

/// A ticker row of a venue that wraps its list in a result envelope.
#[derive(Clone, Debug)]
pub struct BybitTickerInfo {
    pub symbol: String,
    pub last_price: String,
    pub volume_24h: String,
}

/// A ticker row of a venue that names symbols as instrument ids.
#[derive(Clone, Debug)]
pub struct OKXTickerInfo {
    pub instrument_id: String,
    pub last_price: String,
    pub volume_24h: String,
}

/// The venues the pipeline can poll.
#[derive(Clone, Copy, PartialEq, Eq, Structural, Debug)]
pub enum Exchange {
    Binance,
    Okx,
    Bitget,
    Bybit,
}

/// The venue a configured exchange name selects, compared after Unicode
/// lowercasing.
pub open spec fn spec_parse_exchange(low: Seq<char>) -> Option<Exchange> {
    if low == "binance"@ {
        Option::Some(Exchange::Binance)
    } else if low == "okx"@ {
        Option::Some(Exchange::Okx)
    } else if low == "bitget"@ {
        Option::Some(Exchange::Bitget)
    } else if low == "bybit"@ {
        Option::Some(Exchange::Bybit)
    } else {
        Option::None
    }
}

/// Select the venue a configured exchange name means, case-insensitively;
/// an unsupported name selects none.
pub fn parse_exchange(name: &str) -> (r: Option<Exchange>)
    ensures
        r == spec_parse_exchange(lower_of(name@)),
{
    let low = to_lower(name);
    let k_binance: String = "binance".to_owned();
    let k_okx: String = "okx".to_owned();
    let k_bitget: String = "bitget".to_owned();
    let k_bybit: String = "bybit".to_owned();
    if low == k_binance {
        Some(Exchange::Binance)
    } else if low == k_okx {
        Some(Exchange::Okx)
    } else if low == k_bitget {
        Some(Exchange::Bitget)
    } else if low == k_bybit {
        Some(Exchange::Bybit)
    } else {
        None
    }
}

/// Whether an envelope return code of a venue reports success.
pub fn bybit_response_ok(ret_code: i32) -> (r: bool)
    ensures
        r == (ret_code == 0),
{
    ret_code == 0
}

/// Whether a string return code of a venue reports success.
pub fn okx_response_ok(code: &str) -> (r: bool)
    ensures
        r == (code@ == "0"@),
{
    let zero: String = "0".to_owned();
    let owned: String = code.to_owned();
    owned == zero
}

/// Normalize one venue's rows: field-for-field, keeping order.
pub fn map_binance_tickers(ts: &Vec<BinanceTickerInfo>) -> (r: Vec<TickerInfo>)
    ensures
        r@.len() == ts@.len(),
        forall|i: int|
            0 <= i < ts@.len() ==> (#[trigger] r@[i])@.symbol == ts@[i].symbol@ && r@[i]@.last_price
                == ts@[i].last_price@ && r@[i]@.vol_24h == Option::Some(ts@[i].volume@),
{
    let mut r: Vec<TickerInfo> = Vec::new();
    let mut i: usize = 0;
    while i < ts.len()
        invariant
            0 <= i <= ts@.len(),
            r@.len() == i,
            forall|k: int|
                0 <= k < i ==> (#[trigger] r@[k])@.symbol == ts@[k].symbol@ && r@[k]@.last_price
                    == ts@[k].last_price@ && r@[k]@.vol_24h == Option::Some(ts@[k].volume@),
        decreases ts@.len() - i,
    {
        let t = &ts[i];
        r.push(
            TickerInfo {
                symbol: t.symbol.clone(),
                last_price: t.last_price.clone(),
                vol_24h: Some(t.volume.clone()),
            },
        );
        i += 1;
    }
    r
}

/// Normalize one venue's rows: field-for-field, keeping order.
pub fn map_bitget_tickers(ts: &Vec<BitgetTickerInfo>) -> (r: Vec<TickerInfo>)
    ensures
        r@.len() == ts@.len(),
        forall|i: int|
            0 <= i < ts@.len() ==> (#[trigger] r@[i])@.symbol == ts@[i].symbol@ && r@[i]@.last_price
                == ts@[i].last_price@ && r@[i]@.vol_24h == Option::Some(ts@[i].base_volume@),
{
    let mut r: Vec<TickerInfo> = Vec::new();
    let mut i: usize = 0;
    while i < ts.len()
        invariant
            0 <= i <= ts@.len(),
            r@.len() == i,
            forall|k: int|
                0 <= k < i ==> (#[trigger] r@[k])@.symbol == ts@[k].symbol@ && r@[k]@.last_price
                    == ts@[k].last_price@ && r@[k]@.vol_24h == Option::Some(ts@[k].base_volume@),
        decreases ts@.len() - i,
    {
        let t = &ts[i];
        r.push(
            TickerInfo {
                symbol: t.symbol.clone(),
                last_price: t.last_price.clone(),
                vol_24h: Some(t.base_volume.clone()),
            },
        );
        i += 1;
    }
    r
}

/// Normalize one venue's rows: field-for-field, keeping order.
pub fn map_bybit_tickers(ts: &Vec<BybitTickerInfo>) -> (r: Vec<TickerInfo>)
    ensures
        r@.len() == ts@.len(),
        forall|i: int|
            0 <= i < ts@.len() ==> (#[trigger] r@[i])@.symbol == ts@[i].symbol@ && r@[i]@.last_price
                == ts@[i].last_price@ && r@[i]@.vol_24h == Option::Some(ts@[i].volume_24h@),
{
    let mut r: Vec<TickerInfo> = Vec::new();
    let mut i: usize = 0;
    while i < ts.len()
        invariant
            0 <= i <= ts@.len(),
            r@.len() == i,
            forall|k: int|
                0 <= k < i ==> (#[trigger] r@[k])@.symbol == ts@[k].symbol@ && r@[k]@.last_price
                    == ts@[k].last_price@ && r@[k]@.vol_24h == Option::Some(ts@[k].volume_24h@),
        decreases ts@.len() - i,
    {
        let t = &ts[i];
        r.push(
            TickerInfo {
                symbol: t.symbol.clone(),
                last_price: t.last_price.clone(),
                vol_24h: Some(t.volume_24h.clone()),
            },
        );
        i += 1;
    }
    r
}

/// Normalize one venue's rows: the instrument id becomes the symbol.
pub fn map_okx_tickers(ts: &Vec<OKXTickerInfo>) -> (r: Vec<TickerInfo>)
    ensures
        r@.len() == ts@.len(),
        forall|i: int|
            0 <= i < ts@.len() ==> (#[trigger] r@[i])@.symbol == ts@[i].instrument_id@
                && r@[i]@.last_price == ts@[i].last_price@ && r@[i]@.vol_24h == Option::Some(
                ts@[i].volume_24h@,
            ),
{
    let mut r: Vec<TickerInfo> = Vec::new();
    let mut i: usize = 0;
    while i < ts.len()
        invariant
            0 <= i <= ts@.len(),
            r@.len() == i,
            forall|k: int|
                0 <= k < i ==> (#[trigger] r@[k])@.symbol == ts@[k].instrument_id@
                    && r@[k]@.last_price == ts@[k].last_price@ && r@[k]@.vol_24h == Option::Some(
                    ts@[k].volume_24h@,
                ),
        decreases ts@.len() - i,
    {
        let t = &ts[i];
        r.push(
            TickerInfo {
                symbol: t.instrument_id.clone(),
                last_price: t.last_price.clone(),
                vol_24h: Some(t.volume_24h.clone()),
            },
        );
        i += 1;
    }
    r
}

} // verus!
