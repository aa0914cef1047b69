//! The compute side of candle persistence: validating and normalizing a
//! batch of candle records, and rendering the columnar backend's batch
//! `INSERT` statement as one string. Executing statements against a store
//! happens outside the library.

use vstd::prelude::*;

use crate::entities::SymbolKlineData;
use crate::entities::spec_clean;
use crate::entities::clean_symbol;
use crate::textnum::upper_of;

verus! {

/// Why a batch of candle records was rejected before persistence.
#[derive(Clone, Copy, PartialEq, Eq, Structural, Debug)]
pub enum KlineSqlError {
    EmptyField,
}

/// The decimal digit character of `d`.
pub open spec fn digit_of(d: int) -> char {
    ((0x30 + d) as u8) as char
}

/// The decimal digits of the non-negative number `n`, most significant
/// first, without leading zeros.
pub open spec fn dec_digits(n: int) -> Seq<char>
    decreases n,
{
    if n < 10 {
        seq![digit_of(n)]
    } else {
        dec_digits(n / 10).push(digit_of(n % 10))
    }
}

/// The decimal rendering of `v`, with a leading `-` when negative.
pub open spec fn dec_int(v: int) -> Seq<char> {
    if v < 0 {
        seq!['-'] + dec_digits(-v)
    } else {
        dec_digits(v)
    }
}

/// One digit as a string slice.
fn digit_str(d: u64) -> (r: &'static str)
    requires
        d < 10,
    ensures
        r@ == seq![digit_of(d as int)],
{
    let r: &'static str = if d == 0 {
        "0"
    } else if d == 1 {
        "1"
    } else if d == 2 {
        "2"
    } else if d == 3 {
        "3"
    } else if d == 4 {
        "4"
    } else if d == 5 {
        "5"
    } else if d == 6 {
        "6"
    } else if d == 7 {
        "7"
    } else if d == 8 {
        "8"
    } else {
        "9"
    };
    proof {
        reveal_strlit("0");
        reveal_strlit("1");
        reveal_strlit("2");
        reveal_strlit("3");
        reveal_strlit("4");
        reveal_strlit("5");
        reveal_strlit("6");
        reveal_strlit("7");
        reveal_strlit("8");
        reveal_strlit("9");
        assert(r@ =~= seq![digit_of(d as int)]);
    }
    r
}

/// Render a non-negative number in decimal.
pub fn render_u64(n: u64) -> (r: String)
    ensures
        r@ == dec_digits(n as int),
    decreases n,
{
    if n < 10 {
        digit_str(n).to_owned()
    } else {
        let mut s = render_u64(n / 10);
        s.append(digit_str(n % 10));
        s
    }
}

/// Render a signed number in decimal.
pub fn render_i64(v: i64) -> (r: String)
    ensures
        r@ == dec_int(v as int),
{
    if v < 0 {
        let m: u64 = if v == i64::MIN {
            9_223_372_036_854_775_808u64
        } else {
            (-v) as u64
        };
        let mut s: String = "-".to_owned();
        let digits = render_u64(m);
        s.append(digits.as_str());
        proof {
            reveal_strlit("-");
            assert(s@ =~= seq!['-'] + dec_digits(m as int));
        }
        s
    } else {
        render_u64(v as u64)
    }
}

/// `s` with every single quote doubled, as SQL string syntax wants it.
pub open spec fn spec_escape(s: Seq<char>) -> Seq<char>
    decreases s.len(),
{
    if s.len() == 0 {
        Seq::empty()
    } else {
        spec_escape(s.drop_last()) + (if s.last() == '\'' {
            seq!['\'', '\'']
        } else {
            seq![s.last()]
        })
    }
}

/// Double every single quote of `s`.
#[verifier::loop_isolation(false)]
pub fn escape_sql(s: &str) -> (r: String)
    ensures
        r@ == spec_escape(s@),
{
    let n = s.unicode_len();
    let mut out = String::new();
    let mut i: usize = 0;
    proof {
        assert(s@.take(0) =~= Seq::<char>::empty());
    }
    while i < n
        invariant
            0 <= i <= n,
            out@ == spec_escape(s@.take(i as int)),
        decreases n - i,
    {
        proof {
            assert(s@.take(i + 1).drop_last() =~= s@.take(i as int));
            assert(s@.take(i + 1).last() == s@[i as int]);
        }
        let c = s.get_char(i);
        if c == '\'' {
            out.append("''");
            proof {
                reveal_strlit("''");
                assert(out@ =~= spec_escape(s@.take(i + 1)));
            }
        } else {
            let piece = s.substring_char(i, i + 1);
            proof {
                assert(piece@ =~= seq![s@[i as int]]);
            }
            out.append(piece);
            proof {
                assert(out@ =~= spec_escape(s@.take(i + 1)));
            }
        }
        i += 1;
    }
    proof {
        assert(s@.take(n as int) =~= s@);
    }
    out
}

/// What chrono renders for `ms` milliseconds since the Unix epoch, as
/// `YYYY-MM-DD hh:mm:ss` in UTC.
pub uninterp spec fn ts_text_of(ms: i64) -> Seq<char>;

/// Relies on chrono's `DateTime::<Utc>::from_timestamp_millis` and its
/// `%Y-%m-%d %H:%M:%S` formatting: the UTC calendar rendering of an epoch
/// timestamp, a function of the timestamp alone (empty for a timestamp
/// chrono cannot represent).
#[verifier::external_body]
fn format_ts(ms: i64) -> (r: String)
    ensures
        r@ == ts_text_of(ms),
{
    match chrono::DateTime::<chrono::Utc>::from_timestamp_millis(ms) {
        Some(dt) => dt.format("%Y-%m-%d %H:%M:%S").to_string(),
        None => String::new(),
    }
}

/// Whether every record of the batch carries a symbol and an interval.
pub open spec fn spec_rows_valid(rows: Seq<crate::entities::CandleView>) -> bool {
    forall|i: int|
        0 <= i < rows.len() ==> (#[trigger] rows[i]).symbol.len() > 0 && rows[i].interval.len() > 0
}

/// Validate and normalize a batch for persistence: every record must carry
/// a symbol and an interval; the symbols are normalized with
/// `clean_symbol`, everything else is kept as it is.
pub fn prepare_rows(data: &Vec<SymbolKlineData>) -> (r: Result<
    Vec<SymbolKlineData>,
    KlineSqlError,
>)
    ensures
        r is Ok <==> spec_rows_valid(data@.map_values(|k: SymbolKlineData| k@)),
        r is Ok ==> r->Ok_0@.len() == data@.len(),
        r is Ok ==> forall|i: int|
            0 <= i < data@.len() ==> {
                let c = (#[trigger] r->Ok_0@[i])@;
                let o = data@[i]@;
                &&& c.symbol == spec_clean(upper_of(o.symbol))
                &&& c.interval == o.interval
                &&& c.open == o.open
                &&& c.high == o.high
                &&& c.low == o.low
                &&& c.close == o.close
                &&& c.open_time_ms == o.open_time_ms
                &&& c.volume == o.volume
                &&& c.trade_count == o.trade_count
            },
{
    let mut out: Vec<SymbolKlineData> = Vec::new();
    let mut i: usize = 0;
    while i < data.len()
        invariant
            0 <= i <= data@.len(),
            out@.len() == i,
            forall|k: int|
                0 <= k < i ==> (#[trigger] data@[k])@.symbol.len() > 0
                    && data@[k]@.interval.len() > 0,
            forall|k: int|
                0 <= k < i ==> {
                    let c = (#[trigger] out@[k])@;
                    let o = data@[k]@;
                    &&& c.symbol == spec_clean(upper_of(o.symbol))
                    &&& c.interval == o.interval
                    &&& c.open == o.open
                    &&& c.high == o.high
                    &&& c.low == o.low
                    &&& c.close == o.close
                    &&& c.open_time_ms == o.open_time_ms
                    &&& c.volume == o.volume
                    &&& c.trade_count == o.trade_count
                },
        decreases data@.len() - i,
    {
        let k = &data[i];
        if k.symbol.as_str().is_empty() || k.interval.as_str().is_empty() {
            proof {
                let mapped = data@.map_values(|x: SymbolKlineData| x@);
                assert(mapped[i as int] == data@[i as int]@);
                assert(!(mapped[i as int].symbol.len() > 0 && mapped[i as int].interval.len()
                    > 0));
            }
            return Err(KlineSqlError::EmptyField);
        }
        out.push(
            SymbolKlineData {
                symbol: clean_symbol(k.symbol.as_str()),
                interval: k.interval.clone(),
                open: k.open,
                high: k.high,
                low: k.low,
                close: k.close,
                open_time_ms: k.open_time_ms,
                volume: k.volume,
                trade_count: k.trade_count,
            },
        );
        i += 1;
    }
    Ok(out)
}

/// Render a non-negative number in decimal.
pub fn render_u128(n: u128) -> (r: String)
    ensures
        r@ == dec_digits(n as int),
    decreases n,
{
    if n < 10 {
        digit_str(n as u64).to_owned()
    } else {
        let mut s = render_u128(n / 10);
        s.append(digit_str((n % 10) as u64));
        s
    }
}

/// `k` zero characters.
pub open spec fn zeros(k: int) -> Seq<char>
    decreases k,
{
    if k <= 0 {
        Seq::empty()
    } else {
        seq!['0'] + zeros(k - 1)
    }
}

/// `zeros(k)` is `k` zero characters.
proof fn lemma_zeros(k: int)
    requires
        0 <= k,
    ensures
        zeros(k).len() == k,
        forall|i: int| 0 <= i < k ==> zeros(k)[i] == '0',
    decreases k,
{
    if k > 0 {
        lemma_zeros(k - 1);
    }
}

/// Numbers below `10^k` render with at most `k` digits.
proof fn lemma_dec_len(n: int, k: int)
    requires
        1 <= k,
        0 <= n,
        n < crate::textnum::pow10(k),
    ensures
        dec_digits(n).len() <= k,
    decreases k,
{
    if n >= 10 {
        assert(crate::textnum::pow10(k) == 10 * crate::textnum::pow10(k - 1));
        assert(n / 10 < crate::textnum::pow10(k - 1)) by (nonlinear_arith)
            requires
                n < 10 * crate::textnum::pow10(k - 1),
                n >= 10,
        ;
        assert(k >= 2) by {
            if k == 1 {
                reveal_with_fuel(crate::textnum::pow10, 2);
            }
        }
        lemma_dec_len(n / 10, k - 1);
    }
}

/// The fixed-point decimal rendering of a value scaled by `10^8`: the whole
/// part, a dot, and always exactly eight fraction digits.
pub open spec fn dec_fixed(v: int) -> Seq<char> {
    let m = if v < 0 {
        -v
    } else {
        v
    };
    let sign = if v < 0 {
        seq!['-']
    } else {
        Seq::<char>::empty()
    };
    let fd = dec_digits(m % 100_000_000);
    sign + dec_digits(m / 100_000_000) + seq!['.'] + zeros(8 - fd.len()) + fd
}

/// Render a fixed-point value scaled by `10^8` as a plain decimal with
/// eight fraction digits.
#[verifier::loop_isolation(false)]
pub fn render_fixed(v: i128) -> (r: String)
    ensures
        r@ == dec_fixed(v as int),
{
    let m: u128 = if v < 0 {
        if v == i128::MIN {
            170_141_183_460_469_231_731_687_303_715_884_105_728u128
        } else {
            (-v) as u128
        }
    } else {
        v as u128
    };
    let mut s: String = if v < 0 {
        "-".to_owned()
    } else {
        "".to_owned()
    };
    proof {
        reveal_strlit("-");
        reveal_strlit("");
    }
    let whole = render_u128(m / 100_000_000);
    s.append(whole.as_str());
    s.append(".");
    proof {
        reveal_strlit(".");
    }
    let frac: u128 = m % 100_000_000;
    let fd = render_u128(frac);
    let fd_len = fd.as_str().unicode_len();
    proof {
        crate::textnum::lemma_pow10_8_value();
        lemma_dec_len(frac as int, 8);
        lemma_zeros(8 - fd@.len());
    }
    let ghost mid = s@;
    let mut j: usize = 0;
    while j < 8 - fd_len
        invariant
            0 <= j <= 8 - fd_len,
            fd_len == fd@.len() <= 8,
            s@ == mid + zeros(j as int),
        decreases 8 - fd_len - j,
    {
        s.append("0");
        proof {
            reveal_strlit("0");
            lemma_zeros(j + 1);
            lemma_zeros(j as int);
            assert(s@ =~= mid + zeros(j + 1));
        }
        j += 1;
    }
    s.append(fd.as_str());
    proof {
        assert(s@ =~= dec_fixed(v as int));
    }
    s
}

/// The SQL value tuple of one candle record: quoted, escaped strings for
/// the symbol, interval and rendered timestamp, plain decimals for the
/// numeric columns.
pub open spec fn spec_row_sql(c: crate::entities::CandleView) -> Seq<char> {
    "('"@ + spec_escape(c.symbol) + "','"@ + spec_escape(c.interval) + "',"@ + dec_fixed(
        c.open as int,
    ) + ","@ + dec_fixed(c.high as int) + ","@ + dec_fixed(c.low as int) + ","@ + dec_fixed(
        c.close as int,
    ) + ","@ + dec_fixed(c.volume) + ",'"@ + ts_text_of(c.open_time_ms) + "',"@ + dec_int(
        c.trade_count,
    ) + ")"@
}

/// The whole batch `INSERT` statement for a list of candle records.
pub open spec fn spec_rows_sql(rows: Seq<crate::entities::CandleView>) -> Seq<char>
    decreases rows.len(),
{
    if rows.len() == 0 {
        Seq::empty()
    } else if rows.len() == 1 {
        spec_row_sql(rows[0])
    } else {
        spec_rows_sql(rows.drop_last()) + ","@ + spec_row_sql(rows.last())
    }
}

/// Render the value tuple of one candle record.
fn render_row(k: &SymbolKlineData) -> (r: String)
    ensures
        r@ == spec_row_sql(k@),
{
    let mut s: String = "('".to_owned();
    let esym = escape_sql(k.symbol.as_str());
    s.append(esym.as_str());
    s.append("','");
    let eiv = escape_sql(k.interval.as_str());
    s.append(eiv.as_str());
    s.append("',");
    let o = render_fixed(k.open as i128);
    s.append(o.as_str());
    s.append(",");
    let h = render_fixed(k.high as i128);
    s.append(h.as_str());
    s.append(",");
    let l = render_fixed(k.low as i128);
    s.append(l.as_str());
    s.append(",");
    let c = render_fixed(k.close as i128);
    s.append(c.as_str());
    s.append(",");
    let v = render_fixed(k.volume);
    s.append(v.as_str());
    s.append(",'");
    let t = format_ts(k.open_time_ms);
    s.append(t.as_str());
    s.append("',");
    let tc = render_i64(k.trade_count);
    s.append(tc.as_str());
    s.append(")");
    s
}

/// Build the one batch `INSERT` statement that stores these candle
/// records in the columnar backend, value tuples joined by commas.
#[verifier::loop_isolation(false)]
#[verifier::rlimit(60)]
pub fn build_insert_sql(rows: &Vec<SymbolKlineData>) -> (r: String)
    ensures
        r@ == "INSERT INTO kline_data (symbol, interval, open, high, low, close, volume, timestamp, trade_count) VALUES "@
            + spec_rows_sql(rows@.map_values(|k: SymbolKlineData| k@)),
{
    let ghost rv = rows@.map_values(|k: SymbolKlineData| k@);
    let mut s: String =
        "INSERT INTO kline_data (symbol, interval, open, high, low, close, volume, timestamp, trade_count) VALUES ".to_owned();
    let ghost prefix = s@;
    let mut i: usize = 0;
    proof {
        assert(rv.take(0) =~= Seq::<crate::entities::CandleView>::empty());
        assert(s@ =~= prefix + spec_rows_sql(rv.take(0)));
    }
    while i < rows.len()
        invariant
            0 <= i <= rows@.len(),
            s@ == prefix + spec_rows_sql(rv.take(i as int)),
        decreases rows@.len() - i,
    {
        proof {
            assert(rv.take(i + 1).drop_last() =~= rv.take(i as int));
            assert(rv.take(i + 1).last() == rv[i as int]);
            assert(rows@[i as int]@ == rv[i as int]);
        }
        if i > 0 {
            s.append(",");
        }
        let row = render_row(&rows[i]);
        s.append(row.as_str());
        proof {
            if i == 0 {
                assert(s@ =~= prefix + spec_rows_sql(rv.take(1)));
            } else {
                assert(s@ =~= prefix + spec_rows_sql(rv.take(i + 1)));
            }
        }
        i += 1;
    }
    proof {
        assert(rv.take(rows@.len() as int) =~= rv);
    }
    s
}

} // verus!
