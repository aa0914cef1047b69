//! The polling scheduler's decision logic: batch selection and blacklist
//! filtering, reconciling fetched tickers against the requested batch,
//! blacklisting symbols the exchange stopped returning, feeding parsed
//! ticks to the aggregation engine, and triggering candle extraction.
//!
//! The control loop itself — timers, jitter sleeps, the fetch, persistence
//! — lives outside the library and hands these functions plain values.

use vstd::prelude::*;

use crate::aggregator::KlineAggregator;
use crate::aggregator::RowView;
use crate::aggregator::TickData;
use crate::aggregator::spec_add;
use crate::aggregator::spec_extract;
use crate::aggregator::spec_bucket;
use crate::entities::SymbolKlineData;
use crate::exchanges::TickerInfo;
use crate::exchanges::TickerView;
use crate::rotator::SymbolRotator;
use crate::rotator::batch_from;
use crate::rotator::next_cursor;
use crate::textnum::parse_fixed;
use crate::textnum::spec_parse_fixed;
use crate::textnum::to_upper;
use crate::textnum::upper_of;

verus! {

/// Whether `s` occurs in the list `l`.
pub open spec fn in_list(l: Seq<Seq<char>>, s: Seq<char>) -> bool {
    exists|i: int| 0 <= i < l.len() && l[i] == s
}

/// Whether `s` occurs in `v`.
pub fn contains_string(v: &Vec<String>, s: &String) -> (r: bool)
    ensures
        r == in_list(v@.map_values(|x: String| x@), s@),
{
    let mut i: usize = 0;
    while i < v.len()
        invariant
            0 <= i <= v@.len(),
            forall|k: int| 0 <= k < i ==> (#[trigger] v@[k])@ != s@,
        decreases v@.len() - i,
    {
        if v[i] == *s {
            proof {
                assert(v@.map_values(|x: String| x@)[i as int] == s@);
            }
            return true;
        }
        i += 1;
    }
    proof {
        let mv = v@.map_values(|x: String| x@);
        if in_list(mv, s@) {
            let w = choose|w: int| 0 <= w < mv.len() && mv[w] == s@;
            assert(v@[w]@ != s@);
        }
    }
    false
}

/// The intervals flushed each cycle: always exactly the smallest configured
/// interval.
pub fn get_flush_intervals() -> (r: Vec<String>)
    ensures
        r@.len() == 1,
        r@[0]@ == "1m"@,
{
    let mut r: Vec<String> = Vec::new();
    r.push("1m".to_owned());
    r
}

/// The polling interval actually used: the configured one, floored at four
/// seconds.
pub fn effective_refresh_secs(configured: i32) -> (r: i32)
    ensures
        r == if configured < 4 {
            4int
        } else {
            configured as int
        },
{
    if configured < 4 {
        4
    } else {
        configured
    }
}

/// A batch with the blacklisted symbols removed: exactly those whose
/// uppercased form is not on the blacklist, in batch order.
pub open spec fn spec_filter_batch(batch: Seq<Seq<char>>, bl: Seq<Seq<char>>) -> Seq<Seq<char>> {
    batch.filter(|s: Seq<char>| !in_list(bl, upper_of(s)))
}

/// Drop every symbol whose uppercased form is on the blacklist.
pub fn filter_batch(batch: &Vec<String>, blacklist: &Vec<String>) -> (r: Vec<String>)
    ensures
        r@.map_values(|s: String| s@) == spec_filter_batch(
            batch@.map_values(|s: String| s@),
            blacklist@.map_values(|s: String| s@),
        ),
{
    let ghost bv = batch@.map_values(|s: String| s@);
    let ghost blv = blacklist@.map_values(|s: String| s@);
    let ghost pred = |s: Seq<char>| !in_list(blv, upper_of(s));
    let mut r: Vec<String> = Vec::new();
    let mut i: usize = 0;
    while i < batch.len()
        invariant
            0 <= i <= batch@.len(),
            bv == batch@.map_values(|s: String| s@),
            blv == blacklist@.map_values(|s: String| s@),
            pred == (|s: Seq<char>| !in_list(blv, upper_of(s))),
            r@.map_values(|s: String| s@) == bv.take(i as int).filter(pred),
        decreases batch@.len() - i,
    {
        proof {
            assert(bv.take(i + 1).drop_last() =~= bv.take(i as int));
            assert(bv.take(i + 1).last() == bv[i as int]);
            reveal_with_fuel(Seq::filter, 2);
        }
        let u = to_upper(batch[i].as_str());
        if !contains_string(blacklist, &u) {
            r.push(batch[i].clone());
            proof {
                assert(r@.map_values(|s: String| s@) =~= bv.take(i + 1).filter(pred));
            }
        } else {
            proof {
                assert(r@.map_values(|s: String| s@) =~= bv.take(i + 1).filter(pred));
            }
        }
        i += 1;
    }
    proof {
        assert(bv.take(batch@.len() as int) =~= bv);
    }
    r
}

/// The tickers whose uppercased symbol is in the uppercased batch, in
/// fetch order.
pub open spec fn spec_matched(ts: Seq<TickerView>, batch: Seq<Seq<char>>) -> Seq<TickerView> {
    ts.filter(|t: TickerView| in_list(batch.map_values(|b: Seq<char>| upper_of(b)), upper_of(t.symbol)))
}

/// The blacklist after reconciling one batch: walking the batch in order,
/// every symbol whose uppercased form was neither found among the fetched
/// tickers nor already blacklisted is appended, uppercased.
pub open spec fn spec_blacklist_after(
    bl: Seq<Seq<char>>,
    batch: Seq<Seq<char>>,
    found: Seq<Seq<char>>,
) -> Seq<Seq<char>>
    decreases batch.len(),
{
    if batch.len() == 0 {
        bl
    } else {
        let blp = spec_blacklist_after(bl, batch.drop_last(), found);
        let u = upper_of(batch.last());
        if !in_list(found, u) && !in_list(blp, u) {
            blp.push(u)
        } else {
            blp
        }
    }
}

/// The aggregation rows after feeding a list of tickers, in order: each
/// ticker whose price and volume both parse as fixed-point decimals is
/// added as one observation at `now`; the others are dropped singly.
pub open spec fn spec_ingest(
    rows: Seq<RowView>,
    nivs: int,
    ts: Seq<TickerView>,
    now: i64,
) -> Seq<RowView>
    decreases ts.len(),
{
    if ts.len() == 0 {
        rows
    } else {
        let r = spec_ingest(rows, nivs, ts.drop_last(), now);
        let t = ts.last();
        match spec_parse_fixed(t.last_price) {
            Option::Some(p) => match t.vol_24h {
                Option::Some(vs) => match spec_parse_fixed(vs) {
                    Option::Some(v) => spec_add(
                        r,
                        nivs,
                        t.symbol,
                        TickData { price: p, time: spec_bucket(now), volume: v },
                    ),
                    Option::None => r,
                },
                Option::None => r,
            },
            Option::None => r,
        }
    }
}

/// What one completed cycle hands back to the control loop: the symbols
/// newly blacklisted this cycle (already uppercased, to be persisted), and
/// the candles to store.
pub struct CycleResult {
    pub new_blacklist_entries: Vec<String>,
    pub candles: Vec<SymbolKlineData>,
}

/// The polling scheduler's state: the symbol rotator, the blacklist of
/// symbols the exchange stopped returning (uppercased, growing
/// monotonically), and the aggregation engine.
pub struct Scheduler {
    pub rotator: SymbolRotator,
    pub blacklist: Vec<String>,
    pub aggregator: KlineAggregator,
}

impl Scheduler {
    /// The blacklist as character sequences.
    pub open spec fn blacklist_view(&self) -> Seq<Seq<char>> {
        self.blacklist@.map_values(|s: String| s@)
    }

    /// Component well-formedness.
    pub open spec fn wf(&self) -> bool {
        &&& self.rotator.wf()
        &&& self.aggregator.wf()
    }

    /// A fresh scheduler: a rotator over the configured symbols, the
    /// configured blacklist uppercased, and an empty aggregation engine.
    pub fn new(symbols: Vec<String>, batch_size: usize, blacklist: Vec<String>, debug: bool) -> (r:
        Self)
        ensures
            r.wf(),
            r.rotator.symbols() == symbols@.map_values(|s: String| s@),
            r.rotator.batch_size_spec() == batch_size as int,
            r.rotator.cursor() == 0,
            r.blacklist_view() == blacklist@.map_values(|s: String| upper_of(s@)),
            r.aggregator.rows() == Seq::<RowView>::empty(),
            r.aggregator.debug_spec() == debug,
    {
        let mut bl: Vec<String> = Vec::new();
        let mut i: usize = 0;
        while i < blacklist.len()
            invariant
                0 <= i <= blacklist@.len(),
                bl@.len() == i,
                forall|k: int| 0 <= k < i ==> (#[trigger] bl@[k])@ == upper_of(blacklist@[k]@),
            decreases blacklist@.len() - i,
        {
            bl.push(to_upper(blacklist[i].as_str()));
            i += 1;
        }
        let r = Self {
            rotator: SymbolRotator::new(symbols, batch_size),
            blacklist: bl,
            aggregator: KlineAggregator::new(debug),
        };
        proof {
            assert(r.blacklist_view() =~= blacklist@.map_values(|s: String| upper_of(s@)));
        }
        r
    }

    /// Start a cycle: pull the next batch from the rotator and drop every
    /// blacklisted symbol. An empty result means this cycle has nothing to
    /// fetch.
    pub fn begin_cycle(&mut self) -> (r: Vec<String>)
        requires
            old(self).wf(),
        ensures
            final(self).wf(),
            final(self).blacklist == old(self).blacklist,
            final(self).aggregator == old(self).aggregator,
            final(self).rotator.symbols() == old(self).rotator.symbols(),
            final(self).rotator.batch_size_spec() == old(self).rotator.batch_size_spec(),
            old(self).rotator.symbols().len() == 0 || old(self).rotator.batch_size_spec() == 0
                ==> r@.len() == 0 && final(self).rotator.cursor() == old(self).rotator.cursor(),
            old(self).rotator.symbols().len() > 0 && old(self).rotator.batch_size_spec() > 0 ==> {
                &&& r@.map_values(|s: String| s@) == spec_filter_batch(
                    batch_from(
                        old(self).rotator.symbols(),
                        old(self).rotator.batch_size_spec(),
                        old(self).rotator.cursor(),
                    ),
                    old(self).blacklist_view(),
                )
                &&& final(self).rotator.cursor() == next_cursor(
                    old(self).rotator.symbols().len() as int,
                    old(self).rotator.batch_size_spec(),
                    old(self).rotator.cursor(),
                )
            },
    {
        match self.rotator.next_batch() {
            Some(batch) => filter_batch(&batch, &self.blacklist),
            None => Vec::new(),
        }
    }

    /// Finish a cycle with the fetched tickers.
    ///
    /// The tickers are filtered down to the requested batch
    /// (case-insensitively); every batch symbol the exchange did not return
    /// and that is not yet blacklisted is appended to the blacklist,
    /// uppercased; each matched ticker whose price and volume both parse is
    /// fed to the aggregation engine as one observation at `now_ms`; and
    /// the candles of the requested flush intervals are extracted.
    #[verifier::loop_isolation(false)]
    pub fn complete_cycle(
        &mut self,
        batch: &Vec<String>,
        tickers: &Vec<TickerInfo>,
        flush: &Vec<String>,
        now_ms: i64,
    ) -> (r: CycleResult)
        requires
            old(self).wf(),
            0 <= now_ms,
        ensures
            final(self).wf(),
            final(self).rotator == old(self).rotator,
            final(self).aggregator.ivs() == old(self).aggregator.ivs(),
            final(self).aggregator.max_ms() == old(self).aggregator.max_ms(),
            final(self).aggregator.debug_spec() == old(self).aggregator.debug_spec(),
            final(self).blacklist_view() == spec_blacklist_after(
                old(self).blacklist_view(),
                batch@.map_values(|s: String| s@),
                spec_matched(
                    tickers@.map_values(|t: TickerInfo| t@),
                    batch@.map_values(|s: String| s@),
                ).map_values(|t: TickerView| upper_of(t.symbol)),
            ),
            final(self).blacklist@ == old(self).blacklist@ + r.new_blacklist_entries@,
            final(self).aggregator.rows() == spec_extract(
                spec_ingest(
                    old(self).aggregator.rows(),
                    old(self).aggregator.ivs().len() as int,
                    spec_matched(
                        tickers@.map_values(|t: TickerInfo| t@),
                        batch@.map_values(|s: String| s@),
                    ),
                    now_ms,
                ),
                old(self).aggregator.ivs(),
                flush@.map_values(|s: String| s@),
                now_ms as int,
                now_ms - 3 * old(self).aggregator.max_ms(),
            ).1,
            r.candles@.map_values(|k: SymbolKlineData| k@) == spec_extract(
                spec_ingest(
                    old(self).aggregator.rows(),
                    old(self).aggregator.ivs().len() as int,
                    spec_matched(
                        tickers@.map_values(|t: TickerInfo| t@),
                        batch@.map_values(|s: String| s@),
                    ),
                    now_ms,
                ),
                old(self).aggregator.ivs(),
                flush@.map_values(|s: String| s@),
                now_ms as int,
                now_ms - 3 * old(self).aggregator.max_ms(),
            ).0,
    {
        let ghost batchv = batch@.map_values(|s: String| s@);
        let ghost tsv = tickers@.map_values(|t: TickerInfo| t@);
        let ghost bl0 = old(self).blacklist_view();
        let mut batch_upper: Vec<String> = Vec::new();
        let mut i: usize = 0;
        while i < batch.len()
            invariant
                0 <= i <= batch@.len(),
                batch_upper@.len() == i,
                forall|k: int|
                    0 <= k < i ==> (#[trigger] batch_upper@[k])@ == upper_of(batchv[k]),
            decreases batch@.len() - i,
        {
            batch_upper.push(to_upper(batch[i].as_str()));
            i += 1;
        }
        let ghost buv = batch_upper@.map_values(|s: String| s@);
        proof {
            assert(buv =~= batchv.map_values(|b: Seq<char>| upper_of(b)));
        }
        let mut matched: Vec<TickerInfo> = Vec::new();
        let mut i2: usize = 0;
        proof {
            assert(matched@.map_values(|t: TickerInfo| t@) =~= spec_matched(tsv.take(0), batchv))
                by {
                reveal_with_fuel(Seq::filter, 2);
                assert(tsv.take(0) =~= Seq::<TickerView>::empty());
            }
        }
        while i2 < tickers.len()
            invariant
                0 <= i2 <= tickers@.len(),
                batch_upper@.map_values(|s: String| s@) == buv,
                matched@.map_values(|t: TickerInfo| t@) == spec_matched(
                    tsv.take(i2 as int),
                    batchv,
                ),
            decreases tickers@.len() - i2,
        {
            let ghost pred = |t: TickerView|
                in_list(batchv.map_values(|b: Seq<char>| upper_of(b)), upper_of(t.symbol));
            proof {
                assert(tsv.take(i2 + 1).drop_last() =~= tsv.take(i2 as int));
                assert(tsv.take(i2 + 1).last() == tsv[i2 as int]);
                reveal_with_fuel(Seq::filter, 2);
            }
            let t = &tickers[i2];
            let u = to_upper(t.symbol.as_str());
            if contains_string(&batch_upper, &u) {
                let copy = TickerInfo {
                    symbol: t.symbol.clone(),
                    last_price: t.last_price.clone(),
                    vol_24h: match &t.vol_24h {
                        Some(v) => Some(v.clone()),
                        None => None,
                    },
                };
                proof {
                    assert(copy@ == tsv[i2 as int]);
                    assert(pred(tsv[i2 as int]));
                }
                matched.push(copy);
            } else {
                proof {
                    assert(!pred(tsv[i2 as int]));
                }
            }
            proof {
                assert(matched@.map_values(|t2: TickerInfo| t2@) =~= spec_matched(
                    tsv.take(i2 + 1),
                    batchv,
                ));
            }
            i2 += 1;
        }
        proof {
            assert(tsv.take(tickers@.len() as int) =~= tsv);
        }
        let ghost matchedv = spec_matched(tsv, batchv);
        let mut found_upper: Vec<String> = Vec::new();
        let mut i3: usize = 0;
        while i3 < matched.len()
            invariant
                0 <= i3 <= matched@.len(),
                matched@.map_values(|t: TickerInfo| t@) == matchedv,
                found_upper@.len() == i3,
                forall|k: int|
                    0 <= k < i3 ==> (#[trigger] found_upper@[k])@ == upper_of(matchedv[k].symbol),
            decreases matched@.len() - i3,
        {
            proof {
                assert(matched@[i3 as int]@ == matchedv[i3 as int]);
            }
            found_upper.push(to_upper(matched[i3].symbol.as_str()));
            i3 += 1;
        }
        let ghost fuv = found_upper@.map_values(|s: String| s@);
        proof {
            assert(fuv =~= matchedv.map_values(|t: TickerView| upper_of(t.symbol)));
        }
        let mut new_entries: Vec<String> = Vec::new();
        let mut i4: usize = 0;
        proof {
            assert(self.blacklist_view() =~= spec_blacklist_after(bl0, batchv.take(0), fuv));
            assert(self.blacklist@ =~= old(self).blacklist@ + new_entries@);
        }
        while i4 < batch.len()
            invariant
                0 <= i4 <= batch@.len(),
                self.rotator == old(self).rotator,
                self.aggregator == old(self).aggregator,
                found_upper@.map_values(|s: String| s@) == fuv,
                self.blacklist_view() == spec_blacklist_after(bl0, batchv.take(i4 as int), fuv),
                self.blacklist@ == old(self).blacklist@ + new_entries@,
            decreases batch@.len() - i4,
        {
            proof {
                assert(batchv.take(i4 + 1).drop_last() =~= batchv.take(i4 as int));
                assert(batchv.take(i4 + 1).last() == batchv[i4 as int]);
            }
            let u = to_upper(batch[i4].as_str());
            if !contains_string(&found_upper, &u) && !contains_string(&self.blacklist, &u) {
                let u2 = u.clone();
                self.blacklist.push(u);
                new_entries.push(u2);
                proof {
                    assert(self.blacklist_view() =~= spec_blacklist_after(
                        bl0,
                        batchv.take(i4 + 1),
                        fuv,
                    ));
                    assert(self.blacklist@ =~= old(self).blacklist@ + new_entries@);
                }
            } else {
                proof {
                    assert(self.blacklist_view() =~= spec_blacklist_after(
                        bl0,
                        batchv.take(i4 + 1),
                        fuv,
                    ));
                }
            }
            i4 += 1;
        }
        proof {
            assert(batchv.take(batch@.len() as int) =~= batchv);
        }
        let ghost bl_done = self.blacklist@;
        let ghost rows0 = old(self).aggregator.rows();
        let ghost nivs = old(self).aggregator.ivs().len() as int;
        let mut i5: usize = 0;
        proof {
            assert(matchedv.take(0) =~= Seq::<TickerView>::empty());
        }
        while i5 < matched.len()
            invariant
                0 <= i5 <= matched@.len(),
                matched@.map_values(|t: TickerInfo| t@) == matchedv,
                self.rotator == old(self).rotator,
                self.blacklist@ == bl_done,
                self.aggregator.wf(),
                self.aggregator.ivs() == old(self).aggregator.ivs(),
                self.aggregator.max_ms() == old(self).aggregator.max_ms(),
                self.aggregator.debug_spec() == old(self).aggregator.debug_spec(),
                self.aggregator.rows() == spec_ingest(rows0, nivs, matchedv.take(i5 as int), now_ms),
            decreases matched@.len() - i5,
        {
            proof {
                assert(matchedv.take(i5 + 1).drop_last() =~= matchedv.take(i5 as int));
                assert(matchedv.take(i5 + 1).last() == matchedv[i5 as int]);
                assert(matched@[i5 as int]@ == matchedv[i5 as int]);
            }
            let t = &matched[i5];
            match parse_fixed(t.last_price.as_str()) {
                Some(p) => {
                    match &t.vol_24h {
                        Some(vs) => {
                            match parse_fixed(vs.as_str()) {
                                Some(v) => {
                                    self.aggregator.add_price(t.symbol.as_str(), p, v, now_ms);
                                },
                                None => {},
                            }
                        },
                        None => {},
                    }
                },
                None => {},
            }
            i5 += 1;
        }
        proof {
            assert(matchedv.take(matched@.len() as int) =~= matchedv);
        }
        let candles = self.aggregator.extract_ohlc(flush, now_ms);
        CycleResult { new_blacklist_entries: new_entries, candles }
    }
}

} // verus!
