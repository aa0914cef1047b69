//! The streaming aggregation engine: per-symbol, per-interval tick buffers,
//! windowed OHLC candle extraction, and retention cleanup.
//!
//! Every buffer is kept sorted by tick time, strictly ascending: at most one
//! tick is stored per second-aligned bucket time, so the times are distinct.
//! Extraction cuts the most recently completed wall-clock-aligned window out
//! of each requested buffer and evicts everything before the window's end;
//! cleanup drops ticks older than three times the longest configured
//! interval.

use vstd::prelude::*;

use crate::entities::CandleView;
use crate::entities::SymbolKlineData;

verus! {

/// One time-stamped price/volume observation. `time` is the observation
/// time in milliseconds, truncated to the whole second; `price` and `volume`
/// are fixed-point decimals.
#[derive(Clone, Copy, PartialEq, Eq, Structural, Debug)]
pub struct TickData {
    pub price: i64,
    pub time: i64,
    pub volume: i64,
}

/// A tick buffer is sorted by time, strictly ascending (times are distinct).
pub open spec fn buf_sorted(s: Seq<TickData>) -> bool {
    forall|i: int, j: int| 0 <= i < j < s.len() ==> s[i].time < s[j].time
}

/// Some tick in `s` carries bucket time `t`.
pub open spec fn has_time(s: Seq<TickData>, t: int) -> bool {
    exists|i: int| 0 <= i < s.len() && s[i].time == t
}

/// The first position whose tick time is at least `t`; on a sorted buffer,
/// the lower bound of `t`.
pub open spec fn lb(s: Seq<TickData>, t: int) -> int
    decreases s.len(),
{
    if s.len() == 0 {
        0
    } else if s[0].time >= t {
        0
    } else {
        1 + lb(s.subrange(1, s.len() as int), t)
    }
}

/// On a sorted buffer, everything before `lb(s, t)` is older than `t` and
/// everything from `lb(s, t)` on is at least `t`.
pub proof fn lemma_lb_props(s: Seq<TickData>, t: int)
    requires
        buf_sorted(s),
    ensures
        0 <= lb(s, t) <= s.len(),
        forall|j: int| 0 <= j < lb(s, t) ==> s[j].time < t,
        forall|j: int| lb(s, t) <= j < s.len() ==> s[j].time >= t,
    decreases s.len(),
{
    if s.len() == 0 {
    } else if s[0].time >= t {
        assert forall|j: int| 0 <= j < s.len() implies s[j].time >= t by {
            if j > 0 {
                assert(s[0].time < s[j].time);
            }
        }
    } else {
        let tail = s.subrange(1, s.len() as int);
        assert(buf_sorted(tail)) by {
            assert forall|i: int, j: int| 0 <= i < j < tail.len() implies tail[i].time
                < tail[j].time by {
                assert(tail[i] == s[i + 1] && tail[j] == s[j + 1]);
            }
        }
        lemma_lb_props(tail, t);
        assert forall|j: int| 0 <= j < lb(s, t) implies s[j].time < t by {
            if j > 0 {
                assert(s[j] == tail[j - 1]);
            }
        }
        assert forall|j: int| lb(s, t) <= j < s.len() implies s[j].time >= t by {
            assert(s[j] == tail[j - 1]);
        }
    }
}

/// Inserting a tick into a sorted buffer: a no-op when a tick with the same
/// bucket time is already present, otherwise an insertion at the lower bound.
pub open spec fn spec_insert_tick(s: Seq<TickData>, t: TickData) -> Seq<TickData> {
    if has_time(s, t.time as int) {
        s
    } else {
        s.insert(lb(s, t.time as int), t)
    }
}

/// Inserting preserves sortedness, and afterwards the bucket time is present.
pub proof fn lemma_insert_tick_sorted(s: Seq<TickData>, t: TickData)
    requires
        buf_sorted(s),
    ensures
        buf_sorted(spec_insert_tick(s, t)),
        has_time(spec_insert_tick(s, t), t.time as int),
{
    lemma_lb_props(s, t.time as int);
    if has_time(s, t.time as int) {
    } else {
        let p = lb(s, t.time as int);
        let r = s.insert(p, t);
        assert(r[p] == t);
        assert forall|i: int, j: int| 0 <= i < j < r.len() implies r[i].time < r[j].time by {
            if i < p && j < p {
                assert(r[i] == s[i] && r[j] == s[j]);
            } else if i < p && j == p {
                assert(r[i] == s[i]);
            } else if i < p && j > p {
                assert(r[i] == s[i] && r[j] == s[j - 1]);
            } else if i == p && j > p {
                assert(r[j] == s[j - 1]);
                assert(s[j - 1].time >= t.time);
                assert(s[j - 1].time != t.time);
            } else {
                assert(r[i] == s[i - 1] && r[j] == s[j - 1]);
            }
        }
    }
}

/// Ticks at or after `cutoff`, in buffer order.
pub open spec fn spec_retained(s: Seq<TickData>, cutoff: int) -> Seq<TickData> {
    s.filter(|x: TickData| x.time >= cutoff)
}

/// Filtering a sorted buffer keeps it sorted, and every kept tick occurs in
/// the original buffer.
pub proof fn lemma_filter_sorted(s: Seq<TickData>, pred: spec_fn(TickData) -> bool)
    requires
        buf_sorted(s),
    ensures
        buf_sorted(s.filter(pred)),
        forall|k: int|
            0 <= k < s.filter(pred).len() ==> exists|i: int|
                0 <= i < s.len() && s[i] == #[trigger] s.filter(pred)[k],
    decreases s.len(),
{
    reveal(Seq::filter);
    if s.len() == 0 {
    } else {
        let dl = s.drop_last();
        assert(buf_sorted(dl)) by {
            assert forall|i: int, j: int| 0 <= i < j < dl.len() implies dl[i].time
                < dl[j].time by {
                assert(dl[i] == s[i] && dl[j] == s[j]);
            }
        }
        lemma_filter_sorted(dl, pred);
        let f = s.filter(pred);
        let df = dl.filter(pred);
        if pred(s.last()) {
            assert(f == df.push(s.last()));
            assert forall|k: int| #![trigger f[k]]
                0 <= k < f.len() implies exists|i: int| 0 <= i < s.len() && s[i] == f[k] by {
                if k < df.len() {
                    let i = choose|i: int| 0 <= i < dl.len() && dl[i] == df[k];
                    assert(s[i] == f[k]);
                } else {
                    assert(s[s.len() - 1] == f[k]);
                }
            }
            assert forall|i: int, j: int| 0 <= i < j < f.len() implies f[i].time < f[j].time by {
                if j < df.len() {
                    assert(df[i].time < df[j].time);
                } else {
                    let wi = choose|w: int| 0 <= w < dl.len() && dl[w] == df[i];
                    assert(s[wi].time < s.last().time);
                }
            }
        } else {
            assert(f == df);
            assert forall|k: int| #![trigger f[k]]
                0 <= k < f.len() implies exists|i: int| 0 <= i < s.len() && s[i] == f[k] by {
                let i = choose|i: int| 0 <= i < dl.len() && dl[i] == df[k];
                assert(s[i] == f[k]);
            }
        }
    }
}

/// The ticks of `v` from position `from` (inclusive) to `to` (exclusive), as
/// a fresh vector.
fn copy_range(v: &Vec<TickData>, from: usize, to: usize) -> (r: Vec<TickData>)
    requires
        from <= to <= v@.len(),
    ensures
        r@ == v@.subrange(from as int, to as int),
{
    let mut r: Vec<TickData> = Vec::new();
    let mut i = from;
    while i < to
        invariant
            from <= i <= to <= v@.len(),
            r@ == v@.subrange(from as int, i as int),
        decreases to - i,
    {
        r.push(v[i]);
        i += 1;
        proof {
            assert(r@ =~= v@.subrange(from as int, i as int));
        }
    }
    r
}

/// Binary search for the first position whose tick time is at least `t`.
fn lower_bound(v: &Vec<TickData>, t: i64) -> (r: usize)
    requires
        buf_sorted(v@),
    ensures
        r == lb(v@, t as int),
{
    let mut lo: usize = 0;
    let mut hi: usize = v.len();
    while lo < hi
        invariant
            0 <= lo <= hi <= v@.len(),
            buf_sorted(v@),
            forall|j: int| 0 <= j < lo ==> v@[j].time < t,
            forall|j: int| hi <= j < v@.len() ==> v@[j].time >= t,
        decreases hi - lo,
    {
        let mid = lo + (hi - lo) / 2;
        if v[mid].time < t {
            proof {
                assert forall|j: int| 0 <= j < mid + 1 implies v@[j].time < t by {
                    if j < mid {
                        assert(v@[j].time < v@[mid as int].time);
                    }
                }
            }
            lo = mid + 1;
        } else {
            proof {
                assert forall|j: int| mid <= j < v@.len() implies v@[j].time >= t by {
                    if j > mid {
                        assert(v@[mid as int].time < v@[j].time);
                    }
                }
            }
            hi = mid;
        }
    }
    proof {
        lemma_lb_props(v@, t as int);
        let l = lb(v@, t as int);
        if (lo as int) < l {
            assert(v@[lo as int].time < t);
            assert(v@[lo as int].time >= t);
        }
        if (lo as int) > l {
            assert(v@[l].time < t);
            assert(v@[l].time >= t);
        }
    }
    lo
}

/// Insert a tick into a sorted buffer, dropping it when a tick with the same
/// bucket time is already there.
fn insert_tick(v: &Vec<TickData>, t: TickData) -> (r: Vec<TickData>)
    requires
        buf_sorted(v@),
    ensures
        r@ == spec_insert_tick(v@, t),
{
    let n = v.len();
    let pos = lower_bound(v, t.time);
    proof {
        lemma_lb_props(v@, t.time as int);
    }
    if pos < n && v[pos].time == t.time {
        proof {
            assert(has_time(v@, t.time as int));
        }
        copy_range(v, 0, n)
    } else {
        proof {
            if has_time(v@, t.time as int) {
                let i = choose|i: int| 0 <= i < v@.len() && v@[i].time == t.time;
                assert(false);
            }
        }
        let mut r = copy_range(v, 0, pos);
        r.push(t);
        let mut i = pos;
        while i < n
            invariant
                pos <= i <= n == v@.len(),
                r@ == v@.subrange(0, pos as int) + seq![t] + v@.subrange(pos as int, i as int),
            decreases n - i,
        {
            r.push(v[i]);
            i += 1;
            proof {
                assert(r@ =~= v@.subrange(0, pos as int) + seq![t] + v@.subrange(
                    pos as int,
                    i as int,
                ));
            }
        }
        proof {
            assert(r@ =~= v@.insert(pos as int, t));
        }
        r
    }
}

/// The ticks of `v` at or after `cutoff`, as a fresh vector.
fn retain_from(v: &Vec<TickData>, cutoff: i64) -> (r: Vec<TickData>)
    ensures
        r@ == spec_retained(v@, cutoff as int),
{
    let mut r: Vec<TickData> = Vec::new();
    let mut i: usize = 0;
    while i < v.len()
        invariant
            0 <= i <= v@.len(),
            r@ == v@.take(i as int).filter(|x: TickData| x.time >= cutoff),
        decreases v@.len() - i,
    {
        proof {
            let pred = |x: TickData| x.time >= cutoff;
            assert(v@.take(i + 1) =~= v@.take(i as int) + seq![v@[i as int]]);
            Seq::<TickData>::filter_distributes_over_add(v@.take(i as int), seq![v@[i as int]], pred);
            reveal_with_fuel(Seq::filter, 2);
            assert(seq![v@[i as int]].drop_last() =~= Seq::<TickData>::empty());
        }
        if v[i].time >= cutoff {
            r.push(v[i]);
        }
        i += 1;
    }
    proof {
        assert(v@.take(v@.len() as int) =~= v@);
    }
    r
}

/// Upper bound on a configured interval length: about 70 years in
/// milliseconds, so that three retention windows still fit in an `i64`.
pub const MAX_INTERVAL_MS: i64 = 0x4000_0000_0000;

/// A configured candle interval: its name and its length in milliseconds.
pub struct IntervalDef {
    pub name: String,
    pub ms: i64,
}

/// The mathematical value of an interval definition.
#[verifier::ext_equal]
pub struct IvView {
    pub name: Seq<char>,
    pub ms: i64,
}

impl View for IntervalDef {
    type V = IvView;

    open spec fn view(&self) -> IvView {
        IvView { name: self.name@, ms: self.ms }
    }
}

/// All tick buffers of one symbol, aligned with the configured interval
/// list: `bufs[j]` buffers the ticks stored for interval `j`.
pub struct SymbolBuffers {
    pub symbol: String,
    pub bufs: Vec<Vec<TickData>>,
}

/// The mathematical value of one symbol's buffers.
#[verifier::ext_equal]
pub struct RowView {
    pub symbol: Seq<char>,
    pub bufs: Seq<Seq<TickData>>,
}

impl View for SymbolBuffers {
    type V = RowView;

    open spec fn view(&self) -> RowView {
        RowView { symbol: self.symbol@, bufs: self.bufs@.map_values(|b: Vec<TickData>| b@) }
    }
}

/// The position of `sym` in the row list, or `-1` when absent.
pub open spec fn sym_index(rows: Seq<RowView>, sym: Seq<char>) -> int
    decreases rows.len(),
{
    if rows.len() == 0 {
        -1
    } else if rows[0].symbol == sym {
        0
    } else {
        let r = sym_index(rows.subrange(1, rows.len() as int), sym);
        if r < 0 {
            -1
        } else {
            1 + r
        }
    }
}

/// `sym_index` finds the first row with the given symbol, and `-1` exactly
/// when no row has it.
pub proof fn lemma_sym_index(rows: Seq<RowView>, sym: Seq<char>)
    ensures
        sym_index(rows, sym) == -1 ==> forall|k: int|
            0 <= k < rows.len() ==> rows[k].symbol != sym,
        sym_index(rows, sym) != -1 ==> {
            &&& 0 <= sym_index(rows, sym) < rows.len()
            &&& rows[sym_index(rows, sym)].symbol == sym
            &&& forall|k: int| 0 <= k < sym_index(rows, sym) ==> rows[k].symbol != sym
        },
    decreases rows.len(),
{
    if rows.len() == 0 {
    } else if rows[0].symbol == sym {
    } else {
        let tail = rows.subrange(1, rows.len() as int);
        lemma_sym_index(tail, sym);
        assert forall|k: int| 1 <= k < rows.len() implies rows[k] == tail[k - 1] by {}
    }
}

/// A tick inserted into every buffer of a row.
pub open spec fn spec_add_row(r: RowView, t: TickData) -> RowView {
    RowView { symbol: r.symbol, bufs: Seq::new(r.bufs.len(), |j: int| spec_insert_tick(r.bufs[j], t)) }
}

/// A tick added for `sym` across `nivs` configured intervals: inserted into
/// every buffer of the symbol's row, or stored in a fresh row appended at
/// the end when the symbol is new.
pub open spec fn spec_add(rows: Seq<RowView>, nivs: int, sym: Seq<char>, t: TickData) -> Seq<
    RowView,
> {
    let i = sym_index(rows, sym);
    if i < 0 {
        rows.push(RowView { symbol: sym, bufs: Seq::new(nivs as nat, |j: int| seq![t]) })
    } else {
        rows.update(i, spec_add_row(rows[i], t))
    }
}

/// An observation time truncated to its whole second.
pub open spec fn spec_bucket(now: i64) -> i64 {
    (now - now % 1000) as i64
}

/// A row is well-formed against `nivs` configured intervals: one sorted
/// buffer per interval.
pub open spec fn row_wf(r: RowView, nivs: int) -> bool {
    &&& r.bufs.len() == nivs
    &&& forall|j: int| 0 <= j < r.bufs.len() ==> buf_sorted(#[trigger] r.bufs[j])
}

/// The streaming aggregation engine: per-symbol, per-interval tick buffers.
pub struct KlineAggregator {
    intervals: Vec<IntervalDef>,
    max_interval_ms: i64,
    buffers: Vec<SymbolBuffers>,
    pub debug: bool,
}

impl KlineAggregator {
    /// The configured intervals, in configuration order.
    pub closed spec fn ivs(&self) -> Seq<IvView> {
        self.intervals@.map_values(|d: IntervalDef| d@)
    }

    /// The buffered rows, one per symbol, in first-add order.
    pub closed spec fn rows(&self) -> Seq<RowView> {
        self.buffers@.map_values(|r: SymbolBuffers| r@)
    }

    /// The longest configured interval, in milliseconds.
    pub closed spec fn max_ms(&self) -> i64 {
        self.max_interval_ms
    }

    /// Whether verbose diagnostics were requested at construction.
    pub closed spec fn debug_spec(&self) -> bool {
        self.debug
    }

    /// Well-formedness: positive, bounded, distinctly named intervals;
    /// `max_ms` is their maximum; every row is aligned with the interval
    /// list, has sorted buffers, and symbols are distinct.
    pub closed spec fn wf(&self) -> bool {
        &&& 0 < self.ivs().len()
        &&& forall|j: int|
            0 <= j < self.ivs().len() ==> 0 < #[trigger] self.ivs()[j].ms <= MAX_INTERVAL_MS
        &&& forall|j1: int, j2: int|
            0 <= j1 < j2 < self.ivs().len() ==> self.ivs()[j1].name != self.ivs()[j2].name
        &&& forall|j: int| 0 <= j < self.ivs().len() ==> #[trigger] self.ivs()[j].ms <= self.max_ms()
        &&& exists|j: int| 0 <= j < self.ivs().len() && #[trigger] self.ivs()[j].ms == self.max_ms()
        &&& forall|i: int|
            0 <= i < self.rows().len() ==> row_wf(#[trigger] self.rows()[i], self.ivs().len() as int)
        &&& forall|i1: int, i2: int|
            0 <= i1 < i2 < self.rows().len() ==> self.rows()[i1].symbol != self.rows()[i2].symbol
    }

    /// A fresh engine with the default interval configuration: one-minute
    /// candles.
    pub fn new(debug: bool) -> (r: Self)
        ensures
            r.wf(),
            r.ivs() =~= seq![IvView { name: "1m"@, ms: 60000 }],
            r.max_ms() == 60000,
            r.rows() =~= Seq::<RowView>::empty(),
            r.debug_spec() == debug,
    {
        let mut intervals: Vec<IntervalDef> = Vec::new();
        intervals.push(IntervalDef { name: "1m".to_owned(), ms: 60000 });
        let r = Self { intervals, max_interval_ms: 60000, buffers: Vec::new(), debug };
        proof {
            assert(r.ivs() =~= seq![IvView { name: "1m"@, ms: 60000 }]);
            assert(r.rows() =~= Seq::<RowView>::empty());
            assert(r.ivs()[0].ms == 60000);
        }
        r
    }

    /// Record one price observation for `symbol` at time `now_ms`.
    ///
    /// The observation time is truncated to its whole second; the tick is
    /// stored once per configured interval, unless that buffer already holds
    /// a tick with the identical bucket time (duplicate observations within
    /// one second are silently dropped).
    pub fn add_price(&mut self, symbol: &str, price: i64, volume: i64, now_ms: i64)
        requires
            old(self).wf(),
            0 <= now_ms,
        ensures
            final(self).wf(),
            final(self).ivs() == old(self).ivs(),
            final(self).max_ms() == old(self).max_ms(),
            final(self).debug_spec() == old(self).debug_spec(),
            final(self).rows() == spec_add(
                old(self).rows(),
                old(self).ivs().len() as int,
                symbol@,
                TickData { price, time: spec_bucket(now_ms), volume },
            ),
    {
        let bucket = now_ms - now_ms % 1000;
        let t = TickData { price, time: bucket, volume };
        proof {
            assert(t == TickData { price, time: spec_bucket(now_ms), volume });
        }
        let key: String = symbol.to_owned();
        let nivs = self.intervals.len();
        let found = find_symbol(&self.buffers, &key);
        proof {
            lemma_sym_index(self.rows(), symbol@);
        }
        match found {
            Some(i) => {
                let ghost r0 = self.buffers@[i as int]@;
                proof {
                    let rows = old(self).rows();
                    assert(rows[i as int] == old(self).buffers@[i as int]@);
                    assert forall|k: int| 0 <= k < i implies rows[k].symbol != symbol@ by {
                        assert(rows[k] == old(self).buffers@[k]@);
                    }
                    let si = sym_index(rows, symbol@);
                    if si == -1 {
                        assert(rows[i as int].symbol != symbol@);
                    } else if si < i as int {
                        assert(rows[si].symbol != symbol@);
                    } else if si > i as int {
                        assert(rows[i as int].symbol != symbol@);
                    }
                    assert(sym_index(old(self).rows(), symbol@) == i as int);
                    assert(row_wf(old(self).rows()[i as int], old(self).ivs().len() as int));
                }
                let sym_copy = self.buffers[i].symbol.clone();
                let mut newbufs: Vec<Vec<TickData>> = Vec::new();
                let mut j: usize = 0;
                while j < nivs
                    invariant
                        0 <= j <= nivs,
                        i < self.buffers@.len(),
                        *self == *old(self),
                        r0 == self.buffers@[i as int]@,
                        row_wf(r0, nivs as int),
                        newbufs@.len() == j,
                        forall|jj: int|
                            0 <= jj < j ==> #[trigger] newbufs@[jj]@ == spec_insert_tick(
                                r0.bufs[jj],
                                t,
                            ),
                    decreases nivs - j,
                {
                    proof {
                        assert(r0.bufs[j as int] == self.buffers@[i as int].bufs@[j as int]@);
                        assert(buf_sorted(r0.bufs[j as int]));
                    }
                    let nb = insert_tick(&self.buffers[i].bufs[j], t);
                    newbufs.push(nb);
                    j += 1;
                }
                let new_row = SymbolBuffers { symbol: sym_copy, bufs: newbufs };
                self.buffers.remove(i);
                self.buffers.insert(i, new_row);
                proof {
                    let tick = TickData { price, time: spec_bucket(now_ms), volume };
                    assert(new_row@ =~~= spec_add_row(r0, tick));
                    assert(self.rows() =~~= old(self).rows().update(
                        i as int,
                        spec_add_row(r0, tick),
                    ));
                    assert(self.ivs() =~= old(self).ivs());
                    assert forall|ii: int|
                        0 <= ii < self.rows().len() implies row_wf(
                        #[trigger] self.rows()[ii],
                        self.ivs().len() as int,
                    ) by {
                        if ii == i as int {
                            assert forall|jj: int|
                                0 <= jj < self.rows()[ii].bufs.len() implies buf_sorted(
                                #[trigger] self.rows()[ii].bufs[jj],
                            ) by {
                                lemma_insert_tick_sorted(r0.bufs[jj], tick);
                            }
                        } else {
                            assert(self.rows()[ii] == old(self).rows()[ii]);
                            assert(row_wf(old(self).rows()[ii], old(self).ivs().len() as int));
                        }
                    }
                }
            },
            None => {
                proof {
                    assert(sym_index(old(self).rows(), symbol@) == -1);
                }
                let mut newbufs: Vec<Vec<TickData>> = Vec::new();
                let mut j: usize = 0;
                while j < nivs
                    invariant
                        0 <= j <= nivs,
                        newbufs@.len() == j,
                        forall|jj: int| 0 <= jj < j ==> #[trigger] newbufs@[jj]@ == seq![t],
                    decreases nivs - j,
                {
                    let mut nb: Vec<TickData> = Vec::new();
                    nb.push(t);
                    proof {
                        assert(nb@ =~= seq![t]);
                    }
                    newbufs.push(nb);
                    j += 1;
                }
                self.buffers.push(SymbolBuffers { symbol: key, bufs: newbufs });
                proof {
                    let tick = TickData { price, time: spec_bucket(now_ms), volume };
                    let new_rv = RowView {
                        symbol: symbol@,
                        bufs: Seq::new(old(self).ivs().len() as nat, |jj: int| seq![tick]),
                    };
                    assert(self.buffers@[old(self).buffers@.len() as int]@ =~~= new_rv);
                    assert(self.rows() =~~= old(self).rows().push(new_rv));
                    assert(self.ivs() =~= old(self).ivs());
                    assert forall|ii: int|
                        0 <= ii < self.rows().len() implies row_wf(
                        #[trigger] self.rows()[ii],
                        self.ivs().len() as int,
                    ) by {
                        if ii < old(self).rows().len() {
                            assert(self.rows()[ii] == old(self).rows()[ii]);
                            assert(row_wf(old(self).rows()[ii], old(self).ivs().len() as int));
                        } else {
                            assert(self.rows()[ii] == new_rv);
                        }
                    }
                }
            },
        }
    }

    /// Extract the completed candles for the requested intervals.
    ///
    /// For every buffered symbol, each requested interval whose most
    /// recently completed wall-clock-aligned window holds at least one tick
    /// yields one candle, and every tick before that window's end —
    /// stragglers older than the window included — is discarded. Afterwards
    /// each symbol's buffers, requested or not, drop ticks older than three
    /// times the longest configured interval.
    pub fn extract_ohlc(
        &mut self,
        intervals: &Vec<String>,
        now_ms: i64,
    ) -> (r: Vec<SymbolKlineData>)
        requires
            old(self).wf(),
            0 <= now_ms,
        ensures
            final(self).wf(),
            final(self).ivs() == old(self).ivs(),
            final(self).max_ms() == old(self).max_ms(),
            final(self).debug_spec() == old(self).debug_spec(),
            r@.map_values(|k: SymbolKlineData| k@) == extraction_candles(
                old(self),
                intervals@.map_values(|s: String| s@),
                now_ms as int,
            ),
            final(self).rows() == extraction_rows(
                old(self),
                intervals@.map_values(|s: String| s@),
                now_ms as int,
            ),
    {
        let ghost reqsv = intervals@.map_values(|s: String| s@);
        let ghost cfgv = self.ivs();
        let ghost rows0 = self.rows();
        proof {
            let jmax = choose|jm: int|
                0 <= jm < self.ivs().len() && #[trigger] self.ivs()[jm].ms == self.max_ms();
            assert(0 < self.max_ms() <= MAX_INTERVAL_MS);
        }
        let cutoff = now_ms - 3 * self.max_interval_ms;
        let n = self.buffers.len();
        let mut out: Vec<SymbolKlineData> = Vec::new();
        let mut new_rows: Vec<SymbolBuffers> = Vec::new();
        let mut i: usize = 0;
        proof {
            assert(rows0.take(0) =~= Seq::<RowView>::empty());
        }
        while i < n
            invariant
                0 <= i <= n == self.buffers@.len(),
                *self == *old(self),
                self.wf(),
                0 <= now_ms,
                reqsv == intervals@.map_values(|s: String| s@),
                cfgv == self.ivs(),
                rows0 == self.rows(),
                cutoff as int == now_ms - 3 * self.max_ms(),
                new_rows@.len() == i,
                out@.map_values(|k: SymbolKlineData| k@) == spec_extract(
                    rows0.take(i as int),
                    cfgv,
                    reqsv,
                    now_ms as int,
                    cutoff as int,
                ).0,
                new_rows@.map_values(|rw: SymbolBuffers| rw@) == spec_extract(
                    rows0.take(i as int),
                    cfgv,
                    reqsv,
                    now_ms as int,
                    cutoff as int,
                ).1,
                forall|ii: int| 0 <= ii < i ==> row_wf(#[trigger] new_rows@[ii]@, cfgv.len() as int),
                forall|ii: int|
                    0 <= ii < i ==> #[trigger] new_rows@[ii]@.symbol == rows0[ii].symbol,
            decreases n - i,
        {
            let ghost outp = out@.map_values(|k: SymbolKlineData| k@);
            let row = &self.buffers[i];
            proof {
                assert(row@ == rows0[i as int]);
                assert(row_wf(rows0[i as int], cfgv.len() as int));
                assert forall|jj: int|
                    0 <= jj < self.intervals@.len() implies 0 < #[trigger] self.intervals@[jj]@.ms
                    <= MAX_INTERVAL_MS by {
                    assert(self.intervals@[jj]@ == self.ivs()[jj]);
                }
            }
            let new_row = flush_symbol(row, &self.intervals, intervals, now_ms, cutoff, &mut out);
            new_rows.push(new_row);
            i += 1;
            proof {
                let ip = i as int - 1;
                assert(rows0.take(i as int).drop_last() =~= rows0.take(ip));
                assert(rows0.take(i as int).last() == rows0[ip]);
                let prev = spec_extract(rows0.take(ip), cfgv, reqsv, now_ms as int, cutoff as int);
                let fl = spec_flush_row(
                    rows0[ip].symbol,
                    rows0[ip].bufs,
                    cfgv,
                    reqsv,
                    now_ms as int,
                );
                assert(self.intervals@.map_values(|d: IntervalDef| d@) == cfgv);
                assert(new_row@ =~~= RowView {
                    symbol: rows0[ip].symbol,
                    bufs: spec_cleanup_bufs(fl.1, cutoff as int),
                });
                let cur = spec_extract(
                    rows0.take(i as int),
                    cfgv,
                    reqsv,
                    now_ms as int,
                    cutoff as int,
                );
                assert(cur.0 == prev.0 + fl.0);
                assert(cur.1 == prev.1.push(RowView {
                    symbol: rows0[ip].symbol,
                    bufs: spec_cleanup_bufs(fl.1, cutoff as int),
                }));
                assert(out@.map_values(|k: SymbolKlineData| k@) == outp + fl.0);
                assert(new_rows@.map_values(|rw: SymbolBuffers| rw@) =~= prev.1.push(new_row@));
                assert(self.intervals@.len() == cfgv.len());
                assert forall|ii: int| 0 <= ii < i implies row_wf(
                    #[trigger] new_rows@[ii]@,
                    cfgv.len() as int,
                ) by {
                    if ii == ip {
                        assert(new_rows@[ii]@ == new_row@);
                    }
                }
                assert forall|ii: int|
                    0 <= ii < i implies #[trigger] new_rows@[ii]@.symbol == rows0[ii].symbol by {
                    if ii == ip {
                        assert(new_rows@[ii]@ == new_row@);
                    }
                }
            }
        }
        self.buffers = new_rows;
        proof {
            assert(rows0.take(n as int) =~= rows0);
            assert(self.rows() == new_rows@.map_values(|rw: SymbolBuffers| rw@));
            assert forall|i1: int, i2: int|
                0 <= i1 < i2 < self.rows().len() implies self.rows()[i1].symbol
                != self.rows()[i2].symbol by {
                assert(self.rows()[i1] == new_rows@[i1]@);
                assert(self.rows()[i2] == new_rows@[i2]@);
                assert(self.rows()[i1].symbol == rows0[i1].symbol);
                assert(self.rows()[i2].symbol == rows0[i2].symbol);
            }
            assert(self.ivs() =~= old(self).ivs());
        }
        out
    }
}

/// The most recently completed window boundary: `now` truncated down to a
/// multiple of the interval length.
pub open spec fn candle_end(now: int, ms: int) -> int {
    now - now % ms
}

/// The position of interval `name` in the configuration, or `-1` when the
/// interval is not configured.
pub open spec fn iv_index(ivs: Seq<IvView>, name: Seq<char>) -> int
    decreases ivs.len(),
{
    if ivs.len() == 0 {
        -1
    } else if ivs[0].name == name {
        0
    } else {
        let r = iv_index(ivs.subrange(1, ivs.len() as int), name);
        if r < 0 {
            -1
        } else {
            1 + r
        }
    }
}

/// `iv_index` finds the first interval with the given name, and `-1` exactly
/// when no interval has it.
pub proof fn lemma_iv_index(ivs: Seq<IvView>, name: Seq<char>)
    ensures
        iv_index(ivs, name) == -1 ==> forall|k: int| 0 <= k < ivs.len() ==> ivs[k].name != name,
        iv_index(ivs, name) != -1 ==> {
            &&& 0 <= iv_index(ivs, name) < ivs.len()
            &&& ivs[iv_index(ivs, name)].name == name
            &&& forall|k: int| 0 <= k < iv_index(ivs, name) ==> ivs[k].name != name
        },
    decreases ivs.len(),
{
    if ivs.len() == 0 {
    } else if ivs[0].name == name {
    } else {
        let tail = ivs.subrange(1, ivs.len() as int);
        lemma_iv_index(tail, name);
        assert forall|k: int| 1 <= k < ivs.len() implies ivs[k] == tail[k - 1] by {}
    }
}

/// Larger thresholds have larger lower bounds on a sorted buffer.
pub proof fn lemma_lb_mono(s: Seq<TickData>, t1: int, t2: int)
    requires
        buf_sorted(s),
        t1 <= t2,
    ensures
        lb(s, t1) <= lb(s, t2),
{
    lemma_lb_props(s, t1);
    lemma_lb_props(s, t2);
    if lb(s, t1) > lb(s, t2) {
        assert(s[lb(s, t2)].time < t1);
        assert(s[lb(s, t2)].time >= t2);
    }
}

/// A contiguous part of a sorted buffer is sorted.
pub proof fn lemma_subrange_sorted(s: Seq<TickData>, a: int, b: int)
    requires
        buf_sorted(s),
        0 <= a <= b <= s.len(),
    ensures
        buf_sorted(s.subrange(a, b)),
{
    let w = s.subrange(a, b);
    assert forall|i: int, j: int| 0 <= i < j < w.len() implies w[i].time < w[j].time by {
        assert(w[i] == s[a + i] && w[j] == s[a + j]);
    }
}

/// A strictly sorted buffer spreads out: its last time exceeds its first by
/// at least its length minus one.
pub proof fn lemma_sorted_spread(s: Seq<TickData>)
    requires
        buf_sorted(s),
        1 <= s.len(),
    ensures
        s.last().time - s[0].time >= s.len() - 1,
    decreases s.len(),
{
    if s.len() > 1 {
        let dl = s.drop_last();
        lemma_subrange_sorted(s, 0, s.len() - 1);
        assert(dl =~= s.subrange(0, s.len() - 1));
        lemma_sorted_spread(dl);
        assert(dl.last().time < s.last().time);
    }
}

/// The highest tick price in `s` (the smallest `i64` when `s` is empty).
pub open spec fn max_price(s: Seq<TickData>) -> i64
    decreases s.len(),
{
    if s.len() == 0 {
        i64::MIN
    } else {
        let m = max_price(s.drop_last());
        if s.last().price > m {
            s.last().price
        } else {
            m
        }
    }
}

/// The lowest tick price in `s` (the largest `i64` when `s` is empty).
pub open spec fn min_price(s: Seq<TickData>) -> i64
    decreases s.len(),
{
    if s.len() == 0 {
        i64::MAX
    } else {
        let m = min_price(s.drop_last());
        if s.last().price < m {
            s.last().price
        } else {
            m
        }
    }
}

/// The sum of the tick volumes in `s`.
pub open spec fn sum_vol(s: Seq<TickData>) -> int
    decreases s.len(),
{
    if s.len() == 0 {
        0
    } else {
        sum_vol(s.drop_last()) + s.last().volume
    }
}

/// The candle built from the non-empty, sorted window `w`: `open` from its
/// earliest tick, `close` from its latest, extrema and volume sum over all
/// of it, and the window start as the candle's open time.
pub open spec fn spec_candle(
    sym: Seq<char>,
    ivname: Seq<char>,
    w: Seq<TickData>,
    open_time: i64,
) -> CandleView {
    CandleView {
        symbol: sym,
        interval: ivname,
        open: w[0].price,
        high: max_price(w),
        low: min_price(w),
        close: w.last().price,
        open_time_ms: open_time,
        volume: sum_vol(w),
        trade_count: w.len() as int,
    }
}

/// The ticks of the most recently completed window of `s`.
pub open spec fn spec_window(s: Seq<TickData>, ms: int, now: int) -> Seq<TickData> {
    let cend = candle_end(now, ms);
    s.subrange(lb(s, cend - ms), lb(s, cend))
}

/// Whether extraction emits a candle for `s`: the completed window holds at
/// least one tick.
pub open spec fn spec_emits(s: Seq<TickData>, ms: int, now: int) -> bool {
    let cend = candle_end(now, ms);
    lb(s, cend - ms) != lb(s, cend)
}

/// The buffer after a candle was cut out of it: everything before the
/// window's end is discarded, stragglers older than the window included.
/// When no candle is emitted the buffer is untouched.
pub open spec fn spec_flush_buf(s: Seq<TickData>, ms: int, now: int) -> Seq<TickData> {
    if spec_emits(s, ms, now) {
        s.subrange(lb(s, candle_end(now, ms)), s.len() as int)
    } else {
        s
    }
}

/// One symbol's buffers run through the requested intervals, in request
/// order: each request that names a configured interval with a non-empty
/// completed window emits one candle and evicts the consumed prefix.
pub open spec fn spec_flush_row(
    sym: Seq<char>,
    bufs: Seq<Seq<TickData>>,
    ivs: Seq<IvView>,
    reqs: Seq<Seq<char>>,
    now: int,
) -> (Seq<CandleView>, Seq<Seq<TickData>>)
    decreases reqs.len(),
{
    if reqs.len() == 0 {
        (Seq::empty(), bufs)
    } else {
        let (cs, bs) = spec_flush_row(sym, bufs, ivs, reqs.drop_last(), now);
        let j = iv_index(ivs, reqs.last());
        if j < 0 {
            (cs, bs)
        } else {
            let ms = ivs[j].ms as int;
            if !spec_emits(bs[j], ms, now) {
                (cs, bs)
            } else {
                let cend = candle_end(now, ms);
                let w = spec_window(bs[j], ms, now);
                (
                    cs.push(spec_candle(sym, ivs[j].name, w, (cend - ms) as i64)),
                    bs.update(j, spec_flush_buf(bs[j], ms, now)),
                )
            }
        }
    }
}

/// Retention applied to every buffer of a row.
pub open spec fn spec_cleanup_bufs(bufs: Seq<Seq<TickData>>, cutoff: int) -> Seq<Seq<TickData>> {
    Seq::new(bufs.len(), |j: int| spec_retained(bufs[j], cutoff))
}

/// The whole extraction: every row is flushed against the requested
/// intervals and then cleaned up against the retention cutoff; the candles
/// of all rows are returned in row order.
pub open spec fn spec_extract(
    rows: Seq<RowView>,
    ivs: Seq<IvView>,
    reqs: Seq<Seq<char>>,
    now: int,
    cutoff: int,
) -> (Seq<CandleView>, Seq<RowView>)
    decreases rows.len(),
{
    if rows.len() == 0 {
        (Seq::empty(), Seq::empty())
    } else {
        let (cs, rs) = spec_extract(rows.drop_last(), ivs, reqs, now, cutoff);
        let row = rows.last();
        let (rcs, rbufs) = spec_flush_row(row.symbol, row.bufs, ivs, reqs, now);
        (
            cs + rcs,
            rs.push(RowView { symbol: row.symbol, bufs: spec_cleanup_bufs(rbufs, cutoff) }),
        )
    }

}

/// The candles one extraction call on `agg` returns: `spec_extract` with
/// the engine's configuration and the retention cutoff derived from `now`.
pub open spec fn extraction_candles(
    agg: &KlineAggregator,
    reqs: Seq<Seq<char>>,
    now: int,
) -> Seq<CandleView> {
    spec_extract(agg.rows(), agg.ivs(), reqs, now, now - 3 * agg.max_ms()).0
}

/// The rows one extraction call on `agg` leaves behind.
pub open spec fn extraction_rows(
    agg: &KlineAggregator,
    reqs: Seq<Seq<char>>,
    now: int,
) -> Seq<RowView> {
    spec_extract(agg.rows(), agg.ivs(), reqs, now, now - 3 * agg.max_ms()).1
}

/// The position of the row holding `key`, scanning from the front.
fn find_symbol(buffers: &Vec<SymbolBuffers>, key: &String) -> (r: Option<usize>)
    ensures
        match r {
            Some(i) => {
                &&& i < buffers@.len()
                &&& buffers@[i as int]@.symbol == key@
                &&& forall|k: int| 0 <= k < i ==> buffers@[k]@.symbol != key@
            },
            None => forall|k: int| 0 <= k < buffers@.len() ==> buffers@[k]@.symbol != key@,
        },
{
    let mut i: usize = 0;
    while i < buffers.len()
        invariant
            0 <= i <= buffers@.len(),
            forall|k: int| 0 <= k < i ==> buffers@[k]@.symbol != key@,
        decreases buffers@.len() - i,
    {
        if buffers[i].symbol == *key {
            return Some(i);
        }
        i += 1;
    }
    None
}

/// The position of the configured interval named `name`, scanning from the
/// front.
fn find_interval(cfg: &Vec<IntervalDef>, name: &String) -> (r: Option<usize>)
    ensures
        match r {
            Some(j) => {
                &&& j < cfg@.len()
                &&& cfg@[j as int]@.name == name@
                &&& forall|k: int| 0 <= k < j ==> cfg@[k]@.name != name@
            },
            None => forall|k: int| 0 <= k < cfg@.len() ==> cfg@[k]@.name != name@,
        },
{
    let mut j: usize = 0;
    while j < cfg.len()
        invariant
            0 <= j <= cfg@.len(),
            forall|k: int| 0 <= k < j ==> cfg@[k]@.name != name@,
        decreases cfg@.len() - j,
    {
        if cfg[j].name == *name {
            return Some(j);
        }
        j += 1;
    }
    None
}

/// Build one candle from the window `[lo, hi)` of a sorted buffer.
fn build_kline(
    symbol: &String,
    ivname: &String,
    buf: &Vec<TickData>,
    lo: usize,
    hi: usize,
    open_time: i64,
) -> (c: SymbolKlineData)
    requires
        lo < hi <= buf@.len(),
        buf_sorted(buf@),
        buf@[hi as int - 1].time - buf@[lo as int].time < MAX_INTERVAL_MS,
    ensures
        c@ == spec_candle(symbol@, ivname@, buf@.subrange(lo as int, hi as int), open_time),
{
    let ghost w = buf@.subrange(lo as int, hi as int);
    proof {
        lemma_subrange_sorted(buf@, lo as int, hi as int);
        if w.len() >= 1 {
            lemma_sorted_spread(w);
        }
        assert(w.len() <= MAX_INTERVAL_MS);
        assert(max_price(Seq::<TickData>::empty()) == i64::MIN);
        assert(min_price(Seq::<TickData>::empty()) == i64::MAX);
        assert(sum_vol(Seq::<TickData>::empty()) == 0);
        assert(w.take(1).drop_last() =~= Seq::<TickData>::empty());
        assert(w.take(1).last() == buf@[lo as int] && w.take(1).len() == 1);
        assert(max_price(w.take(1)) == buf@[lo as int].price);
        assert(min_price(w.take(1)) == buf@[lo as int].price);
        assert(sum_vol(w.take(1)) == buf@[lo as int].volume);
    }
    let first = buf[lo];
    let mut high = first.price;
    let mut low = first.price;
    let mut vol: i128 = first.volume as i128;
    let mut k: usize = lo + 1;
    while k < hi
        invariant
            lo + 1 <= k <= hi <= buf@.len(),
            w == buf@.subrange(lo as int, hi as int),
            w.len() <= MAX_INTERVAL_MS,
            high == max_price(w.take(k - lo)),
            low == min_price(w.take(k - lo)),
            vol as int == sum_vol(w.take(k - lo)),
            -((k - lo) * 0x8000_0000_0000_0000) <= vol as int <= (k - lo)
                * 0x8000_0000_0000_0000,
        decreases hi - k,
    {
        proof {
            assert(w.take(k - lo + 1).drop_last() =~= w.take(k - lo));
            assert(w.take(k - lo + 1).last() == w[k - lo] && w[k - lo] == buf@[k as int]);
        }
        let tk = buf[k];
        if tk.price > high {
            high = tk.price;
        }
        if tk.price < low {
            low = tk.price;
        }
        vol = vol + tk.volume as i128;
        k += 1;
    }
    proof {
        assert(w.take((hi - lo) as int) =~= w);
    }
    let c = SymbolKlineData {
        symbol: symbol.clone(),
        interval: ivname.clone(),
        open: first.price,
        high,
        low,
        close: buf[hi - 1].price,
        open_time_ms: open_time,
        volume: vol,
        trade_count: (hi - lo) as i64,
    };
    proof {
        assert(w[0] == buf@[lo as int] && w.last() == buf@[hi as int - 1]);
        assert(c@ == spec_candle(symbol@, ivname@, w, open_time));
    }
    c
}

/// Flush one symbol's buffers against the requested intervals and apply
/// retention cleanup; emitted candles are appended to `out`.
fn flush_symbol(
    row: &SymbolBuffers,
    cfg: &Vec<IntervalDef>,
    reqs: &Vec<String>,
    now_ms: i64,
    cutoff: i64,
    out: &mut Vec<SymbolKlineData>,
) -> (new_row: SymbolBuffers)
    requires
        row_wf(row@, cfg@.len() as int),
        forall|j: int| 0 <= j < cfg@.len() ==> 0 < #[trigger] cfg@[j]@.ms <= MAX_INTERVAL_MS,
        0 <= now_ms,
    ensures
        ({
            let fl = spec_flush_row(
                row@.symbol,
                row@.bufs,
                cfg@.map_values(|d: IntervalDef| d@),
                reqs@.map_values(|s: String| s@),
                now_ms as int,
            );
            &&& final(out)@.map_values(|k: SymbolKlineData| k@) == old(out)@.map_values(
                |k: SymbolKlineData| k@,
            ) + fl.0
            &&& new_row@.symbol == row@.symbol
            &&& new_row@.bufs == spec_cleanup_bufs(fl.1, cutoff as int)
            &&& row_wf(new_row@, cfg@.len() as int)
        }),
{
    let ghost sym = row@.symbol;
    let ghost cfgv = cfg@.map_values(|d: IntervalDef| d@);
    let ghost reqsv = reqs@.map_values(|s: String| s@);
    let ghost bufs0 = row@.bufs;
    let ghost out0 = out@.map_values(|k: SymbolKlineData| k@);
    let nivs = cfg.len();
    let mut bufs: Vec<Vec<TickData>> = Vec::new();
    let mut j: usize = 0;
    while j < nivs
        invariant
            0 <= j <= nivs == row.bufs@.len(),
            bufs0 == row@.bufs,
            bufs@.len() == j,
            forall|jj: int| 0 <= jj < j ==> #[trigger] bufs@[jj]@ == bufs0[jj],
        decreases nivs - j,
    {
        let blen = row.bufs[j].len();
        let b = copy_range(&row.bufs[j], 0, blen);
        proof {
            assert(b@ =~= bufs0[j as int]);
        }
        bufs.push(b);
        j += 1;
    }
    let nreqs = reqs.len();
    let mut r: usize = 0;
    proof {
        assert(reqsv.take(0) =~= Seq::<Seq<char>>::empty());
        assert(bufs@.map_values(|b: Vec<TickData>| b@) =~= bufs0);
        assert forall|jj: int| 0 <= jj < nivs implies buf_sorted(#[trigger] bufs@[jj]@) by {
            assert(buf_sorted(bufs0[jj]));
        }
    }
    while r < nreqs
        invariant
            0 <= r <= nreqs == reqs@.len(),
            nivs == cfg@.len(),
            sym == row@.symbol,
            cfgv == cfg@.map_values(|d: IntervalDef| d@),
            reqsv == reqs@.map_values(|s: String| s@),
            0 <= now_ms,
            forall|jj: int| 0 <= jj < cfg@.len() ==> 0 < #[trigger] cfg@[jj]@.ms <= MAX_INTERVAL_MS,
            bufs@.len() == nivs,
            forall|jj: int| 0 <= jj < nivs ==> buf_sorted(#[trigger] bufs@[jj]@),
            out@.map_values(|k: SymbolKlineData| k@) == out0 + spec_flush_row(
                sym,
                bufs0,
                cfgv,
                reqsv.take(r as int),
                now_ms as int,
            ).0,
            bufs@.map_values(|b: Vec<TickData>| b@) == spec_flush_row(
                sym,
                bufs0,
                cfgv,
                reqsv.take(r as int),
                now_ms as int,
            ).1,
        decreases nreqs - r,
    {
        let ghost prev = spec_flush_row(sym, bufs0, cfgv, reqsv.take(r as int), now_ms as int);
        let ghost cur_reqs = reqsv.take(r as int + 1);
        proof {
            assert(cur_reqs.drop_last() =~= reqsv.take(r as int));
            assert(cur_reqs.last() == reqsv[r as int]);
            assert(reqsv[r as int] == reqs@[r as int]@);
            lemma_iv_index(cfgv, reqsv[r as int]);
        }
        let jopt = find_interval(cfg, &reqs[r]);
        match jopt {
            None => {
                proof {
                    let ji = iv_index(cfgv, reqsv[r as int]);
                    if ji != -1 {
                        assert(cfgv[ji] == cfg@[ji]@);
                    }
                    assert(spec_flush_row(sym, bufs0, cfgv, cur_reqs, now_ms as int) == prev);
                }
            },
            Some(j) => {
                proof {
                    let ji = iv_index(cfgv, reqsv[r as int]);
                    assert(cfgv[j as int] == cfg@[j as int]@);
                    if ji == -1 {
                        assert(cfgv[j as int].name != reqsv[r as int]);
                    } else {
                        if ji < j as int {
                            assert(cfgv[ji] == cfg@[ji]@);
                        }
                        if ji > j as int {
                            assert(cfgv[j as int].name != reqsv[r as int]);
                        }
                    }
                    assert(iv_index(cfgv, reqsv[r as int]) == j as int);
                }
                let ms = cfg[j].ms;
                proof {
                    assert(0 < cfg@[j as int]@.ms <= MAX_INTERVAL_MS);
                    assert(ms == cfg@[j as int]@.ms);
                }
                let cend = now_ms - now_ms % ms;
                let cstart = cend - ms;
                let ghost s = bufs@[j as int]@;
                proof {
                    assert(s == prev.1[j as int]);
                    assert(cend as int == candle_end(now_ms as int, ms as int));
                    lemma_lb_mono(s, cstart as int, cend as int);
                    lemma_lb_props(s, cstart as int);
                    lemma_lb_props(s, cend as int);
                }
                let lo = lower_bound(&bufs[j], cstart);
                let hi = lower_bound(&bufs[j], cend);
                if lo < hi {
                    proof {
                        assert(s[hi as int - 1].time < cend);
                        assert(s[lo as int].time >= cstart);
                    }
                    let candle = build_kline(&row.symbol, &cfg[j].name, &bufs[j], lo, hi, cstart);
                    out.push(candle);
                    let blen = bufs[j].len();
                    let rest = copy_range(&bufs[j], hi, blen);
                    bufs.remove(j);
                    bufs.insert(j, rest);
                    proof {
                        assert(spec_emits(s, ms as int, now_ms as int));
                        let w = spec_window(s, ms as int, now_ms as int);
                        assert(w == s.subrange(lo as int, hi as int));
                        assert(candle@ == spec_candle(sym, cfgv[j as int].name, w, cstart));
                        let cur = spec_flush_row(sym, bufs0, cfgv, cur_reqs, now_ms as int);
                        assert(cur.0 == prev.0.push(candle@));
                        assert(cur.1 == prev.1.update(
                            j as int,
                            spec_flush_buf(s, ms as int, now_ms as int),
                        ));
                        assert(rest@ == spec_flush_buf(s, ms as int, now_ms as int));
                        assert(out@.map_values(|k: SymbolKlineData| k@) =~= (out0
                            + prev.0).push(candle@));
                        assert((out0 + prev.0).push(candle@) =~= out0 + prev.0.push(candle@));
                        assert(out@.map_values(|k: SymbolKlineData| k@) =~= out0 + cur.0);
                        assert(bufs@.map_values(|b: Vec<TickData>| b@) =~= cur.1);
                        lemma_subrange_sorted(s, hi as int, s.len() as int);
                        assert forall|jj: int| 0 <= jj < nivs implies buf_sorted(
                            #[trigger] bufs@[jj]@,
                        ) by {
                            if jj != j as int {
                                assert(bufs@[jj]@ == prev.1[jj]);
                            }
                        }
                    }
                } else {
                    proof {
                        assert(!spec_emits(s, ms as int, now_ms as int));
                        assert(spec_flush_row(sym, bufs0, cfgv, cur_reqs, now_ms as int) == prev);
                    }
                }
            },
        }
        r += 1;
    }
    let ghost fl = spec_flush_row(sym, bufs0, cfgv, reqsv, now_ms as int);
    proof {
        assert(reqsv.take(nreqs as int) =~= reqsv);
    }
    let mut cleaned: Vec<Vec<TickData>> = Vec::new();
    let mut j2: usize = 0;
    while j2 < nivs
        invariant
            0 <= j2 <= nivs == bufs@.len(),
            bufs@.map_values(|b: Vec<TickData>| b@) == fl.1,
            forall|jj: int| 0 <= jj < nivs ==> buf_sorted(#[trigger] bufs@[jj]@),
            cleaned@.len() == j2,
            forall|jj: int|
                0 <= jj < j2 ==> #[trigger] cleaned@[jj]@ == spec_retained(fl.1[jj], cutoff as int),
            forall|jj: int| 0 <= jj < j2 ==> buf_sorted(#[trigger] cleaned@[jj]@),
        decreases nivs - j2,
    {
        let c = retain_from(&bufs[j2], cutoff);
        proof {
            lemma_filter_sorted(bufs@[j2 as int]@, |x: TickData| x.time >= cutoff as int);
            assert(bufs@[j2 as int]@ == fl.1[j2 as int]);
        }
        cleaned.push(c);
        j2 += 1;
    }
    let new_row = SymbolBuffers { symbol: row.symbol.clone(), bufs: cleaned };
    proof {
        assert(new_row@.bufs =~= spec_cleanup_bufs(fl.1, cutoff as int));
    }
    new_row
}

/// `lb` always lands inside the buffer, sorted or not.
proof fn lemma_lb_range(s: Seq<TickData>, t: int)
    ensures
        0 <= lb(s, t) <= s.len(),
    decreases s.len(),
{
    if s.len() > 0 && s[0].time < t {
        lemma_lb_range(s.subrange(1, s.len() as int), t);
    }
}

/// After inserting a tick, its bucket time is present in the buffer.
proof fn lemma_insert_has_time(s: Seq<TickData>, t: TickData)
    ensures
        has_time(spec_insert_tick(s, t), t.time as int),
{
    if !has_time(s, t.time as int) {
        lemma_lb_range(s, t.time as int);
        let r = s.insert(lb(s, t.time as int), t);
        assert(r[lb(s, t.time as int)] == t);
    }
}

/// The first row with symbol `sym` pins down `sym_index`.
proof fn lemma_sym_index_at(rows: Seq<RowView>, sym: Seq<char>, i: int)
    requires
        0 <= i < rows.len(),
        rows[i].symbol == sym,
        forall|k: int| 0 <= k < i ==> rows[k].symbol != sym,
    ensures
        sym_index(rows, sym) == i,
{
    lemma_sym_index(rows, sym);
    let si = sym_index(rows, sym);
    if si == -1 {
        assert(rows[i].symbol != sym);
    } else if si < i {
        assert(rows[si].symbol != sym);
    } else if si > i {
        assert(rows[i].symbol != sym);
    }
}

/// Adding a second observation for the same symbol within the same second
/// changes nothing: the engine stores exactly one tick per bucket time, and
/// the duplicate is dropped in every configured interval's buffer.
pub proof fn lemma_same_second_dedup(
    rows: Seq<RowView>,
    nivs: int,
    sym: Seq<char>,
    t1: TickData,
    t2: TickData,
)
    requires
        t1.time == t2.time,
        0 <= nivs,
    ensures
        spec_add(spec_add(rows, nivs, sym, t1), nivs, sym, t2) == spec_add(rows, nivs, sym, t1),
        forall|j: int|
            0 <= j < spec_add(rows, nivs, sym, t1)[sym_index(
                spec_add(rows, nivs, sym, t1),
                sym,
            )].bufs.len() ==> has_time(
                #[trigger] spec_add(rows, nivs, sym, t1)[sym_index(
                    spec_add(rows, nivs, sym, t1),
                    sym,
                )].bufs[j],
                t1.time as int,
            ),
{
    let r1 = spec_add(rows, nivs, sym, t1);
    lemma_sym_index(rows, sym);
    let i = sym_index(rows, sym);
    if i < 0 {
        let newrow = RowView { symbol: sym, bufs: Seq::new(nivs as nat, |j: int| seq![t1]) };
        assert(r1 == rows.push(newrow));
        lemma_sym_index_at(r1, sym, rows.len() as int);
        let idx = rows.len() as int;
        assert forall|j: int| 0 <= j < nivs implies has_time(
            #[trigger] r1[idx].bufs[j],
            t2.time as int,
        ) by {
            assert(r1[idx].bufs[j] == seq![t1]);
            assert(seq![t1][0].time == t2.time);
        }
        let row2 = spec_add_row(r1[idx], t2);
        assert forall|j: int| 0 <= j < nivs implies #[trigger] row2.bufs[j] == r1[idx].bufs[j] by {
            assert(has_time(r1[idx].bufs[j], t2.time as int));
        }
        assert(row2 =~~= r1[idx]);
        assert(spec_add(r1, nivs, sym, t2) =~= r1);
    } else {
        assert(r1 == rows.update(i, spec_add_row(rows[i], t1)));
        assert(r1[i].symbol == sym);
        assert forall|k: int| 0 <= k < i implies r1[k].symbol != sym by {
            assert(r1[k] == rows[k]);
        }
        lemma_sym_index_at(r1, sym, i);
        assert forall|j: int| 0 <= j < r1[i].bufs.len() implies has_time(
            #[trigger] r1[i].bufs[j],
            t2.time as int,
        ) by {
            assert(r1[i].bufs[j] == spec_insert_tick(rows[i].bufs[j], t1));
            lemma_insert_has_time(rows[i].bufs[j], t1);
        }
        let row2 = spec_add_row(r1[i], t2);
        assert forall|j: int| 0 <= j < r1[i].bufs.len() implies #[trigger] row2.bufs[j]
            == r1[i].bufs[j] by {
            assert(has_time(r1[i].bufs[j], t2.time as int));
        }
        assert(row2 =~~= r1[i]);
        assert(spec_add(r1, nivs, sym, t2) =~= r1);
    }
}

/// Once a candle was cut out of a buffer, the completed window is empty:
/// everything left is at or past the window's end, and a second extraction
/// for the same time emits nothing from this buffer.
pub proof fn lemma_flush_buf_clears_window(s: Seq<TickData>, ms: int, now: int)
    requires
        buf_sorted(s),
        0 < ms,
        0 <= now,
    ensures
        spec_emits(s, ms, now) ==> forall|k: int|
            0 <= k < spec_flush_buf(s, ms, now).len() ==> #[trigger] spec_flush_buf(
                s,
                ms,
                now,
            )[k].time >= candle_end(now, ms),
        !spec_emits(spec_flush_buf(s, ms, now), ms, now),
{
    let cend = candle_end(now, ms);
    let cstart = cend - ms;
    lemma_lb_props(s, cstart);
    lemma_lb_props(s, cend);
    let f = spec_flush_buf(s, ms, now);
    if spec_emits(s, ms, now) {
        assert forall|k: int| 0 <= k < f.len() implies #[trigger] f[k].time >= cend by {
            assert(f[k] == s[lb(s, cend) + k]);
        }
        if f.len() > 0 {
            assert(f[0].time >= cend);
            assert(lb(f, cstart) == 0);
            assert(lb(f, cend) == 0);
        }
    } else {
        assert(f == s);
    }
}

/// Retention holds after any extraction: every tick still buffered for any
/// symbol and any interval — requested for extraction or not — is no older
/// than the cutoff.
pub proof fn lemma_extract_retention(
    rows: Seq<RowView>,
    ivs: Seq<IvView>,
    reqs: Seq<Seq<char>>,
    now: int,
    cutoff: int,
)
    ensures
        forall|i: int, j: int, k: int|
            0 <= i < spec_extract(rows, ivs, reqs, now, cutoff).1.len() && 0 <= j < spec_extract(
                rows,
                ivs,
                reqs,
                now,
                cutoff,
            ).1[i].bufs.len() && 0 <= k < spec_extract(rows, ivs, reqs, now, cutoff).1[i].bufs[j].len()
                ==> (#[trigger] spec_extract(rows, ivs, reqs, now, cutoff).1[i].bufs[j][k]).time
                >= cutoff,
    decreases rows.len(),
{
    let rs = spec_extract(rows, ivs, reqs, now, cutoff).1;
    if rows.len() == 0 {
    } else {
        lemma_extract_retention(rows.drop_last(), ivs, reqs, now, cutoff);
        let prs = spec_extract(rows.drop_last(), ivs, reqs, now, cutoff).1;
        let row = rows.last();
        let rbufs = spec_flush_row(row.symbol, row.bufs, ivs, reqs, now).1;
        assert forall|i: int, j: int, k: int|
            0 <= i < rs.len() && 0 <= j < rs[i].bufs.len() && 0 <= k
                < rs[i].bufs[j].len() implies (#[trigger] rs[i].bufs[j][k]).time >= cutoff by {
            if i < prs.len() {
                assert(rs[i] == prs[i]);
                assert((prs[i].bufs[j][k]).time >= cutoff);
            } else {
                assert(rs[i].bufs[j] == spec_retained(rbufs[j], cutoff));
                rbufs[j].lemma_filter_pred(|x: TickData| x.time >= cutoff, k);
            }
        }
    }
}

/// No tick of `s` falls into the most recently completed window.
pub open spec fn no_window_ticks(s: Seq<TickData>, ms: int, now: int) -> bool {
    forall|k: int|
        0 <= k < s.len() ==> !(candle_end(now, ms) - ms <= (#[trigger] s[k]).time < candle_end(
            now,
            ms,
        ))
}

/// On a sorted buffer, a candle is emitted exactly when some tick falls
/// into the completed window.
proof fn lemma_emits_iff(s: Seq<TickData>, ms: int, now: int)
    requires
        buf_sorted(s),
        0 < ms,
    ensures
        spec_emits(s, ms, now) <==> !no_window_ticks(s, ms, now),
{
    let cend = candle_end(now, ms);
    let cstart = cend - ms;
    lemma_lb_props(s, cstart);
    lemma_lb_props(s, cend);
    lemma_lb_mono(s, cstart, cend);
    if spec_emits(s, ms, now) {
        assert(lb(s, cstart) < lb(s, cend));
        assert(cstart <= s[lb(s, cstart)].time < cend);
    } else {
        assert forall|k: int| 0 <= k < s.len() implies !(cstart <= (#[trigger] s[k]).time
            < cend) by {
            if cstart <= s[k].time < cend {
                assert(k >= lb(s, cstart));
                assert(k < lb(s, cend));
            }
        }
    }
}

/// A filter keeps every element satisfying its predicate unchanged when
/// all of them do.
proof fn lemma_filter_identity(s: Seq<TickData>, pred: spec_fn(TickData) -> bool)
    requires
        forall|k: int| 0 <= k < s.len() ==> pred(#[trigger] s[k]),
    ensures
        s.filter(pred) == s,
    decreases s.len(),
{
    reveal(Seq::filter);
    if s.len() > 0 {
        let dl = s.drop_last();
        assert(forall|k: int| 0 <= k < dl.len() ==> pred(#[trigger] dl[k])) by {
            assert(forall|k: int| 0 <= k < dl.len() ==> dl[k] == s[k]);
        }
        lemma_filter_identity(dl, pred);
        assert(s.filter(pred) =~= s);
    } else {
        assert(s.filter(pred) =~= s);
    }
}

/// Flushing one symbol's buffers leaves the completed window of every
/// requested interval empty, and every buffer sorted and as many as before.
proof fn lemma_flush_row_result(
    sym: Seq<char>,
    bufs: Seq<Seq<TickData>>,
    ivs: Seq<IvView>,
    reqs: Seq<Seq<char>>,
    now: int,
)
    requires
        bufs.len() == ivs.len(),
        forall|j: int| 0 <= j < bufs.len() ==> buf_sorted(#[trigger] bufs[j]),
        forall|j: int| 0 <= j < ivs.len() ==> 0 < (#[trigger] ivs[j]).ms,
        0 <= now,
    ensures
        spec_flush_row(sym, bufs, ivs, reqs, now).1.len() == bufs.len(),
        forall|j: int|
            0 <= j < bufs.len() ==> buf_sorted(#[trigger] spec_flush_row(sym, bufs, ivs, reqs, now).1[j]),
        forall|r: int|
            0 <= r < reqs.len() && iv_index(ivs, reqs[r]) >= 0 ==> no_window_ticks(
                #[trigger] spec_flush_row(sym, bufs, ivs, reqs, now).1[iv_index(ivs, reqs[r])],
                ivs[iv_index(ivs, reqs[r])].ms as int,
                now,
            ),
    decreases reqs.len(),
{
    if reqs.len() == 0 {
    } else {
        lemma_flush_row_result(sym, bufs, ivs, reqs.drop_last(), now);
        let prev = spec_flush_row(sym, bufs, ivs, reqs.drop_last(), now);
        let cur = spec_flush_row(sym, bufs, ivs, reqs, now);
        let j = iv_index(ivs, reqs.last());
        lemma_iv_index(ivs, reqs.last());
        if j >= 0 && spec_emits(prev.1[j], ivs[j].ms as int, now) {
            lemma_lb_props(prev.1[j], candle_end(now, ivs[j].ms as int));
            lemma_subrange_sorted(
                prev.1[j],
                lb(prev.1[j], candle_end(now, ivs[j].ms as int)),
                prev.1[j].len() as int,
            );
        }
        assert forall|r: int|
            0 <= r < reqs.len() && iv_index(ivs, reqs[r]) >= 0 implies no_window_ticks(
            #[trigger] cur.1[iv_index(ivs, reqs[r])],
            ivs[iv_index(ivs, reqs[r])].ms as int,
            now,
        ) by {
            let jr = iv_index(ivs, reqs[r]);
            lemma_iv_index(ivs, reqs[r]);
            if r < reqs.len() - 1 {
                assert(reqs.drop_last()[r] == reqs[r]);
                assert(no_window_ticks(
                    spec_flush_row(sym, bufs, ivs, reqs.drop_last(), now).1[iv_index(
                        ivs,
                        reqs.drop_last()[r],
                    )],
                    ivs[iv_index(ivs, reqs.drop_last()[r])].ms as int,
                    now,
                ));
                assert(no_window_ticks(prev.1[jr], ivs[jr].ms as int, now));
                if j >= 0 && spec_emits(prev.1[j], ivs[j].ms as int, now) {
                    if jr == j {
                        lemma_emits_iff(prev.1[j], ivs[j].ms as int, now);
                        assert(false);
                    } else {
                        assert(cur.1[jr] == prev.1[jr]);
                    }
                } else {
                    assert(cur.1 == prev.1);
                }
            } else {
                assert(reqs[r] == reqs.last());
                assert(jr == j);
                let msj = ivs[j].ms as int;
                if spec_emits(prev.1[j], msj, now) {
                    let flushed = spec_flush_buf(prev.1[j], msj, now);
                    lemma_flush_buf_clears_window(prev.1[j], msj, now);
                    lemma_lb_props(prev.1[j], candle_end(now, msj));
                    lemma_subrange_sorted(
                        prev.1[j],
                        lb(prev.1[j], candle_end(now, msj)),
                        prev.1[j].len() as int,
                    );
                    lemma_emits_iff(flushed, msj, now);
                    assert(cur.1[j] == flushed);
                } else {
                    assert(cur.1 == prev.1);
                    lemma_emits_iff(prev.1[j], msj, now);
                }
            }
        }
    }
}

/// A flush over buffers whose requested windows are already empty emits
/// nothing and changes nothing.
proof fn lemma_flush_row_noop(
    sym: Seq<char>,
    bufs: Seq<Seq<TickData>>,
    ivs: Seq<IvView>,
    reqs: Seq<Seq<char>>,
    now: int,
)
    requires
        bufs.len() == ivs.len(),
        forall|j: int| 0 <= j < bufs.len() ==> buf_sorted(#[trigger] bufs[j]),
        forall|j: int| 0 <= j < ivs.len() ==> 0 < (#[trigger] ivs[j]).ms,
        forall|r: int|
            0 <= r < reqs.len() && iv_index(ivs, reqs[r]) >= 0 ==> no_window_ticks(
                #[trigger] bufs[iv_index(ivs, reqs[r])],
                ivs[iv_index(ivs, reqs[r])].ms as int,
                now,
            ),
    ensures
        spec_flush_row(sym, bufs, ivs, reqs, now) == (Seq::<CandleView>::empty(), bufs),
    decreases reqs.len(),
{
    if reqs.len() == 0 {
        assert(spec_flush_row(sym, bufs, ivs, reqs, now).0 =~= Seq::<CandleView>::empty());
    } else {
        assert forall|r: int|
            0 <= r < reqs.drop_last().len() && iv_index(ivs, reqs.drop_last()[r]) >= 0
            implies no_window_ticks(
            #[trigger] bufs[iv_index(ivs, reqs.drop_last()[r])],
            ivs[iv_index(ivs, reqs.drop_last()[r])].ms as int,
            now,
        ) by {
            assert(reqs.drop_last()[r] == reqs[r]);
        }
        lemma_flush_row_noop(sym, bufs, ivs, reqs.drop_last(), now);
        let j = iv_index(ivs, reqs.last());
        lemma_iv_index(ivs, reqs.last());
        if j >= 0 {
            assert(no_window_ticks(bufs[j], ivs[j].ms as int, now)) by {
                assert(reqs[reqs.len() - 1] == reqs.last());
            }
            lemma_emits_iff(bufs[j], ivs[j].ms as int, now);
            assert(!spec_emits(bufs[j], ivs[j].ms as int, now));
        }
    }
}

/// Retention cleanup keeps sortedness, keeps empty windows empty, and is
/// idempotent.
proof fn lemma_cleanup_props(bufs: Seq<Seq<TickData>>, cutoff: int)
    requires
        forall|j: int| 0 <= j < bufs.len() ==> buf_sorted(#[trigger] bufs[j]),
    ensures
        spec_cleanup_bufs(bufs, cutoff).len() == bufs.len(),
        forall|j: int|
            0 <= j < bufs.len() ==> buf_sorted(#[trigger] spec_cleanup_bufs(bufs, cutoff)[j]),
        spec_cleanup_bufs(spec_cleanup_bufs(bufs, cutoff), cutoff) == spec_cleanup_bufs(
            bufs,
            cutoff,
        ),
        forall|j: int, ms: int, now: int|
            0 <= j < bufs.len() && #[trigger] no_window_ticks(bufs[j], ms, now)
                ==> no_window_ticks(spec_cleanup_bufs(bufs, cutoff)[j], ms, now),
{
    let cb = spec_cleanup_bufs(bufs, cutoff);
    assert forall|j: int| 0 <= j < bufs.len() implies buf_sorted(#[trigger] cb[j]) by {
        lemma_filter_sorted(bufs[j], |x: TickData| x.time >= cutoff);
    }
    assert forall|j: int, ms: int, now: int|
        0 <= j < bufs.len() && #[trigger] no_window_ticks(bufs[j], ms, now)
        implies no_window_ticks(cb[j], ms, now) by {
        lemma_filter_sorted(bufs[j], |x: TickData| x.time >= cutoff);
        assert forall|k: int|
            0 <= k < cb[j].len() implies !(candle_end(now, ms) - ms <= (#[trigger] cb[j][k]).time
            < candle_end(now, ms)) by {
            let i = choose|i: int| 0 <= i < bufs[j].len() && bufs[j][i] == cb[j][k];
            assert(!(candle_end(now, ms) - ms <= bufs[j][i].time < candle_end(now, ms)));
        }
    }
    assert forall|j: int| 0 <= j < cb.len() implies #[trigger] spec_cleanup_bufs(cb, cutoff)[j]
        == cb[j] by {
        bufs[j].lemma_filter_len(|x: TickData| x.time >= cutoff);
        assert forall|k: int|
            0 <= k < cb[j].len() implies ((|x: TickData| x.time >= cutoff)(#[trigger] cb[j][k])) by {
            bufs[j].lemma_filter_pred(|x: TickData| x.time >= cutoff, k);
        }
        lemma_filter_identity(cb[j], |x: TickData| x.time >= cutoff);
    }
    assert(spec_cleanup_bufs(cb, cutoff) =~= cb);
}

/// Post-extraction eviction: extraction consumes what it reports. A second
/// extraction at the very same time, over the same requested intervals,
/// emits no candle at all and leaves every buffer exactly as the first one
/// left it — the completed windows are empty.
pub proof fn lemma_extract_idempotent(
    rows: Seq<RowView>,
    ivs: Seq<IvView>,
    reqs: Seq<Seq<char>>,
    now: int,
    cutoff: int,
)
    requires
        forall|i: int| 0 <= i < rows.len() ==> row_wf(#[trigger] rows[i], ivs.len() as int),
        forall|j: int| 0 <= j < ivs.len() ==> 0 < (#[trigger] ivs[j]).ms,
        0 <= now,
    ensures
        spec_extract(spec_extract(rows, ivs, reqs, now, cutoff).1, ivs, reqs, now, cutoff).0
            == Seq::<CandleView>::empty(),
        spec_extract(spec_extract(rows, ivs, reqs, now, cutoff).1, ivs, reqs, now, cutoff).1
            == spec_extract(rows, ivs, reqs, now, cutoff).1,
    decreases rows.len(),
{
    if rows.len() == 0 {
    } else {
        let dl = rows.drop_last();
        assert(forall|i: int| 0 <= i < dl.len() ==> dl[i] == rows[i]);
        lemma_extract_idempotent(dl, ivs, reqs, now, cutoff);
        let prs = spec_extract(dl, ivs, reqs, now, cutoff).1;
        let row = rows.last();
        assert(row_wf(row, ivs.len() as int));
        let fl = spec_flush_row(row.symbol, row.bufs, ivs, reqs, now);
        lemma_flush_row_result(row.symbol, row.bufs, ivs, reqs, now);
        lemma_cleanup_props(fl.1, cutoff);
        let newrow = RowView { symbol: row.symbol, bufs: spec_cleanup_bufs(fl.1, cutoff) };
        let rs = spec_extract(rows, ivs, reqs, now, cutoff).1;
        assert(rs == prs.push(newrow));
        assert(rs.drop_last() =~= prs);
        assert(rs.last() == newrow);
        assert forall|r: int|
            0 <= r < reqs.len() && iv_index(ivs, reqs[r]) >= 0 implies no_window_ticks(
            #[trigger] newrow.bufs[iv_index(ivs, reqs[r])],
            ivs[iv_index(ivs, reqs[r])].ms as int,
            now,
        ) by {
            let jr = iv_index(ivs, reqs[r]);
            lemma_iv_index(ivs, reqs[r]);
            assert(no_window_ticks(fl.1[jr], ivs[jr].ms as int, now));
            assert(no_window_ticks(newrow.bufs[jr], ivs[jr].ms as int, now));
        }
        lemma_flush_row_noop(newrow.symbol, newrow.bufs, ivs, reqs, now);
        let fl2 = spec_flush_row(newrow.symbol, newrow.bufs, ivs, reqs, now);
        assert(fl2.0 == Seq::<CandleView>::empty() && fl2.1 == newrow.bufs);
        let newrow2 = RowView { symbol: newrow.symbol, bufs: spec_cleanup_bufs(fl2.1, cutoff) };
        assert(newrow2 =~~= newrow);
        assert(spec_extract(rs, ivs, reqs, now, cutoff).0 =~= Seq::<CandleView>::empty());
        assert(spec_extract(rs, ivs, reqs, now, cutoff).1 =~= rs);
    }
}

} // verus!
