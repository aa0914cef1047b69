//! The per-endpoint rate budget tracker of the resilient fetch client:
//! whether and how long to delay before a call, and how tracked budgets are
//! overwritten from provider response headers.

use vstd::prelude::*;

use crate::textnum::parse_i32;
use crate::textnum::parse_i64;
use crate::textnum::spec_parse_i64;

verus! {

/// Upper bound on a tracked window length in milliseconds (about 70 years).
pub const MAX_WINDOW_MS: i64 = 0x4000_0000_0000;

/// One endpoint key's tracked budget: how much of the per-window allowance
/// is already used, and when the window resets.
#[derive(Clone, Copy, PartialEq, Eq, Structural, Debug)]
pub struct RateLimitInfo {
    pub used: i32,
    pub limit: i32,
    pub window_ms: i64,
    pub reset_at_ms: i64,
}

impl RateLimitInfo {
    /// Validity: a positive allowance and a bounded, non-negative window and
    /// reset time.
    pub open spec fn wf(&self) -> bool {
        &&& 0 < self.limit
        &&& 0 <= self.window_ms <= MAX_WINDOW_MS
        &&& 0 <= self.reset_at_ms
    }

    /// Whether a request of the given weight must wait: the budget left
    /// after it would be within the 10% safety buffer of the limit.
    pub fn should_delay(&self, weight: i32) -> (r: bool)
        requires
            self.wf(),
        ensures
            r == (self.limit - self.used - weight <= self.limit / 10),
    {
        let remaining = self.limit as i64 - self.used as i64 - weight as i64;
        let buffer = (self.limit / 10) as i64;
        remaining <= buffer
    }

    /// How long to wait before a request of the given weight: nothing while
    /// budget remains; otherwise the deficit's estimated refill time at the
    /// limit-per-window rate, but at least the time to the window's reset,
    /// clamped into `i64`. Never negative.
    pub fn get_delay(&self, weight: i32, now_ms: i64) -> (r: i64)
        requires
            self.wf(),
            0 <= now_ms,
        ensures
            spec_delay(*self, weight as int, now_ms as int) <= i64::MAX ==> r == spec_delay(
                *self,
                weight as int,
                now_ms as int,
            ),
            spec_delay(*self, weight as int, now_ms as int) > i64::MAX ==> r == i64::MAX,
            r >= 0,
    {
        let remaining = self.limit as i64 - self.used as i64 - weight as i64;
        if remaining >= 0 {
            return 0;
        }
        let dr = self.reset_at_ms - now_ms;
        let to_reset: i64 = if dr > 0 {
            dr
        } else {
            0
        };
        proof {
            assert((-(remaining as int)) * (self.window_ms as int) <= 0x2_0000_0000
                * 0x4000_0000_0000) by (nonlinear_arith)
                requires
                    0 < -(remaining as int) <= 0x2_0000_0000,
                    0 <= self.window_ms <= 0x4000_0000_0000,
            ;
            assert((-(remaining as int)) * (self.window_ms as int) >= 0) by (nonlinear_arith)
                requires
                    0 < -(remaining as int),
                    0 <= self.window_ms,
            ;
        }
        let est: i128 = (-(remaining as i128)) * (self.window_ms as i128) / (self.limit as i128);
        let combined: i128 = if est > to_reset as i128 {
            est
        } else {
            to_reset as i128
        };
        if combined > i64::MAX as i128 {
            i64::MAX
        } else {
            combined as i64
        }
    }
}

/// The delay before a request of weight `w` at time `now` under budget
/// `info`: zero while budget remains, else the larger of the estimated
/// refill time of the deficit and the time to the reset.
pub open spec fn spec_delay(info: RateLimitInfo, w: int, now: int) -> int {
    let remaining = info.limit - info.used - w;
    if remaining >= 0 {
        0
    } else {
        let to_reset = if info.reset_at_ms - now > 0 {
            info.reset_at_ms - now
        } else {
            0
        };
        let est = (-remaining) * info.window_ms / (info.limit as int);
        if est > to_reset {
            est
        } else {
            to_reset
        }
    }
}

/// One tracked budget under its endpoint key.
pub struct BudgetEntry {
    pub key: String,
    pub info: RateLimitInfo,
}

/// The mathematical value of a tracked budget entry.
pub struct EntryView {
    pub key: Seq<char>,
    pub info: RateLimitInfo,
}

impl View for BudgetEntry {
    type V = EntryView;

    open spec fn view(&self) -> EntryView {
        EntryView { key: self.key@, info: self.info }
    }
}

/// The budgets a list of entries denotes, later entries overriding earlier
/// ones with the same key.
pub open spec fn list_map(es: Seq<EntryView>) -> Map<Seq<char>, RateLimitInfo>
    decreases es.len(),
{
    if es.len() == 0 {
        Map::empty()
    } else {
        list_map(es.drop_last()).insert(es.last().key, es.last().info)
    }
}

/// The per-endpoint-key budget tracker. Keys persist for the process
/// lifetime; each update overwrites the key's whole budget.
pub struct RateBudgetTracker {
    entries: Vec<BudgetEntry>,
}

/// Replacing the entry at `i` with one carrying the same key re-inserts
/// that key's budget.
proof fn lemma_list_map_update(es: Seq<EntryView>, i: int, e: EntryView)
    requires
        0 <= i < es.len(),
        forall|k1: int, k2: int| 0 <= k1 < k2 < es.len() ==> es[k1].key != es[k2].key,
        e.key == es[i].key,
    ensures
        list_map(es.update(i, e)) == list_map(es).insert(e.key, e.info),
    decreases es.len(),
{
    let es2 = es.update(i, e);
    if i == es.len() - 1 {
        assert(es2.drop_last() =~= es.drop_last());
        assert(es2.last() == e);
        assert(list_map(es2) == list_map(es.drop_last()).insert(e.key, e.info));
        assert(list_map(es).insert(e.key, e.info) =~= list_map(es.drop_last()).insert(
            e.key,
            e.info,
        ));
    } else {
        let dl = es.drop_last();
        assert(es2.drop_last() =~= dl.update(i, e));
        assert(es2.last() == es.last());
        lemma_list_map_update(dl, i, e);
        assert(es.last().key != e.key);
        assert(list_map(es2) == list_map(dl).insert(e.key, e.info).insert(
            es.last().key,
            es.last().info,
        ));
        assert(list_map(dl).insert(e.key, e.info).insert(es.last().key, es.last().info)
            =~= list_map(dl).insert(es.last().key, es.last().info).insert(e.key, e.info));
    }
}

/// An entry's key looks its budget up in the denoted map.
proof fn lemma_list_map_get(es: Seq<EntryView>, i: int)
    requires
        0 <= i < es.len(),
        forall|k1: int, k2: int| 0 <= k1 < k2 < es.len() ==> es[k1].key != es[k2].key,
    ensures
        list_map(es).contains_key(es[i].key),
        list_map(es)[es[i].key] == es[i].info,
    decreases es.len(),
{
    if i < es.len() - 1 {
        let dl = es.drop_last();
        lemma_list_map_get(dl, i);
        assert(es.last().key != es[i].key);
    }
}

/// A key no entry holds is absent from the denoted map.
proof fn lemma_list_map_absent(es: Seq<EntryView>, key: Seq<char>)
    requires
        forall|k: int| 0 <= k < es.len() ==> es[k].key != key,
    ensures
        !list_map(es).contains_key(key),
    decreases es.len(),
{
    if es.len() > 0 {
        let dl = es.drop_last();
        assert(forall|k: int| 0 <= k < dl.len() ==> dl[k] == es[k]);
        lemma_list_map_absent(dl, key);
    }
}

impl RateBudgetTracker {
    /// The tracked budgets, keyed by endpoint key.
    pub closed spec fn budgets(&self) -> Map<Seq<char>, RateLimitInfo> {
        list_map(self.entries@.map_values(|e: BudgetEntry| e@))
    }

    /// Distinct keys, and every tracked budget valid.
    pub closed spec fn wf(&self) -> bool {
        &&& forall|k1: int, k2: int|
            0 <= k1 < k2 < self.entries@.len() ==> self.entries@[k1]@.key != self.entries@[k2]@.key
        &&& forall|k: int| 0 <= k < self.entries@.len() ==> (#[trigger] self.entries@[k]@.info).wf()
    }

    /// A fresh tracker with nothing tracked.
    pub fn new() -> (r: Self)
        ensures
            r.wf(),
            r.budgets() == Map::<Seq<char>, RateLimitInfo>::empty(),
    {
        let r = Self { entries: Vec::new() };
        proof {
            assert(r.entries@.map_values(|e: BudgetEntry| e@) =~= Seq::<EntryView>::empty());
        }
        r
    }

    /// Overwrite the tracked budget for `key`.
    pub fn update(&mut self, key: &str, info: RateLimitInfo)
        requires
            old(self).wf(),
            info.wf(),
        ensures
            final(self).wf(),
            final(self).budgets() == old(self).budgets().insert(key@, info),
    {
        let ghost es0 = self.entries@.map_values(|e: BudgetEntry| e@);
        let keyed: String = key.to_owned();
        let n = self.entries.len();
        let mut i: usize = 0;
        while i < n
            invariant
                0 <= i <= n == self.entries@.len(),
                keyed@ == key@,
                *self == *old(self),
                self.wf(),
                info.wf(),
                es0 == self.entries@.map_values(|e: BudgetEntry| e@),
                forall|k: int| 0 <= k < i ==> self.entries@[k]@.key != key@,
            decreases n - i,
        {
            if self.entries[i].key == keyed {
                let ghost pre = *self;
                let e = BudgetEntry { key: keyed, info };
                self.entries.remove(i);
                self.entries.insert(i, e);
                proof {
                    assert(pre.entries@[i as int]@.key == key@);
                    assert forall|k1: int, k2: int| 0 <= k1 < k2 < es0.len() implies es0[k1].key
                        != es0[k2].key by {
                        assert(es0[k1] == pre.entries@[k1]@ && es0[k2] == pre.entries@[k2]@);
                    }
                    let es1 = self.entries@.map_values(|x: BudgetEntry| x@);
                    assert(es1 =~= es0.update(i as int, EntryView { key: key@, info }));
                    lemma_list_map_update(es0, i as int, EntryView { key: key@, info });
                    assert forall|k1: int, k2: int|
                        0 <= k1 < k2 < self.entries@.len() implies self.entries@[k1]@.key
                        != self.entries@[k2]@.key by {
                        if k1 != i as int && k2 != i as int {
                            assert(self.entries@[k1]@ == pre.entries@[k1]@);
                            assert(self.entries@[k2]@ == pre.entries@[k2]@);
                        } else if k1 == i as int {
                            assert(self.entries@[k2]@ == pre.entries@[k2]@);
                            assert(pre.entries@[k2]@.key != pre.entries@[i as int]@.key);
                        } else {
                            assert(self.entries@[k1]@ == pre.entries@[k1]@);
                            assert(pre.entries@[k1]@.key != pre.entries@[i as int]@.key);
                        }
                    }
                    assert forall|k: int| 0 <= k < self.entries@.len() implies (
                    #[trigger] self.entries@[k]@.info).wf() by {
                        if k != i as int {
                            assert(self.entries@[k]@ == pre.entries@[k]@);
                            assert(pre.entries@[k]@.info.wf());
                        }
                    }
                }
                return ;
            }
            i += 1;
        }
        let e = BudgetEntry { key: keyed, info };
        let ghost pre = *self;
        self.entries.push(e);
        proof {
            let es1 = self.entries@.map_values(|x: BudgetEntry| x@);
            assert(es1.drop_last() =~= es0);
            assert(es1.last() == EntryView { key: key@, info });
            assert forall|k1: int, k2: int|
                0 <= k1 < k2 < self.entries@.len() implies self.entries@[k1]@.key
                != self.entries@[k2]@.key by {
                if k2 == self.entries@.len() - 1 {
                    assert(self.entries@[k1]@ == pre.entries@[k1]@);
                } else {
                    assert(self.entries@[k1]@ == pre.entries@[k1]@);
                    assert(self.entries@[k2]@ == pre.entries@[k2]@);
                }
            }
            assert forall|k: int| 0 <= k < self.entries@.len() implies (
            #[trigger] self.entries@[k]@.info).wf() by {
                if k < self.entries@.len() - 1 {
                    assert(self.entries@[k]@ == pre.entries@[k]@);
                    assert(pre.entries@[k]@.info.wf());
                }
            }
        }
    }

    /// The tracked budget for `key`, when one exists.
    pub fn lookup(&self, key: &str) -> (r: Option<RateLimitInfo>)
        requires
            self.wf(),
        ensures
            r is Some <==> self.budgets().contains_key(key@),
            r is Some ==> r->0 == self.budgets()[key@] && r->0.wf(),
    {
        let keyed: String = key.to_owned();
        let n = self.entries.len();
        let mut i: usize = 0;
        while i < n
            invariant
                0 <= i <= n == self.entries@.len(),
                keyed@ == key@,
                self.wf(),
                forall|k: int| 0 <= k < i ==> self.entries@[k]@.key != key@,
            decreases n - i,
        {
            if self.entries[i].key == keyed {
                proof {
                    lemma_list_map_get(self.entries@.map_values(|e: BudgetEntry| e@), i as int);
                }
                return Some(self.entries[i].info);
            }
            i += 1;
        }
        proof {
            lemma_list_map_absent(self.entries@.map_values(|e: BudgetEntry| e@), key@);
        }
        None
    }

    /// The pre-emptive delay before a request: zero when the key is
    /// untracked or its budget does not ask for a delay, else the budget's
    /// delay.
    pub fn delay_before(&self, key: &str, weight: i32, now_ms: i64) -> (r: i64)
        requires
            self.wf(),
            0 <= now_ms,
        ensures
            r >= 0,
            !self.budgets().contains_key(key@) ==> r == 0,
            self.budgets().contains_key(key@) && !(self.budgets()[key@].limit
                - self.budgets()[key@].used - weight <= self.budgets()[key@].limit / 10) ==> r
                == 0,
            self.budgets().contains_key(key@) && (self.budgets()[key@].limit
                - self.budgets()[key@].used - weight <= self.budgets()[key@].limit / 10) ==> (
            spec_delay(self.budgets()[key@], weight as int, now_ms as int) <= i64::MAX ==> r
                == spec_delay(self.budgets()[key@], weight as int, now_ms as int)) && (spec_delay(
                self.budgets()[key@],
                weight as int,
                now_ms as int,
            ) > i64::MAX ==> r == i64::MAX),
    {
        match self.lookup(key) {
            Some(info) => {
                if info.should_delay(weight) {
                    info.get_delay(weight, now_ms)
                } else {
                    0
                }
            },
            None => 0,
        }
    }
}

/// A tracked budget overwritten from one provider usage header: when the
/// header is present and parses as an `i32`, the key's budget becomes that
/// used amount against the fixed limit, with a fresh reset of now plus the
/// window; otherwise nothing changes.
pub open spec fn spec_header_update(
    m: Map<Seq<char>, RateLimitInfo>,
    h: Option<&str>,
    key: Seq<char>,
    limit: i32,
    window_ms: i64,
    now: int,
) -> Map<Seq<char>, RateLimitInfo> {
    match h {
        Option::None => m,
        Option::Some(s) => match spec_parse_i64(s@) {
            Option::None => m,
            Option::Some(v) => if i32::MIN <= v <= i32::MAX {
                m.insert(
                    key,
                    RateLimitInfo {
                        used: v as i32,
                        limit,
                        window_ms,
                        reset_at_ms: (now + window_ms) as i64,
                    },
                )
            } else {
                m
            },
        },
    }
}

/// A tracked budget overwritten from a limit/remaining/reset header triple:
/// when all three are present and parse, the limit is positive, the used
/// amount fits, and the Unix reset second is sensible, the key's budget is
/// replaced; otherwise nothing changes. The window is the time from `now`
/// to the reset, clamped to the representable range.
pub open spec fn spec_window_update(
    m: Map<Seq<char>, RateLimitInfo>,
    key: Seq<char>,
    limit_s: Option<&str>,
    remaining_s: Option<&str>,
    reset_s: Option<&str>,
    now: int,
) -> Map<Seq<char>, RateLimitInfo> {
    if limit_s is Some && remaining_s is Some && reset_s is Some && spec_parse_i64(
        limit_s->0@,
    ) is Some && spec_parse_i64(remaining_s->0@) is Some && spec_parse_i64(reset_s->0@) is Some {
        let limit = spec_parse_i64(limit_s->0@)->0;
        let remaining = spec_parse_i64(remaining_s->0@)->0;
        let reset_unix = spec_parse_i64(reset_s->0@)->0;
        if 0 < limit <= i32::MAX && i32::MIN <= remaining <= i32::MAX && i32::MIN <= limit
            - remaining <= i32::MAX && 0 <= reset_unix <= i64::MAX / 1000 {
            let reset_at = reset_unix * 1000;
            let w0 = reset_at - now;
            let w1 = if w0 < 0 {
                0
            } else {
                w0
            };
            let w = if w1 > MAX_WINDOW_MS {
                MAX_WINDOW_MS as int
            } else {
                w1
            };
            m.insert(
                key,
                RateLimitInfo {
                    used: (limit - remaining) as i32,
                    limit: limit as i32,
                    window_ms: w as i64,
                    reset_at_ms: reset_at as i64,
                },
            )
        } else {
            m
        }
    } else {
        m
    }
}

impl RateBudgetTracker {
    /// Overwrite one key's budget from a single usage header value.
    pub fn apply_usage_header(
        &mut self,
        h: Option<&str>,
        key: &str,
        limit: i32,
        window_ms: i64,
        now_ms: i64,
    )
        requires
            old(self).wf(),
            0 < limit,
            0 < window_ms <= MAX_WINDOW_MS,
            0 <= now_ms <= i64::MAX - MAX_WINDOW_MS,
        ensures
            final(self).wf(),
            final(self).budgets() == spec_header_update(
                old(self).budgets(),
                h,
                key@,
                limit,
                window_ms,
                now_ms as int,
            ),
    {
        match h {
            Some(s) => {
                match parse_i32(s) {
                    Some(used) => {
                        let info = RateLimitInfo {
                            used,
                            limit,
                            window_ms,
                            reset_at_ms: now_ms + window_ms,
                        };
                        self.update(key, info);
                    },
                    None => {},
                }
            },
            None => {},
        }
    }

    /// Overwrite the tracked budgets from the fixed per-window usage
    /// headers a venue reports: request weight per minute, order count per
    /// minute and order count per day, each against its documented limit.
    pub fn apply_fixed_usage_headers(
        &mut self,
        used_weight_1m: Option<&str>,
        order_count_1m: Option<&str>,
        order_count_1d: Option<&str>,
        now_ms: i64,
    )
        requires
            old(self).wf(),
            0 <= now_ms <= i64::MAX - MAX_WINDOW_MS,
        ensures
            final(self).wf(),
            final(self).budgets() == spec_header_update(
                spec_header_update(
                    spec_header_update(
                        old(self).budgets(),
                        used_weight_1m,
                        "weight"@,
                        1200,
                        60_000,
                        now_ms as int,
                    ),
                    order_count_1m,
                    "orders"@,
                    1600,
                    60_000,
                    now_ms as int,
                ),
                order_count_1d,
                "daily_orders"@,
                10000,
                86_400_000,
                now_ms as int,
            ),
    {
        self.apply_usage_header(used_weight_1m, "weight", 1200, 60_000, now_ms);
        self.apply_usage_header(order_count_1m, "orders", 1600, 60_000, now_ms);
        self.apply_usage_header(order_count_1d, "daily_orders", 10000, 86_400_000, now_ms);
    }

    /// Overwrite one key's budget from a limit/remaining/reset header
    /// triple, as venues reporting absolute reset times do.
    pub fn apply_window_headers(
        &mut self,
        key: &str,
        limit_s: Option<&str>,
        remaining_s: Option<&str>,
        reset_s: Option<&str>,
        now_ms: i64,
    )
        requires
            old(self).wf(),
            0 <= now_ms,
        ensures
            final(self).wf(),
            final(self).budgets() == spec_window_update(
                old(self).budgets(),
                key@,
                limit_s,
                remaining_s,
                reset_s,
                now_ms as int,
            ),
    {
        let l = match limit_s {
            Some(s) => parse_i64(s),
            None => None,
        };
        let r = match remaining_s {
            Some(s) => parse_i64(s),
            None => None,
        };
        let t = match reset_s {
            Some(s) => parse_i64(s),
            None => None,
        };
        if limit_s.is_none() || remaining_s.is_none() || reset_s.is_none() {
            return ;
        }
        match (l, r, t) {
            (Some(limit), Some(remaining), Some(reset_unix)) => {
                if 0 < limit && limit <= i32::MAX as i64 && i32::MIN as i64 <= remaining
                    && remaining <= i32::MAX as i64 && i32::MIN as i64 <= limit - remaining && limit
                    - remaining <= i32::MAX as i64 && 0 <= reset_unix && reset_unix <= i64::MAX
                    / 1000 {
                    proof {
                        assert((i64::MAX / 1000) * 1000 <= i64::MAX) by (nonlinear_arith);
                        assert(reset_unix * 1000 <= (i64::MAX / 1000) * 1000) by (nonlinear_arith)
                            requires
                                0 <= reset_unix <= i64::MAX / 1000,
                        ;
                        assert(reset_unix * 1000 >= 0) by (nonlinear_arith)
                            requires
                                reset_unix >= 0,
                        ;
                    }
                    let reset_at = reset_unix * 1000;
                    let w0 = reset_at - now_ms;
                    let w1: i64 = if w0 < 0 {
                        0
                    } else {
                        w0
                    };
                    let w: i64 = if w1 > MAX_WINDOW_MS {
                        MAX_WINDOW_MS
                    } else {
                        w1
                    };
                    let info = RateLimitInfo {
                        used: (limit - remaining) as i32,
                        limit: limit as i32,
                        window_ms: w,
                        reset_at_ms: reset_at,
                    };
                    self.update(key, info);
                }
            },
            _ => {},
        }
    }
}

} // verus!
