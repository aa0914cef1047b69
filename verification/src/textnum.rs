//! Verified text and number helpers: decimal parsing into integers and
//! fixed-point values, substring and suffix tests, and trusted wrappers for
//! the standard library's Unicode case mapping.

use vstd::prelude::*;

verus! {

/// Whether `c` is a decimal digit.
pub open spec fn is_digit(c: char) -> bool {
    0x30 <= c as u32 <= 0x39
}

/// The value of the digit `c`.
pub open spec fn digit_val(c: char) -> int {
    c as u32 - 0x30
}

/// Whether every character of `s` is a decimal digit.
pub open spec fn all_digits(s: Seq<char>) -> bool {
    forall|i: int| 0 <= i < s.len() ==> is_digit(#[trigger] s[i])
}

/// The number denoted by the digit string `s`, most significant first.
pub open spec fn digits_val(s: Seq<char>) -> int
    decreases s.len(),
{
    if s.len() == 0 {
        0
    } else {
        digits_val(s.drop_last()) * 10 + digit_val(s.last())
    }
}

/// A digit string denotes a non-negative number.
pub proof fn lemma_digits_val_nonneg(s: Seq<char>)
    requires
        all_digits(s),
    ensures
        digits_val(s) >= 0,
    decreases s.len(),
{
    if s.len() > 0 {
        let dl = s.drop_last();
        assert(all_digits(dl)) by {
            assert(forall|i: int| 0 <= i < dl.len() ==> dl[i] == s[i]);
        }
        lemma_digits_val_nonneg(dl);
    }
}

/// Appending digits never shrinks the denoted number.
pub proof fn lemma_digits_val_prefix(s: Seq<char>, i: int)
    requires
        all_digits(s),
        0 <= i <= s.len(),
    ensures
        digits_val(s.take(i)) <= digits_val(s),
    decreases s.len() - i,
{
    if i < s.len() {
        lemma_digits_val_prefix(s, i + 1);
        let t = s.take(i + 1);
        assert(t.drop_last() =~= s.take(i));
        assert(t.last() == s[i]);
        assert(all_digits(s.take(i))) by {
            assert(forall|k: int| 0 <= k < i ==> s.take(i)[k] == s[k]);
        }
        lemma_digits_val_nonneg(s.take(i));
        assert(digits_val(s.take(i)) <= digits_val(s.take(i)) * 10 + digit_val(s[i]));
    } else {
        assert(s.take(i) =~= s);
    }
}

/// Parse a plain decimal digit string into a `u64`.
///
/// Returns `Some` exactly when `s` is non-empty, holds digits only, and the
/// denoted number fits; the result is then that number.
pub fn parse_u64(s: &str) -> (r: Option<u64>)
    ensures
        r is Some <==> s@.len() > 0 && all_digits(s@) && digits_val(s@) <= u64::MAX,
        r is Some ==> r->0 == digits_val(s@),
{
    let n = s.unicode_len();
    if n == 0 {
        return None;
    }
    let mut val: u64 = 0;
    let mut i: usize = 0;
    while i < n
        invariant
            0 <= i <= n == s@.len(),
            all_digits(s@.take(i as int)),
            val == digits_val(s@.take(i as int)),
        decreases n - i,
    {
        let c = s.get_char(i);
        let d = c as u32;
        if d < 0x30 || d > 0x39 {
            proof {
                assert(!is_digit(s@[i as int]));
            }
            return None;
        }
        let dv = (d - 0x30) as u64;
        if val > (u64::MAX - dv) / 10 {
            proof {
                let t = s@.take(i + 1);
                assert(t.drop_last() =~= s@.take(i as int));
                assert(t.last() == s@[i as int]);
                assert(all_digits(t)) by {
                    assert(forall|k: int| 0 <= k < i ==> t[k] == s@.take(i as int)[k]);
                }
                assert(digits_val(t) == val * 10 + dv);
                assert(digits_val(t) > u64::MAX) by {
                    assert(val >= (u64::MAX - dv) / 10 + 1);
                    assert((((u64::MAX - dv) / 10 + 1) * 10 + dv) as int > u64::MAX as int) by (nonlinear_arith)
                        requires
                            0 <= dv <= 9,
                    ;
                    assert(val * 10 + dv >= ((u64::MAX - dv) / 10 + 1) * 10 + dv) by (nonlinear_arith)
                        requires
                            val >= (u64::MAX - dv) / 10 + 1,
                    ;
                }
                if all_digits(s@) {
                    lemma_digits_val_prefix(s@, i + 1);
                }
            }
            return None;
        }
        proof {
            let t = s@.take(i + 1);
            assert(t.drop_last() =~= s@.take(i as int));
            assert(t.last() == s@[i as int]);
            assert(all_digits(t)) by {
                assert(forall|k: int| 0 <= k < i ==> t[k] == s@.take(i as int)[k]);
            }
            assert(val * 10 + dv <= u64::MAX) by {
                assert(val <= (u64::MAX - dv) / 10);
                assert(((u64::MAX - dv) / 10) * 10 + dv <= u64::MAX) by (nonlinear_arith)
                    requires
                        0 <= dv <= 9,
                ;
                assert(val * 10 <= ((u64::MAX - dv) / 10) * 10) by (nonlinear_arith)
                    requires
                        val <= (u64::MAX - dv) / 10,
                ;
            }
        }
        val = val * 10 + dv;
        i += 1;
    }
    proof {
        assert(s@.take(n as int) =~= s@);
    }
    Some(val)
}

/// Parse an optionally `-`-signed decimal string into an `i64`.
///
/// Returns `Some` exactly when the digits are well-formed and the signed
/// value fits; the result is then that value.
pub fn parse_i64(s: &str) -> (r: Option<i64>)
    ensures
        r is Some ==> s@.len() > 0,
        r == spec_parse_i64(s@),
{
    let n = s.unicode_len();
    if n == 0 {
        return None;
    }
    let neg = s.get_char(0) == '-';
    if neg {
        let rest = s.substring_char(1, n);
        proof {
            assert(rest@ =~= s@.subrange(1, s@.len() as int));
        }
        match parse_u64(rest) {
            Some(v) => {
                if v <= 0x8000_0000_0000_0000u64 {
                    if v == 0x8000_0000_0000_0000u64 {
                        Some(i64::MIN)
                    } else {
                        Some(-(v as i64))
                    }
                } else {
                    None
                }
            },
            None => None,
        }
    } else {
        match parse_u64(s) {
            Some(v) => {
                if v <= i64::MAX as u64 {
                    Some(v as i64)
                } else {
                    None
                }
            },
            None => None,
        }
    }
}

/// The `i64` an optionally signed decimal string denotes, when well-formed
/// and in range.
pub open spec fn spec_parse_i64(s: Seq<char>) -> Option<i64> {
    if s.len() > 0 && s[0] == '-' {
        let d = s.subrange(1, s.len() as int);
        if d.len() > 0 && all_digits(d) && -digits_val(d) >= i64::MIN {
            Some((-digits_val(d)) as i64)
        } else {
            None
        }
    } else {
        if s.len() > 0 && all_digits(s) && digits_val(s) <= i64::MAX {
            Some(digits_val(s) as i64)
        } else {
            None
        }
    }
}

/// Parse an optionally `-`-signed decimal string into an `i32`.
pub fn parse_i32(s: &str) -> (r: Option<i32>)
    ensures
        r is Some <==> spec_parse_i64(s@) is Some && i32::MIN <= spec_parse_i64(s@)->0
            <= i32::MAX,
        r is Some ==> r->0 == spec_parse_i64(s@)->0,
{
    match parse_i64(s) {
        Some(v) => {
            if i32::MIN as i64 <= v && v <= i32::MAX as i64 {
                Some(v as i32)
            } else {
                None
            }
        },
        None => None,
    }
}

/// Ten to the `k`-th power (1 for non-positive `k`).
pub open spec fn pow10(k: int) -> int
    decreases k,
{
    if k <= 0 {
        1
    } else {
        10 * pow10(k - 1)
    }
}

/// A digit string of length `n` denotes less than `10^n`.
pub proof fn lemma_digits_val_upper(s: Seq<char>)
    requires
        all_digits(s),
    ensures
        digits_val(s) < pow10(s.len() as int),
    decreases s.len(),
{
    if s.len() > 0 {
        let dl = s.drop_last();
        assert(all_digits(dl)) by {
            assert(forall|i: int| 0 <= i < dl.len() ==> dl[i] == s[i]);
        }
        lemma_digits_val_upper(dl);
        assert(digits_val(s) == digits_val(dl) * 10 + digit_val(s.last()));
        assert(digits_val(dl) * 10 + digit_val(s.last()) < pow10(dl.len() as int) * 10)
            by (nonlinear_arith)
            requires
                digits_val(dl) < pow10(dl.len() as int),
                0 <= digit_val(s.last()) <= 9,
        ;
    }
}

/// The position of the first `.` in `s`, or its length when there is none.
pub open spec fn dot_index(s: Seq<char>) -> int
    decreases s.len(),
{
    if s.len() == 0 {
        0
    } else if s[0] == '.' {
        0
    } else {
        1 + dot_index(s.subrange(1, s.len() as int))
    }
}

/// `dot_index` points at the first dot, or past the end when there is none.
pub proof fn lemma_dot_index(s: Seq<char>)
    ensures
        0 <= dot_index(s) <= s.len(),
        forall|j: int| 0 <= j < dot_index(s) ==> s[j] != '.',
        dot_index(s) < s.len() ==> s[dot_index(s)] == '.',
    decreases s.len(),
{
    if s.len() > 0 && s[0] != '.' {
        let tail = s.subrange(1, s.len() as int);
        lemma_dot_index(tail);
        assert forall|j: int| 1 <= j < dot_index(s) implies s[j] != '.' by {
            assert(s[j] == tail[j - 1]);
        }
        if dot_index(s) < s.len() {
            assert(s[dot_index(s)] == tail[dot_index(s) - 1]);
        }
    }
}

/// The fraction digits of `s`: everything after the first dot, or nothing.
pub open spec fn frac_part(s: Seq<char>) -> Seq<char> {
    if dot_index(s) < s.len() {
        s.subrange(dot_index(s) + 1, s.len() as int)
    } else {
        Seq::empty()
    }
}

/// The integer digits of `s`: everything before the first dot.
pub open spec fn int_part(s: Seq<char>) -> Seq<char> {
    s.take(dot_index(s))
}

/// A well-formed unsigned decimal: digits around at most one dot, with at
/// least one digit in total.
pub open spec fn fixed_parts_ok(s: Seq<char>) -> bool {
    &&& s.len() > 0
    &&& all_digits(int_part(s))
    &&& all_digits(frac_part(s))
    &&& int_part(s).len() + frac_part(s).len() > 0
}

/// The value of the first eight fraction digits, scaled to eight places.
pub open spec fn frac_val8(s: Seq<char>) -> int {
    if s.len() >= 8 {
        digits_val(s.take(8))
    } else {
        digits_val(s) * pow10(8 - s.len())
    }
}

/// The fixed-point value of an unsigned decimal string, scaled by `10^8`;
/// fraction digits beyond the eighth are dropped.
pub open spec fn fixed_val(s: Seq<char>) -> int {
    digits_val(int_part(s)) * 100_000_000 + frac_val8(frac_part(s))
}

/// The fixed-point `i64` an optionally `-`-signed decimal string denotes,
/// when well-formed and within `i64::MAX` in magnitude.
pub open spec fn spec_parse_fixed(s: Seq<char>) -> Option<i64> {
    if s.len() > 0 && s[0] == '-' {
        let b = s.subrange(1, s.len() as int);
        if fixed_parts_ok(b) && fixed_val(b) <= i64::MAX {
            Some((-fixed_val(b)) as i64)
        } else {
            None
        }
    } else {
        if fixed_parts_ok(s) && fixed_val(s) <= i64::MAX {
            Some(fixed_val(s) as i64)
        } else {
            None
        }
    }
}

/// Ten to the `k`-th is positive, and grows with `k`.
proof fn lemma_pow10_pos(k: int)
    ensures
        pow10(k) >= 1,
    decreases k,
{
    if k > 0 {
        lemma_pow10_pos(k - 1);
    }
}

/// Powers of ten are monotone in the exponent.
proof fn lemma_pow10_mono(a: int, b: int)
    requires
        a <= b,
    ensures
        pow10(a) <= pow10(b),
    decreases b - a,
{
    if a < b {
        lemma_pow10_mono(a, b - 1);
        lemma_pow10_pos(b - 1);
    }
}

/// The eighth power of ten, concretely.
pub proof fn lemma_pow10_8_value()
    ensures
        pow10(8) == 100_000_000,
{
    reveal_with_fuel(pow10, 10);
}

/// The concrete small powers of ten the fixed-point code relies on.
proof fn lemma_pow10_consts()
    ensures
        pow10(7) == 10_000_000,
        pow10(8) == 100_000_000,
{
    reveal_with_fuel(pow10, 10);
}

/// Parse a decimal string such as `"123.45"` into a fixed-point `i64`
/// scaled by `10^8`, truncating fraction digits beyond the eighth.
#[verifier::loop_isolation(false)]
#[verifier::rlimit(60)]
pub fn parse_fixed(s: &str) -> (r: Option<i64>)
    ensures
        r == spec_parse_fixed(s@),
{
    proof {
        lemma_pow10_consts();
    }
    let n = s.unicode_len();
    if n == 0 {
        return None;
    }
    let neg = s.get_char(0) == '-';
    let start: usize = if neg {
        1
    } else {
        0
    };
    let body = s.substring_char(start, n);
    let ghost bv = body@;
    proof {
        if neg {
            assert(bv =~= s@.subrange(1, s@.len() as int));
        } else {
            assert(bv =~= s@);
        }
        lemma_dot_index(bv);
    }
    let bn = n - start;
    proof {
        assert(bn == bv.len());
    }
    if bn == 0 {
        return None;
    }
    let mut d: usize = 0;
    while d < bn && body.get_char(d) != '.'
        invariant
            0 <= d <= bn,
            forall|j: int| 0 <= j < d ==> bv[j] != '.',
        decreases bn - d,
    {
        d += 1;
    }
    proof {
        let di = dot_index(bv);
        if di < d {
            assert(bv[di] != '.');
        }
        if di > d {
            assert(bv[d as int] != '.');
        }
        assert(dot_index(bv) == d as int);
    }
    let ip = body.substring_char(0, d);
    proof {
        assert(ip@ =~= int_part(bv));
    }
    let ip_val_opt: Option<u64> = if d == 0 {
        Some(0)
    } else {
        parse_u64(ip)
    };
    let fp = if d < bn {
        body.substring_char(d + 1, bn)
    } else {
        body.substring_char(bn, bn)
    };
    proof {
        assert(fp@ =~= frac_part(bv));
    }
    let fpn = fp.unicode_len();
    if d == 0 && fpn == 0 {
        return None;
    }
    // every fraction digit must be a digit, including those past the eighth
    let mut j: usize = 0;
    let mut frac: u64 = 0;
    while j < fpn
        invariant
            0 <= j <= fpn,
            all_digits(fp@.take(j as int)),
            j <= 8 ==> frac == digits_val(fp@.take(j as int)),
            j > 8 ==> frac == digits_val(fp@.take(8)),
            frac < 100_000_000,
        decreases fpn - j,
    {
        let c = fp.get_char(j);
        let dg = c as u32;
        if dg < 0x30 || dg > 0x39 {
            proof {
                assert(!is_digit(fp@[j as int]));
            }
            return None;
        }
        proof {
            let t = fp@.take(j + 1);
            assert(t.drop_last() =~= fp@.take(j as int));
            assert(t.last() == fp@[j as int]);
            assert(all_digits(t)) by {
                assert(forall|k: int| 0 <= k < j ==> t[k] == fp@.take(j as int)[k]);
            }
            if j < 8 {
                lemma_digits_val_upper(fp@.take(j as int));
                lemma_pow10_mono(j as int, 7);
                assert(frac < 10_000_000);
                lemma_digits_val_nonneg(fp@.take(j as int));
            }
            if j >= 8 {
                assert(t.take(8) =~= fp@.take(8));
            }
        }
        if j < 8 {
            frac = frac * 10 + (dg - 0x30) as u64;
        }
        j += 1;
    }
    proof {
        assert(fp@.take(fpn as int) =~= fp@);
        assert(all_digits(frac_part(bv)));
        if fpn >= 8 {
            assert(frac == frac_val8(frac_part(bv)));
        }
    }
    // scale a short fraction up to eight places
    let mut k: usize = fpn;
    while k < 8
        invariant
            fpn <= k <= 8 || (fpn > 8 && k == fpn),
            fpn <= 8 ==> frac == digits_val(fp@) * pow10(k - fpn),
            fpn > 8 ==> frac == digits_val(fp@.take(8)),
            frac < 100_000_000,
        decreases 8 - k,
    {
        proof {
            lemma_digits_val_nonneg(fp@);
            lemma_digits_val_upper(fp@);
            lemma_pow10_pos(k - fpn);
            lemma_pow10_split(fpn as int, k + 1 - fpn);
            lemma_pow10_mono(k as int + 1, 8);
            assert(pow10(k + 1 - fpn) == pow10(k - fpn) * 10) by {
                lemma_pow10_step(k - fpn);
            }
            assert(digits_val(fp@) * pow10(k + 1 - fpn) < pow10(fpn as int) * pow10(
                k + 1 - fpn,
            )) by (nonlinear_arith)
                requires
                    digits_val(fp@) < pow10(fpn as int),
                    pow10(k + 1 - fpn) >= 1,
            ;
            assert(frac * 10 == digits_val(fp@) * pow10(k + 1 - fpn)) by (nonlinear_arith)
                requires
                    frac == digits_val(fp@) * pow10(k - fpn),
                    pow10(k + 1 - fpn) == pow10(k - fpn) * 10,
            ;
            lemma_pow10_pos(k - fpn);
        }
        frac = frac * 10;
        k += 1;
    }
    proof {
        assert(frac == frac_val8(frac_part(bv)));
        if fixed_parts_ok(bv) {
            lemma_digits_val_nonneg(int_part(bv));
        }
    }
    match ip_val_opt {
        Some(ipv) => {
            let imax: u64 = 0x7fff_ffff_ffff_ffff;
            if ipv > (imax - frac) / 100_000_000 {
                proof {
                    assert(ipv * 100_000_000 + frac > imax) by (nonlinear_arith)
                        requires
                            ipv >= (imax - frac) / 100_000_000 + 1,
                            0 <= frac < 100_000_000,
                            imax == 0x7fff_ffff_ffff_ffff,
                    ;
                    assert(fixed_val(bv) > i64::MAX);
                }
                None
            } else {
                proof {
                    assert(ipv * 100_000_000 + frac <= imax) by (nonlinear_arith)
                        requires
                            ipv <= (imax - frac) / 100_000_000,
                            0 <= frac < 100_000_000,
                            imax == 0x7fff_ffff_ffff_ffff,
                    ;
                }
                let v = ipv * 100_000_000 + frac;
                proof {
                    assert(v as int == fixed_val(bv));
                    assert(fixed_parts_ok(bv));
                }
                if neg {
                    Some(-(v as i64))
                } else {
                    Some(v as i64)
                }
            }
        },
        None => {
            proof {
                if all_digits(int_part(bv)) {
                    assert(digits_val(int_part(bv)) > u64::MAX);
                    assert(frac_val8(frac_part(bv)) >= 0) by {
                        if frac_part(bv).len() >= 8 {
                            lemma_digits_val_nonneg(frac_part(bv).take(8));
                        } else {
                            lemma_digits_val_nonneg(frac_part(bv));
                            lemma_pow10_pos(8 - frac_part(bv).len());
                            assert(digits_val(frac_part(bv)) * pow10(8 - frac_part(bv).len())
                                >= 0) by (nonlinear_arith)
                                requires
                                    digits_val(frac_part(bv)) >= 0,
                                    pow10(8 - frac_part(bv).len()) >= 1,
                            ;
                        }
                    }
                    assert(fixed_val(bv) > i64::MAX) by (nonlinear_arith)
                        requires
                            digits_val(int_part(bv)) > u64::MAX,
                            frac_val8(frac_part(bv)) >= 0,
                            fixed_val(bv) == digits_val(int_part(bv)) * 100_000_000 + frac_val8(
                                frac_part(bv),
                            ),
                    ;
                }
            }
            None
        },
    }
}

/// One power-of-ten step.
proof fn lemma_pow10_step(k: int)
    ensures
        k >= 0 ==> pow10(k + 1) == pow10(k) * 10,
{
}

/// Powers of ten multiply when exponents add.
proof fn lemma_pow10_split(a: int, b: int)
    requires
        0 <= a,
        0 <= b,
    ensures
        pow10(a + b) == pow10(a) * pow10(b),
    decreases b,
{
    if b > 0 {
        lemma_pow10_split(a, b - 1);
        assert(pow10(a + b) == 10 * pow10(a + b - 1));
        assert(pow10(a) * pow10(b) == pow10(a) * (10 * pow10(b - 1))) by {
        }
        assert(pow10(a) * (10 * pow10(b - 1)) == 10 * (pow10(a) * pow10(b - 1)))
            by (nonlinear_arith);
    }
}

/// Whether `s` ends with `suf`.
pub open spec fn spec_ends_with(s: Seq<char>, suf: Seq<char>) -> bool {
    suf.len() <= s.len() && s.subrange(s.len() - suf.len(), s.len() as int) == suf
}

/// Whether `pat` occurs in `h` as a contiguous substring.
pub open spec fn has_substring(h: Seq<char>, pat: Seq<char>) -> bool {
    exists|i: int|
        0 <= i <= h.len() - pat.len() && #[trigger] h.subrange(i, i + pat.len() as int) == pat
}

/// Whether `pat` stands at position `at` of `s`.
fn matches_at(s: &str, at: usize, pat: &str) -> (r: bool)
    requires
        at + pat@.len() <= s@.len(),
    ensures
        r == (s@.subrange(at as int, at as int + pat@.len() as int) == pat@),
{
    let sn = s.unicode_len();
    let m = pat.unicode_len();
    let mut j: usize = 0;
    while j < m
        invariant
            0 <= j <= m == pat@.len(),
            sn == s@.len(),
            at + m <= s@.len(),
            forall|k: int| 0 <= k < j ==> s@[at + k] == pat@[k],
        decreases m - j,
    {
        if s.get_char(at + j) != pat.get_char(j) {
            proof {
                let w = s@.subrange(at as int, at as int + pat@.len() as int);
                if w == pat@ {
                    assert(w[j as int] == pat@[j as int]);
                }
            }
            return false;
        }
        j += 1;
    }
    proof {
        assert(s@.subrange(at as int, at as int + pat@.len() as int) =~= pat@);
    }
    true
}

/// Whether `s` ends with `suf`.
pub fn ends_with_str(s: &str, suf: &str) -> (r: bool)
    ensures
        r == spec_ends_with(s@, suf@),
{
    let n = s.unicode_len();
    let m = suf.unicode_len();
    if m > n {
        return false;
    }
    matches_at(s, n - m, suf)
}

/// Whether `pat` occurs somewhere in `h`.
pub fn contains_str(h: &str, pat: &str) -> (r: bool)
    ensures
        r == has_substring(h@, pat@),
{
    let n = h.unicode_len();
    let m = pat.unicode_len();
    if m > n {
        return false;
    }
    if m == 0 {
        proof {
            assert(h@.subrange(0, 0 + pat@.len() as int) =~= pat@);
        }
        return true;
    }
    let mut at: usize = 0;
    while at <= n - m
        invariant
            0 <= at <= n - m + 1,
            0 < m <= n == h@.len(),
            m == pat@.len(),
            forall|i: int| 0 <= i < at ==> #[trigger] h@.subrange(i, i + pat@.len() as int) != pat@,
        decreases n - at,
    {
        if matches_at(h, at, pat) {
            return true;
        }
        at += 1;
    }
    false
}

/// `s` with every trailing copy of `suf` removed, one after the other.
pub open spec fn spec_strip_all(s: Seq<char>, suf: Seq<char>) -> Seq<char>
    decreases s.len(),
{
    if suf.len() > 0 && spec_ends_with(s, suf) {
        spec_strip_all(s.take(s.len() - suf.len()), suf)
    } else {
        s
    }
}

/// Remove every trailing copy of `suf` from `s`, one after the other, as
/// `str::trim_end_matches` does.
#[verifier::loop_isolation(false)]
pub fn strip_suffix_all(s: &str, suf: &str) -> (r: String)
    ensures
        r@ == spec_strip_all(s@, suf@),
{
    let n = s.unicode_len();
    let m = suf.unicode_len();
    if m == 0 {
        return s.to_owned();
    }
    let mut cur: usize = n;
    proof {
        assert(s@.take(n as int) =~= s@);
    }
    let mut done = false;
    while !done
        invariant
            0 <= cur <= n,
            m == suf@.len(),
            m > 0,
            spec_strip_all(s@, suf@) == spec_strip_all(s@.take(cur as int), suf@),
            done ==> !spec_ends_with(s@.take(cur as int), suf@),
        decreases (if done { 0int } else { cur as int + 1 }),
    {
        if cur >= m && matches_at(s, cur - m, suf) {
            proof {
                let t = s@.take(cur as int);
                assert(t.subrange(t.len() - m, t.len() as int) =~= s@.subrange(
                    cur - m,
                    cur as int,
                ));
                assert(spec_ends_with(t, suf@));
                assert(t.take(t.len() - m) =~= s@.take(cur - m));
            }
            cur -= m;
        } else {
            proof {
                let t = s@.take(cur as int);
                if cur >= m {
                    assert(t.subrange(t.len() - m, t.len() as int) =~= s@.subrange(
                        cur - m,
                        cur as int,
                    ));
                }
            }
            done = true;
        }
    }
    let r = s.substring_char(0, cur);
    proof {
        assert(r@ =~= s@.take(cur as int));
    }
    r.to_owned()
}

/// What `str::to_uppercase` returns for a given character sequence.
pub uninterp spec fn upper_of(s: Seq<char>) -> Seq<char>;

/// What `str::to_lowercase` returns for a given character sequence.
pub uninterp spec fn lower_of(s: Seq<char>) -> Seq<char>;

/// Relies on `str::to_uppercase`: the Unicode uppercase mapping of a
/// string, a function of its characters alone.
#[verifier::external_body]
pub(crate) fn to_upper(s: &str) -> (r: String)
    ensures
        r@ == upper_of(s@),
{
    s.to_uppercase()
}

/// Relies on `str::to_lowercase`: the Unicode lowercase mapping of a
/// string, a function of its characters alone.
#[verifier::external_body]
pub(crate) fn to_lower(s: &str) -> (r: String)
    ensures
        r@ == lower_of(s@),
{
    s.to_lowercase()
}

} // verus!
