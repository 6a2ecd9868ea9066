//! Human-friendly time filters: `yesterday`, `today`, `<n> <unit> ago`
//! (minute, hour, day, week, month; plurals accepted), RFC 3339 timestamps,
//! and plain `YYYY-MM-DD` dates read as UTC midnight.

use vstd::prelude::*;
use crate::text::{fold_chars, is_ws, lower_of, tokens_of, tokenize};

verus! {

/// Why a time filter was rejected.
#[derive(Clone, Copy, Debug, PartialEq, Eq, Structural, Hash)]
pub enum TimeParseError {
    /// None of the accepted forms matched, or a number was malformed or out
    /// of range.
    InvalidFormat,
    /// A `<n> <unit> ago` form named an unknown unit.
    UnknownUnit,
}

/// What chrono's RFC 3339 parser yields for a text: the Unix seconds exactly
/// when the text is a valid RFC 3339 timestamp.
pub uninterp spec fn rfc3339_unix_of(s: Seq<u8>) -> Option<i64>;

/// What chrono's `%Y-%m-%d` parser yields for a text: the UTC-midnight Unix
/// seconds exactly when the text is such a date.
pub uninterp spec fn ymd_unix_of(s: Seq<u8>) -> Option<i64>;

/// Relies on chrono's `DateTime::parse_from_rfc3339`: the result is a
/// function of the text alone.
#[verifier::external_body]
fn parse_rfc3339_unix(s: &Vec<u8>) -> (r: Option<i64>)
    ensures
        r == rfc3339_unix_of(s@),
{
    let text = match std::str::from_utf8(s) {
        Ok(t) => t,
        Err(_) => return None,
    };
    match chrono::DateTime::parse_from_rfc3339(text) {
        Ok(dt) => Some(dt.with_timezone(&chrono::Utc).timestamp()),
        Err(_) => None,
    }
}

/// Relies on chrono's `NaiveDate::parse_from_str` with `%Y-%m-%d` (and UTC
/// midnight via `and_hms_opt`/`and_utc`): the result is a function of the
/// text alone.
#[verifier::external_body]
fn parse_ymd_unix(s: &Vec<u8>) -> (r: Option<i64>)
    ensures
        r == ymd_unix_of(s@),
{
    let text = match std::str::from_utf8(s) {
        Ok(t) => t,
        Err(_) => return None,
    };
    match chrono::NaiveDate::parse_from_str(text, "%Y-%m-%d") {
        Ok(d) => match d.and_hms_opt(0, 0, 0) {
            Some(t) => Some(t.and_utc().timestamp()),
            None => None,
        },
        Err(_) => None,
    }
}

/// The text without leading or trailing ASCII whitespace.
pub open spec fn trim_ws(s: Seq<u8>) -> Seq<u8>
    decreases s.len(),
{
    if s.len() == 0 {
        s
    } else if is_ws(s[0]) {
        trim_ws(s.drop_first())
    } else if is_ws(s.last()) {
        trim_ws(s.drop_last())
    } else {
        s
    }
}

/// Trims ASCII whitespace from both ends; exactly [`trim_ws`].
fn trim_bytes(s: &Vec<u8>) -> (r: Vec<u8>)
    ensures
        r@ == trim_ws(s@),
{
    let mut lo: usize = 0;
    let mut hi: usize = s.len();
    proof {
        assert(s@.subrange(0, s@.len() as int) =~= s@);
    }
    while lo < hi && is_ws_exec(s[lo])
        invariant
            lo <= hi <= s@.len(),
            trim_ws(s@) == trim_ws(s@.subrange(lo as int, hi as int)),
        decreases hi - lo,
    {
        proof {
            let sub = s@.subrange(lo as int, hi as int);
            assert(sub.drop_first() =~= s@.subrange(lo as int + 1, hi as int));
        }
        lo = lo + 1;
    }
    while lo < hi && is_ws_exec(s[hi - 1])
        invariant
            lo <= hi <= s@.len(),
            trim_ws(s@) == trim_ws(s@.subrange(lo as int, hi as int)),
            lo < hi ==> !is_ws(s@[lo as int]),
        decreases hi - lo,
    {
        proof {
            let sub = s@.subrange(lo as int, hi as int);
            assert(sub.drop_last() =~= s@.subrange(lo as int, hi as int - 1));
        }
        hi = hi - 1;
    }
    let mut out: Vec<u8> = Vec::new();
    let mut i: usize = lo;
    while i < hi
        invariant
            lo <= i <= hi <= s@.len(),
            out@ == s@.subrange(lo as int, i as int),
        decreases hi - i,
    {
        out.push(s[i]);
        proof {
            assert(out@ =~= s@.subrange(lo as int, i + 1));
        }
        i = i + 1;
    }
    proof {
        let sub = s@.subrange(lo as int, hi as int);
        assert(out@ =~= sub);
        if lo < hi {
            assert(trim_ws(sub) == sub);
        } else {
            assert(sub =~= Seq::<u8>::empty());
        }
    }
    out
}

fn is_ws_exec(b: u8) -> (r: bool)
    ensures
        r == is_ws(b),
{
    b == 32u8 || b == 9u8 || b == 10u8 || b == 11u8 || b == 12u8 || b == 13u8
}

/// The bytes of the keyword `yesterday`.
pub open spec fn kw_yesterday() -> Seq<u8> {
    seq![121u8, 101u8, 115u8, 116u8, 101u8, 114u8, 100u8, 97u8, 121u8]
}

/// The bytes of the keyword `today`.
pub open spec fn kw_today() -> Seq<u8> {
    seq![116u8, 111u8, 100u8, 97u8, 121u8]
}

/// The bytes of the suffix ` ago`.
pub open spec fn kw_ago() -> Seq<u8> {
    seq![32u8, 97u8, 103u8, 111u8]
}

/// Whether the text ends in ` ago`.
pub open spec fn ends_with_ago(s: Seq<u8>) -> bool {
    s.len() >= 4 && s.skip(s.len() - 4) == kw_ago()
}

/// The text with every trailing ` ago` removed.
pub open spec fn strip_ago(s: Seq<u8>) -> Seq<u8>
    decreases s.len(),
{
    if ends_with_ago(s) {
        strip_ago(s.take(s.len() - 4))
    } else {
        s
    }
}

/// A decimal digit byte.
pub open spec fn is_digit(b: u8) -> bool {
    48 <= b <= 57
}

/// Every byte is a decimal digit.
pub open spec fn all_digits(s: Seq<u8>) -> bool {
    forall|i: int| 0 <= i < s.len() ==> is_digit(#[trigger] s[i])
}

/// The value of a digit string.
pub open spec fn digits_val(s: Seq<u8>) -> int
    decreases s.len(),
{
    if s.len() == 0 {
        0
    } else {
        digits_val(s.drop_last()) * 10 + (s.last() - 48)
    }
}

/// The signed integer a text denotes: an optional sign and at least one
/// digit; out-of-range values for `i64` yield nothing.
pub open spec fn parse_i64_of(s: Seq<u8>) -> Option<int> {
    let mag = if s.len() >= 2 && (s[0] == 45 || s[0] == 43) && all_digits(s.skip(1)) {
        Some(digits_val(s.skip(1)))
    } else if s.len() >= 1 && all_digits(s) {
        Some(digits_val(s))
    } else {
        None
    };
    let signed = match mag {
        Some(v) => if s.len() >= 1 && s[0] == 45 {
            Some(-v)
        } else {
            Some(v)
        },
        None => None,
    };
    match signed {
        Some(v) => if -0x8000000000000000 <= v <= 0x7fffffffffffffff {
            Some(v)
        } else {
            None
        },
        None => None,
    }
}

/// Digit values never shrink as digits are appended.
proof fn lemma_digits_val_nonneg(s: Seq<u8>)
    requires
        all_digits(s),
    ensures
        digits_val(s) >= 0,
    decreases s.len(),
{
    if s.len() > 0 {
        assert(all_digits(s.drop_last()));
        lemma_digits_val_nonneg(s.drop_last());
    }
}

/// A prefix of a digit string never exceeds the whole string's value.
proof fn lemma_digits_prefix_le(s: Seq<u8>, k: int)
    requires
        all_digits(s),
        0 <= k <= s.len(),
    ensures
        digits_val(s.take(k)) <= digits_val(s),
    decreases s.len() - k,
{
    if k < s.len() {
        lemma_digits_prefix_le(s, k + 1);
        assert(all_digits(s.take(k)));
        lemma_digits_val_nonneg(s.take(k));
        assert(s.take(k + 1).drop_last() =~= s.take(k));
        assert(digits_val(s.take(k + 1)) == digits_val(s.take(k)) * 10 + (s[k] - 48));
    } else {
        assert(s.take(k) =~= s);
    }
}

/// Parses a signed 64-bit integer exactly as [`parse_i64_of`] states.
fn parse_i64_bytes(s: &Vec<u8>) -> (r: Option<i64>)
    ensures
        (r matches Some(v) ==> parse_i64_of(s@) == Some(v as int)),
        (r is None ==> parse_i64_of(s@) is None),
{
    if s.len() == 0 {
        return None;
    }
    let b0 = s[0];
    let negative = b0 == 45u8;
    let start: usize = if b0 == 45u8 || b0 == 43u8 {
        1
    } else {
        0
    };
    if s.len() == start {
        return None;
    }
    let ghost digits = s@.skip(start as int);
    proof {
        if start == 0 {
            assert(digits =~= s@);
        }
        assert(digits.take(0) =~= Seq::<u8>::empty());
    }
    let mut acc: u128 = 0;
    let mut i: usize = start;
    while i < s.len()
        invariant
            start <= i <= s@.len(),
            start <= 1,
            s@.len() > start,
            start == 1 ==> (s@[0] == 45 || s@[0] == 43),
            start == 0 ==> !(s@[0] == 45 || s@[0] == 43),
            negative == (s@[0] == 45),
            digits == s@.skip(start as int),
            digits.len() == s@.len() - start,
            all_digits(digits.take(i - start)),
            acc == digits_val(digits.take(i - start)),
            acc <= 0x8000000000000000u128,
        decreases s@.len() - i,
    {
        let b = s[i];
        if !(b >= 48u8 && b <= 57u8) {
            proof {
                assert(digits[i - start] == s@[i as int]);
                assert(!is_digit(digits[i - start]));
                assert(!all_digits(digits));
                if start == 1 {
                    assert(s@.skip(1) == digits);
                    assert(!all_digits(s@)) by {
                        if all_digits(s@) {
                            assert(is_digit(s@[i as int]));
                        }
                    }
                } else {
                    assert(digits =~= s@);
                }
                assert(parse_i64_of(s@) is None);
            }
            return None;
        }
        proof {
            assert(digits.take(i - start + 1).drop_last() =~= digits.take(i - start));
            assert(digits.take(i - start + 1).last() == digits[i - start]);
            assert(digits[i - start] == s@[i as int]);
            assert(all_digits(digits.take(i - start + 1)));
        }
        acc = acc * 10 + (b - 48u8) as u128;
        i = i + 1;
        if acc > 0x8000000000000000u128 {
            proof {
                if start == 1 {
                    assert(s@.skip(1) == digits);
                } else {
                    assert(digits =~= s@);
                }
                if all_digits(digits) {
                    lemma_digits_prefix_le(digits, i - start);
                    assert(digits_val(digits) > 0x7fffffffffffffff);
                    if start == 0 {
                        assert(all_digits(s@));
                    }
                } else {
                    if start == 1 {
                        assert(!all_digits(s@)) by {
                            if all_digits(s@) {
                                assert forall|q: int| 0 <= q < digits.len() implies is_digit(
                                    #[trigger] digits[q],
                                ) by {
                                    assert(digits[q] == s@[q + 1]);
                                    assert(is_digit(s@[q + 1]));
                                }
                            }
                        }
                    }
                }
                assert(parse_i64_of(s@) is None);
            }
            return None;
        }
    }
    proof {
        assert(digits.take((i - start) as int) =~= digits);
        lemma_digits_val_nonneg(digits);
        if start == 1 {
            assert(s@.skip(1) == digits);
        } else {
            assert(digits =~= s@);
        }
    }
    if negative {
        let v: i64 = (-(acc as i128)) as i64;
        proof {
            assert(parse_i64_of(s@) == Some(v as int));
        }
        Some(v)
    } else {
        if acc > 0x7fffffffffffffffu128 {
            proof {
                if start == 0 {
                    assert(all_digits(s@));
                }
                assert(parse_i64_of(s@) is None);
            }
            return None;
        }
        let v: i64 = acc as i64;
        proof {
            if start == 0 {
                assert(all_digits(s@));
            }
            assert(parse_i64_of(s@) == Some(v as int));
        }
        Some(v)
    }
}

/// The seconds of one time unit, with any trailing `s` stripped: minute or
/// min, hour or hr, day, week or wk, month or mo (thirty days).
pub open spec fn unit_secs(u: Seq<u8>) -> Option<int> {
    if u == kw_minute() || u == kw_min() {
        Some(60int)
    } else if u == kw_hour() || u == kw_hr() {
        Some(3600int)
    } else if u == kw_day() {
        Some(86400int)
    } else if u == kw_week() || u == kw_wk() {
        Some(604800int)
    } else if u == kw_month() || u == kw_mo() {
        Some(2592000int)
    } else {
        None
    }
}

pub open spec fn kw_minute() -> Seq<u8> {
    seq![109u8, 105u8, 110u8, 117u8, 116u8, 101u8]
}

pub open spec fn kw_min() -> Seq<u8> {
    seq![109u8, 105u8, 110u8]
}

pub open spec fn kw_hour() -> Seq<u8> {
    seq![104u8, 111u8, 117u8, 114u8]
}

pub open spec fn kw_hr() -> Seq<u8> {
    seq![104u8, 114u8]
}

pub open spec fn kw_day() -> Seq<u8> {
    seq![100u8, 97u8, 121u8]
}

pub open spec fn kw_week() -> Seq<u8> {
    seq![119u8, 101u8, 101u8, 107u8]
}

pub open spec fn kw_wk() -> Seq<u8> {
    seq![119u8, 107u8]
}

pub open spec fn kw_month() -> Seq<u8> {
    seq![109u8, 111u8, 110u8, 116u8, 104u8]
}

pub open spec fn kw_mo() -> Seq<u8> {
    seq![109u8, 111u8]
}

/// The text with every trailing `s` removed.
pub open spec fn strip_s(s: Seq<u8>) -> Seq<u8>
    decreases s.len(),
{
    if s.len() > 0 && s.last() == 115u8 {
        strip_s(s.drop_last())
    } else {
        s
    }
}

/// `v` as an `Ok` 64-bit value, or the invalid-format error when it does not
/// fit.
pub open spec fn clamp_i64(v: int) -> Result<int, TimeParseError> {
    if -0x8000000000000000 <= v <= 0x7fffffffffffffff {
        Ok(v)
    } else {
        Err(TimeParseError::InvalidFormat)
    }
}

/// What a (case-folded, trimmed) time filter denotes, relative to `now` Unix
/// seconds: each accepted form's instant, or the error naming what failed.
pub open spec fn spec_parse_time(t: Seq<u8>, now: int) -> Result<int, TimeParseError> {
    if t == kw_yesterday() {
        clamp_i64(now - 86400)
    } else if t == kw_today() {
        Ok(now)
    } else if ends_with_ago(t) && tokens_of(strip_ago(t)).len() == 2 {
        let toks = tokens_of(strip_ago(t));
        match parse_i64_of(toks[0]) {
            None => Err(TimeParseError::InvalidFormat),
            Some(n) => match unit_secs(strip_s(toks[1])) {
                None => Err(TimeParseError::UnknownUnit),
                Some(u) => clamp_i64(now - n * u),
            },
        }
    } else {
        match rfc3339_unix_of(t) {
            Some(v) => Ok(v as int),
            None => match ymd_unix_of(t) {
                Some(v) => Ok(v as int),
                None => Err(TimeParseError::InvalidFormat),
            },
        }
    }
}

/// Parses a time filter: trims and case-folds the input, then accepts
/// `yesterday`, `today`, `<n> <unit> ago`, an RFC 3339 timestamp, or a
/// `YYYY-MM-DD` date — exactly as [`spec_parse_time`] states over the folded
/// text.
pub fn parse_time(s: &Vec<char>, now_unix: i64) -> (r: Result<i64, TimeParseError>)
    ensures
        spec_parse_time(trim_ws(lower_of(s@)), now_unix as int) matches Ok(v) ==> (r matches Ok(x)
            && x == v),
        spec_parse_time(trim_ws(lower_of(s@)), now_unix as int) matches Err(e) ==> r == Err::<
            i64,
            TimeParseError,
        >(e),
{
    let folded = fold_chars(s);
    let t = trim_bytes(&folded);
    if eq_bytes_lit(&t, &[121u8, 101u8, 115u8, 116u8, 101u8, 114u8, 100u8, 97u8, 121u8]) {
        return sub_clamped(now_unix, 86400);
    }
    if eq_bytes_lit(&t, &[116u8, 111u8, 100u8, 97u8, 121u8]) {
        return Ok(now_unix);
    }
    let stripped = strip_ago_bytes(&t);
    if stripped.len() < t.len() {
        let toks = tokenize(&stripped);
        if toks.len() == 2 {
            proof {
                assert(toks.deep_view()[0] == toks@[0]@);
                assert(toks.deep_view()[1] == toks@[1]@);
            }
            let n = match parse_i64_bytes(&toks[0]) {
                Some(n) => n,
                None => {
                    return Err(TimeParseError::InvalidFormat);
                },
            };
            let unit = strip_s_bytes(&toks[1]);
            let u: i64 = if eq_bytes_lit(&unit, &[109u8, 105u8, 110u8, 117u8, 116u8, 101u8])
                || eq_bytes_lit(&unit, &[109u8, 105u8, 110u8]) {
                60
            } else if eq_bytes_lit(&unit, &[104u8, 111u8, 117u8, 114u8]) || eq_bytes_lit(
                &unit,
                &[104u8, 114u8],
            ) {
                3600
            } else if eq_bytes_lit(&unit, &[100u8, 97u8, 121u8]) {
                86400
            } else if eq_bytes_lit(&unit, &[119u8, 101u8, 101u8, 107u8]) || eq_bytes_lit(
                &unit,
                &[119u8, 107u8],
            ) {
                604800
            } else if eq_bytes_lit(&unit, &[109u8, 111u8, 110u8, 116u8, 104u8]) || eq_bytes_lit(
                &unit,
                &[109u8, 111u8],
            ) {
                2592000
            } else {
                return Err(TimeParseError::UnknownUnit);
            };
            let delta: i128 = (n as i128) * (u as i128);
            proof {
                assert((n as i128) * (u as i128) == (n as int) * (u as int)) by (nonlinear_arith);
                assert(-0x80000000000000000000000000000000 <= (now_unix as int) - (n as int) * (
                u as int) < 0x80000000000000000000000000000000) by (nonlinear_arith)
                    requires
                        -0x8000000000000000 <= n as int <= 0x7fffffffffffffff,
                        0 < u as int <= 2592000,
                        -0x8000000000000000 <= now_unix as int <= 0x7fffffffffffffff,
                ;
            }
            let res: i128 = (now_unix as i128) - delta;
            if res >= -0x8000000000000000i128 && res <= 0x7fffffffffffffffi128 {
                return Ok(res as i64);
            } else {
                return Err(TimeParseError::InvalidFormat);
            }
        }
    }
    match parse_rfc3339_unix(&t) {
        Some(v) => Ok(v),
        None => match parse_ymd_unix(&t) {
            Some(v) => Ok(v),
            None => Err(TimeParseError::InvalidFormat),
        },
    }
}

/// `now - delta` as an `Ok` 64-bit value, or the invalid-format error on
/// overflow.
fn sub_clamped(now: i64, delta: i64) -> (r: Result<i64, TimeParseError>)
    requires
        delta >= 0,
    ensures
        clamp_i64(now as int - delta as int) matches Ok(v) ==> (r matches Ok(x) && x == v),
        clamp_i64(now as int - delta as int) matches Err(e) ==> r == Err::<i64, TimeParseError>(e),
{
    let res: i128 = (now as i128) - (delta as i128);
    if res >= -0x8000000000000000i128 && res <= 0x7fffffffffffffffi128 {
        Ok(res as i64)
    } else {
        Err(TimeParseError::InvalidFormat)
    }
}

/// Whether a byte vector equals a literal byte slice.
fn eq_bytes_lit(a: &Vec<u8>, b: &[u8]) -> (r: bool)
    ensures
        r == (a@ == b@),
{
    if a.len() != b.len() {
        proof {
            assert(a@ != b@) by {
                if a@ == b@ {
                    assert(a@.len() == b@.len());
                }
            }
        }
        return false;
    }
    let mut i: usize = 0;
    while i < a.len()
        invariant
            a@.len() == b@.len(),
            i <= a@.len(),
            forall|q: int| 0 <= q < i ==> a@[q] == b@[q],
        decreases a@.len() - i,
    {
        if a[i] != b[i] {
            proof {
                assert(a@ != b@) by {
                    if a@ == b@ {
                        assert(a@[i as int] == b@[i as int]);
                    }
                }
            }
            return false;
        }
        i = i + 1;
    }
    proof {
        assert(a@ =~= b@);
    }
    true
}

/// Removes every trailing ` ago`; exactly [`strip_ago`].
fn strip_ago_bytes(t: &Vec<u8>) -> (r: Vec<u8>)
    ensures
        r@ == strip_ago(t@),
        r@.len() <= t@.len(),
        r@.len() < t@.len() <==> ends_with_ago(t@),
{
    let mut cur: Vec<u8> = copy_bytes(t);
    while ends_with_ago_exec(&cur)
        invariant
            strip_ago(cur@) == strip_ago(t@),
            cur@.len() <= t@.len(),
            cur@.len() < t@.len() ==> ends_with_ago(t@),
            cur@.len() == t@.len() ==> cur@ == t@,
        decreases cur@.len(),
    {
        let ghost pre = cur@;
        cur.truncate(cur.len() - 4);
        proof {
            assert(cur@ =~= pre.take(pre.len() - 4));
        }
    }
    proof {
        assert(strip_ago(cur@) == cur@);
    }
    cur
}

fn ends_with_ago_exec(t: &Vec<u8>) -> (r: bool)
    ensures
        r == ends_with_ago(t@),
{
    if t.len() < 4 {
        return false;
    }
    let n = t.len();
    let r = t[n - 4] == 32u8 && t[n - 3] == 97u8 && t[n - 2] == 103u8 && t[n - 1] == 111u8;
    proof {
        let suf = t@.skip(t@.len() - 4);
        assert(suf.len() == 4);
        assert(suf[0] == t@[t@.len() - 4]);
        assert(suf[1] == t@[t@.len() - 3]);
        assert(suf[2] == t@[t@.len() - 2]);
        assert(suf[3] == t@[t@.len() - 1]);
        if r {
            assert(suf =~= kw_ago());
        } else {
            assert(suf != kw_ago()) by {
                if suf == kw_ago() {
                    assert(suf[0] == 32u8 && suf[1] == 97u8 && suf[2] == 103u8 && suf[3] == 111u8);
                }
            }
        }
    }
    r
}

/// Removes every trailing `s`; exactly [`strip_s`].
fn strip_s_bytes(t: &Vec<u8>) -> (r: Vec<u8>)
    ensures
        r@ == strip_s(t@),
{
    let mut cur: Vec<u8> = copy_bytes(t);
    while cur.len() > 0 && cur[cur.len() - 1] == 115u8
        invariant
            strip_s(cur@) == strip_s(t@),
        decreases cur@.len(),
    {
        let ghost pre = cur@;
        cur.truncate(cur.len() - 1);
        proof {
            assert(cur@ =~= pre.drop_last());
        }
    }
    cur
}

fn copy_bytes(t: &Vec<u8>) -> (r: Vec<u8>)
    ensures
        r@ == t@,
{
    let mut out: Vec<u8> = Vec::new();
    let mut i: usize = 0;
    while i < t.len()
        invariant
            i <= t@.len(),
            out@ == t@.take(i as int),
        decreases t@.len() - i,
    {
        out.push(t[i]);
        proof {
            assert(out@ =~= t@.take(i + 1));
        }
        i = i + 1;
    }
    proof {
        assert(t@.take(t@.len() as int) =~= t@);
    }
    out
}

} // verus!
