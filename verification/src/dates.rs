//! Calendar dates of unix timestamps (proleptic Gregorian, UTC), without a
//! date library: Howard Hinnant's days-to-civil conversion.
use vstd::prelude::*;

use crate::ocr::decimal_text;

use crate::text::{extend, string_of};

verus! {

broadcast use vstd::string::group_string_axioms;

/// Year, month (1-12) and day (1-31) of the day `days` after 1970-01-01.
pub open spec fn civil_from_days(days: int) -> (int, int, int) {
    let z = days + 719468;
    let era = z / 146097;
    let doe = z - era * 146097;
    let yoe = (doe - doe / 1460 + doe / 36524 - doe / 146096) / 365;
    let y = yoe + era * 400;
    let doy = doe - (365 * yoe + yoe / 4 - yoe / 100);
    let mp = (5 * doy + 2) / 153;
    let d = doy - (153 * mp + 2) / 5 + 1;
    let m = if mp < 10 {
        mp + 3
    } else {
        mp - 9
    };
    (if m <= 2 {
        y + 1
    } else {
        y
    }, m, d)
}

/// `digits` left-padded with zeros to `width`.
pub open spec fn zero_pad(digits: Seq<char>, width: nat) -> Seq<char> {
    if digits.len() >= width {
        digits
    } else {
        Seq::new((width - digits.len()) as nat, |i: int| '0') + digits
    }
}

/// `n` as `format!("{n:0w$}")` writes it: the sign counts toward the width.
pub open spec fn padded(n: int, width: nat) -> Seq<char> {
    if n < 0 {
        seq!['-'] + zero_pad(decimal_text((-n) as nat), if width > 0 {
            (width - 1) as nat
        } else {
            0
        })
    } else {
        zero_pad(decimal_text(n as nat), width)
    }
}

/// The decimal digits of `n`.
pub fn digits_u64(n: u64) -> (r: Vec<char>)
    ensures
        r@ == decimal_text(n as nat),
    decreases n,
{
    if n < 10 {
        let mut v: Vec<char> = Vec::new();
        v.push(((48 + n) as u8) as char);
        assert(v@ =~= seq![(48 + n) as char]);
        v
    } else {
        let mut v = digits_u64(n / 10);
        v.push(((48 + n % 10) as u8) as char);
        v
    }
}

/// `n` zero-padded to `width`, as `format!` writes it.
pub fn push_padded(out: &mut Vec<char>, n: i64, width: usize)
    requires
        width <= 8,
    ensures
        final(out)@ == old(out)@ + padded(n as int, width as nat),
{
    let neg = n < 0;
    let mag: u64 = if neg {
        if n == i64::MIN {
            0x8000_0000_0000_0000u64
        } else {
            (-n) as u64
        }
    } else {
        n as u64
    };
    let digits = digits_u64(mag);
    let w = if neg {
        if width > 0 {
            width - 1
        } else {
            0
        }
    } else {
        width
    };
    if neg {
        out.push('-');
    }
    let ghost before = out@;
    let mut k = digits.len();
    while k < w
        invariant
            digits.len() <= k <= w || (w <= digits.len() && k == digits.len()),
            out@ == before + Seq::new((k - digits.len()) as nat, |i: int| '0'),
        decreases w - k,
    {
        out.push('0');
        k += 1;
        assert(out@ =~= before + Seq::new((k - digits.len()) as nat, |i: int| '0'));
    }
    extend(out, digits.as_slice());
    proof {
        if digits@.len() >= w {
            assert(Seq::new((k - digits.len()) as nat, |i: int| '0') =~= Seq::<char>::empty());
        }
    }
}

/// The floor quotient and remainder of `a` by `b > 0`.
fn floor_div_mod(a: i64, b: i64) -> (r: (i64, i64))
    requires
        b > 0,
    ensures
        r.0 == a as int / b as int,
        r.1 == a as int % b as int,
{
    if a >= 0 {
        let q = ((a as u64) / (b as u64)) as i64;
        let m = ((a as u64) % (b as u64)) as i64;
        (q, m)
    } else {
        let n = -(a + 1);
        let q0 = ((n as u64) / (b as u64)) as i64;
        let r0 = ((n as u64) % (b as u64)) as i64;
        proof {
            vstd::arithmetic::div_mod::lemma_fundamental_div_mod(n as int, b as int);
            assert(a == (-q0 - 1) * b + (b - 1 - r0)) by (nonlinear_arith)
                requires
                    n == -(a + 1),
                    n == b * q0 + r0,
            ;
            vstd::arithmetic::div_mod::lemma_fundamental_div_mod_converse(
                a as int,
                b as int,
                -q0 - 1,
                b - 1 - r0,
            );
        }
        (-q0 - 1, b - 1 - r0)
    }
}

/// The civil date and time of day of a unix timestamp.
pub open spec fn spec_rfc3339(secs: int) -> Seq<char> {
    let days = secs / 86400;
    let rem = secs % 86400;
    let (y, m, d) = civil_from_days(days);
    padded(y, 4) + seq!['-'] + padded(m, 2) + seq!['-'] + padded(d, 2) + seq!['T'] + padded(
        rem / 3600,
        2,
    ) + seq![':'] + padded((rem % 3600) / 60, 2) + seq![':'] + padded(rem % 60, 2) + seq!['Z']
}

/// Formats a unix timestamp as an RFC 3339 UTC string.
pub fn format_rfc3339_utc(secs: i64) -> (r: String)
    ensures
        r@ == spec_rfc3339(secs as int),
{
    let (days, rem) = floor_div_mod(secs, 86400);
    let hour = rem / 3600;
    let minute = (rem % 3600) / 60;
    let second = rem % 60;
    assert(-106751991167301 <= days <= 106751991167300) by (nonlinear_arith)
        requires
            days == secs as int / 86400,
            i64::MIN <= secs <= i64::MAX,
    ;
    let z = days + 719468;
    let (era, doe) = floor_div_mod(z, 146097);
    assert(0 <= doe < 146097);
    assert(-731000000 <= era <= 731000000) by (nonlinear_arith)
        requires
            era == z as int / 146097,
            -106751991167301 + 719468 <= z <= 106751991167300 + 719468,
    ;
    let yoe = (doe - doe / 1460 + doe / 36524 - doe / 146096) / 365;
    let y = yoe + era * 400;
    let doy = doe - (365 * yoe + yoe / 4 - yoe / 100);
    assert(0 <= yoe < 400 && 0 <= doy < 366) by (nonlinear_arith)
        requires
            0 <= doe < 146097,
            yoe == (doe - doe / 1460 + doe / 36524 - doe / 146096) / 365,
            doy == doe - (365 * yoe + yoe / 4 - yoe / 100),
    ;
    let mp = (5 * doy + 2) / 153;
    let d = doy - (153 * mp + 2) / 5 + 1;
    let m = if mp < 10 {
        mp + 3
    } else {
        mp - 9
    };
    let year = if m <= 2 {
        y + 1
    } else {
        y
    };
    proof {
        assert(z as int - era as int * 146097 == doe as int);
    }
    let mut out: Vec<char> = Vec::new();
    push_padded(&mut out, year, 4);
    out.push('-');
    push_padded(&mut out, m, 2);
    out.push('-');
    push_padded(&mut out, d, 2);
    out.push('T');
    push_padded(&mut out, hour, 2);
    out.push(':');
    push_padded(&mut out, minute, 2);
    out.push(':');
    push_padded(&mut out, second, 2);
    out.push('Z');
    let r = string_of(out.as_slice());
    assert(r@ =~= spec_rfc3339(secs as int));
    r
}

/// The whole days since the epoch that `current_date` counts: negative
/// times count as the epoch, and the count is kept modulo 2^32.
pub open spec fn day_count(now_unix_secs: i64) -> int {
    (if now_unix_secs > 0 {
        now_unix_secs as int
    } else {
        0
    } / 86400) % 0x1_0000_0000
}

pub open spec fn spec_current_date(now_unix_secs: i64) -> Seq<char> {
    let (y, m, d) = civil_from_days(day_count(now_unix_secs));
    padded(y, 4) + seq!['-'] + padded(m, 2) + seq!['-'] + padded(d, 2)
}

/// Today's date, `YYYY-MM-DD`, for the system prompt.
pub fn current_date(now_unix_secs: i64) -> (r: String)
    requires
        day_count(now_unix_secs) + 719468 <= u32::MAX,
    ensures
        r@ == spec_current_date(now_unix_secs),
{
    let secs: u64 = if now_unix_secs > 0 {
        now_unix_secs as u64
    } else {
        0
    };
    let days64 = secs / 86400;
    let days: u32 = (days64 % 0x1_0000_0000u64) as u32;
    let z = days + 719468;
    let era = z / 146097;
    let doe = z - era * 146097;
    let yoe = (doe - doe / 1460 + doe / 36524 - doe / 146096) / 365;
    let y = yoe + era * 400;
    let doy = doe - (365 * yoe + yoe / 4 - yoe / 100);
    assert(0 <= yoe < 400 && 0 <= doy < 366) by (nonlinear_arith)
        requires
            0 <= doe < 146097,
            yoe == (doe - doe / 1460 + doe / 36524 - doe / 146096) / 365,
            doy == doe - (365 * yoe + yoe / 4 - yoe / 100),
    ;
    assert(era <= 29398);
    let mp = (5 * doy + 2) / 153;
    let d = doy - (153 * mp + 2) / 5 + 1;
    let m = if mp < 10 {
        mp + 3
    } else {
        mp - 9
    };
    let year = if m <= 2 {
        y + 1
    } else {
        y
    };
    let mut out: Vec<char> = Vec::new();
    push_padded(&mut out, year as i64, 4);
    out.push('-');
    push_padded(&mut out, m as i64, 2);
    out.push('-');
    push_padded(&mut out, d as i64, 2);
    let r = string_of(out.as_slice());
    assert(r@ =~= spec_current_date(now_unix_secs));
    r
}

// ---------------------------------------------------------------------------
// The calendar.
// ---------------------------------------------------------------------------

/// Gregorian leap years.
pub open spec fn is_leap_year(y: int) -> bool {
    y % 4 == 0 && (y % 100 != 0 || y % 400 == 0)
}

/// Days in month `m` (1-12) of year `y`.
pub open spec fn days_in_month(y: int, m: int) -> int {
    if m == 2 {
        if is_leap_year(y) {
            29
        } else {
            28
        }
    } else if m == 4 || m == 6 || m == 9 || m == 11 {
        30
    } else {
        31
    }
}

/// Days of year `y` before the first of month `m`.
pub open spec fn days_before_month(y: int, m: int) -> int {
    (if m == 1 {
        0int
    } else if m == 2 {
        31
    } else if m == 3 {
        59
    } else if m == 4 {
        90
    } else if m == 5 {
        120
    } else if m == 6 {
        151
    } else if m == 7 {
        181
    } else if m == 8 {
        212
    } else if m == 9 {
        243
    } else if m == 10 {
        273
    } else if m == 11 {
        304
    } else {
        334
    }) + if m > 2 && is_leap_year(y) {
        1int
    } else {
        0
    }
}

/// Days from 1 January of year 0 to 1 January of year `y`: 365 a year and
/// one more for each leap year before `y`.
pub open spec fn days_to_year(y: int) -> int {
    365 * y + (y + 3) / 4 - (y + 99) / 100 + (y + 399) / 400
}

/// The day number (days after 1970-01-01) of a calendar date.
pub open spec fn days_from_civil(y: int, m: int, d: int) -> int {
    days_to_year(y) - days_to_year(1970) + days_before_month(y, m) + d - 1
}

/// The year of an era that day `doe` of the era (counted from 1 March of
/// its first year) falls in, by March-based years.
proof fn lemma_year_of_era(doe: u32)
    requires
        doe < 146097,
    ensures
        ({
            let yoe = (doe - doe / 1460 + doe / 36524 - doe / 146096) / 365;
            &&& yoe <= 399
            &&& 365 * yoe + yoe / 4 - yoe / 100 <= doe
            &&& doe < 365 * (yoe + 1) + (yoe + 1) / 4 - (yoe + 1) / 100 + (if yoe == 399 {
                1int
            } else {
                0
            })
        }),
{
    assert({
        let yoe = (doe - doe / 1460 + doe / 36524 - doe / 146096) / 365;
        &&& yoe <= 399
        &&& 365 * yoe + yoe / 4 - yoe / 100 <= doe
        &&& doe < 365 * (yoe + 1) + (yoe + 1) / 4 - (yoe + 1) / 100 + (if yoe == 399 {
            1u32
        } else {
            0u32
        })
    }) by (bit_vector)
        requires
            doe < 146097,
    ;
}

/// The month and day of day `doy` of a March-based year.
proof fn lemma_month_of_year(doy: u32)
    requires
        doy <= 365,
    ensures
        ({
            let mp = (5 * doy + 2) / 153;
            let d = doy - (153 * mp + 2) / 5 + 1;
            &&& mp <= 11
            &&& 1 <= d
            &&& (mp == 0 || mp == 2 || mp == 4 || mp == 5 || mp == 7 || mp == 9 || mp == 10) ==> d
                <= 31
            &&& (mp == 1 || mp == 3 || mp == 6 || mp == 8) ==> d <= 30
            &&& mp == 11 ==> d <= 29 && (d == 29 ==> doy == 365)
        }),
{
    assert({
        let mp = (5 * doy + 2) / 153;
        let d = doy - (153 * mp + 2) / 5 + 1;
        &&& mp <= 11
        &&& 1 <= d
        &&& (mp == 0 || mp == 2 || mp == 4 || mp == 5 || mp == 7 || mp == 9 || mp == 10) ==> d
            <= 31
        &&& (mp == 1 || mp == 3 || mp == 6 || mp == 8) ==> d <= 30
        &&& mp == 11 ==> d <= 29 && (d == 29 ==> doy == 365)
    }) by (bit_vector)
        requires
            doy <= 365,
    ;
}

/// Lengths and leap-day counts within an era.
proof fn lemma_year_lengths(yoe: u32)
    requires
        yoe <= 399,
    ensures
        365 * (yoe + 1) + (yoe + 1) / 4 - (yoe + 1) / 100 + (if yoe == 399 {
            1int
        } else {
            0
        }) - (365 * yoe + yoe / 4 - yoe / 100) == 365 + if (yoe + 1) % 4 == 0 && ((yoe + 1) % 100
            != 0 || (yoe + 1) % 400 == 0) {
            1int
        } else {
            0
        },
        (yoe + 3) / 4 - (yoe + 99) / 100 + (yoe + 399) / 400 + (if yoe % 4 == 0 && (yoe % 100 != 0
            || yoe % 400 == 0) {
            1int
        } else {
            0
        }) == yoe / 4 - yoe / 100 + 1,
        (yoe + 4) / 4 - (yoe + 100) / 100 + (yoe + 400) / 400 == yoe / 4 - yoe / 100 + 1,
{
    assert(365 * (yoe + 1) + (yoe + 1) / 4 - (yoe + 1) / 100 + (if yoe == 399 {
        1u32
    } else {
        0u32
    }) - (365 * yoe + yoe / 4 - yoe / 100) == 365 + if (yoe + 1) % 4 == 0 && ((yoe + 1) % 100 != 0
        || (yoe + 1) % 400 == 0) {
        1u32
    } else {
        0u32
    }) by (bit_vector)
        requires
            yoe <= 399,
    ;
    assert((yoe + 3) / 4 - (yoe + 99) / 100 + (yoe + 399) / 400 + (if yoe % 4 == 0 && (yoe % 100
        != 0 || yoe % 400 == 0) {
        1u32
    } else {
        0u32
    }) == yoe / 4 - yoe / 100 + 1) by (bit_vector)
        requires
            yoe <= 399,
    ;
    assert((yoe + 4) / 4 - (yoe + 100) / 100 + (yoe + 400) / 400 == yoe / 4 - yoe / 100 + 1)
        by (bit_vector)
        requires
            yoe <= 399,
    ;
}

/// `(k * n + x) / n` and `% n`, for a whole number `k` of periods `n`.
proof fn lemma_shift_div(k: int, n: int, x: int)
    requires
        n > 0,
    ensures
        (k * n + x) / n == k + x / n,
        (k * n + x) % n == x % n,
{
    vstd::arithmetic::div_mod::lemma_fundamental_div_mod(x, n);
    assert(k * n + x == (k + x / n) * n + x % n) by (nonlinear_arith)
        requires
            x == n * (x / n) + x % n,
    ;
    vstd::arithmetic::div_mod::lemma_fundamental_div_mod_converse(k * n + x, n, k + x / n, x % n);
}

/// Whole eras of 400 years shift day numbers by 146097 days each and keep
/// leap years.
proof fn lemma_era_shift(e: int, y: int)
    ensures
        days_to_year(400 * e + y) == 146097 * e + days_to_year(y),
        is_leap_year(400 * e + y) == is_leap_year(y),
{
    lemma_shift_div(100 * e, 4, y + 3);
    lemma_shift_div(4 * e, 100, y + 99);
    lemma_shift_div(e, 400, y + 399);
    lemma_shift_div(100 * e, 4, y);
    lemma_shift_div(4 * e, 100, y);
    lemma_shift_div(e, 400, y);
    assert(100 * e * 4 == 400 * e && 4 * e * 100 == 400 * e) by (nonlinear_arith);
}

/// Hinnant's conversion gives the calendar date of every day: a month of
/// the year, a day of that month, and the date whose day number is the
/// one converted.
pub proof fn lemma_civil_from_days(days: int)
    ensures
        ({
            let (y, m, d) = civil_from_days(days);
            &&& 1 <= m <= 12
            &&& 1 <= d <= days_in_month(y, m)
            &&& days_from_civil(y, m, d) == days
        }),
{
    let z = days + 719468;
    let era = z / 146097;
    let doe = z - era * 146097;
    vstd::arithmetic::div_mod::lemma_fundamental_div_mod(z, 146097);
    assert(0 <= doe < 146097);
    lemma_year_of_era(doe as u32);
    let yoe = (doe - doe / 1460 + doe / 36524 - doe / 146096) / 365;
    lemma_year_lengths(yoe as u32);
    let doy = doe - (365 * yoe + yoe / 4 - yoe / 100);
    assert(0 <= doy <= 365);
    lemma_month_of_year(doy as u32);
    let mp = (5 * doy + 2) / 153;
    let d = doy - (153 * mp + 2) / 5 + 1;
    let m = if mp < 10 {
        mp + 3
    } else {
        mp - 9
    };
    let yl = if m <= 2 {
        yoe + 1
    } else {
        yoe
    };
    let y = yl + era * 400;
    assert(civil_from_days(days) == (y, m, d));
    lemma_era_shift(era, yl);
    assert(400 * era + yl == y);
    assert(days_to_year(1970) == 719528);
    if mp == 11 && d == 29 {
        assert(is_leap_year(yl));
    }
    assert(days_from_civil(y, m, d) == days) by {
        if mp == 0 {
        } else if mp == 1 {
        } else if mp == 2 {
        } else if mp == 3 {
        } else if mp == 4 {
        } else if mp == 5 {
        } else if mp == 6 {
        } else if mp == 7 {
        } else if mp == 8 {
        } else if mp == 9 {
        } else if mp == 10 {
        } else {
        }
    }
}

/// Today's date is the date part of the RFC 3339 timestamp: for a
/// non-negative time whose day number does not wrap around in `u32` the
/// timestamp starts with the date and a `T`; a time before the epoch gives
/// the date of the epoch.
pub proof fn lemma_current_date_is_timestamp_date(now_unix_secs: i64)
    requires
        now_unix_secs as int / 86400 + 719468 <= u32::MAX,
    ensures
        now_unix_secs >= 0 ==> crate::text::has_prefix(
            spec_rfc3339(now_unix_secs as int),
            spec_current_date(now_unix_secs) + seq!['T'],
        ),
        now_unix_secs < 0 ==> spec_current_date(now_unix_secs) == spec_current_date(0),
        crate::text::has_prefix(spec_rfc3339(0), spec_current_date(0) + seq!['T']),
{
    assert(day_count(0) == 0);
    if now_unix_secs >= 0 {
        let n = now_unix_secs as int;
        assert(n / 86400 >= 0);
        assert(day_count(now_unix_secs) == n / 86400) by {
            assert(n / 86400 < 0x1_0000_0000);
        }
        let (y, m, d) = civil_from_days(n / 86400);
        let date = padded(y, 4) + seq!['-'] + padded(m, 2) + seq!['-'] + padded(d, 2);
        let rem = n % 86400;
        let rest = padded(rem / 3600, 2) + seq![':'] + padded((rem % 3600) / 60, 2) + seq![':']
            + padded(rem % 60, 2) + seq!['Z'];
        assert(spec_rfc3339(n) =~= (date + seq!['T']) + rest);
        assert(spec_current_date(now_unix_secs) == date);
        assert(((date + seq!['T']) + rest).take((date + seq!['T']).len() as int) =~= date + seq!['T']);
    }
    let (y0, m0, d0) = civil_from_days(0);
    let date0 = padded(y0, 4) + seq!['-'] + padded(m0, 2) + seq!['-'] + padded(d0, 2);
    let rest0 = padded(0, 2) + seq![':'] + padded(0, 2) + seq![':'] + padded(0, 2) + seq!['Z'];
    assert(spec_rfc3339(0) =~= (date0 + seq!['T']) + rest0);
    assert(((date0 + seq!['T']) + rest0).take((date0 + seq!['T']).len() as int) =~= date0 + seq!['T']);
}

} // verus!
