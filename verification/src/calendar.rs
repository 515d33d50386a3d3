//! The proleptic Gregorian calendar, counted in days from 1970-01-01, and the
//! RFC-3339 rendering of a Unix timestamp.

use vstd::prelude::*;

use vstd::arithmetic::div_mod::{lemma_fundamental_div_mod, lemma_fundamental_div_mod_converse, lemma_mod_bound};

use crate::text::{is_ascii_digit, lemma_padded_digits, pow10, push_zero_padded, signed_zero_padded, string_of, zero_padded};

verus! {

/// `y` is a leap year: divisible by 4, and not by 100 unless by 400.
pub open spec fn is_leap(y: int) -> bool {
    (y % 4 == 0 && y % 100 != 0) || y % 400 == 0
}

/// The number of days of year `y`.
pub open spec fn year_days(y: int) -> int {
    if is_leap(y) {
        366
    } else {
        365
    }
}

/// The number of days of month `m` (1 to 12) of year `y`.
pub open spec fn month_days(y: int, m: int) -> int {
    if m == 2 {
        if is_leap(y) {
            29
        } else {
            28
        }
    } else if m == 4 || m == 6 || m == 9 || m == 11 {
        30
    } else {
        31
    }
}

/// The days from 1970-01-01 to the first day of year `y` (negative for
/// earlier years).
pub open spec fn days_before_year(y: int) -> int
    decreases (if y >= 1970 { y - 1970 } else { 1970 - y }),
{
    if y == 1970 {
        0
    } else if y > 1970 {
        days_before_year(y - 1) + year_days(y - 1)
    } else {
        days_before_year(y + 1) - year_days(y)
    }
}

/// The days from the first day of year `y` to the first day of month `m`.
pub open spec fn days_before_month(y: int, m: int) -> int
    decreases m,
{
    if m <= 1 {
        0
    } else {
        days_before_month(y, m - 1) + month_days(y, m - 1)
    }
}

/// `y`-`m`-`d` is a date of the calendar.
pub open spec fn valid_date(y: int, m: int, d: int) -> bool {
    1 <= m <= 12 && 1 <= d <= month_days(y, m)
}

/// The days from 1970-01-01 to the date `y`-`m`-`d`.
pub open spec fn days_from_civil(y: int, m: int, d: int) -> int {
    days_before_year(y) + days_before_month(y, m) + d - 1
}

/// The date `days` days after 1970-01-01 (before it, when negative).
pub open spec fn civil(days: int) -> (int, int, int) {
    choose|t: (int, int, int)| valid_date(t.0, t.1, t.2) && days_from_civil(t.0, t.1, t.2) == days
}

/// The RFC-3339 UTC rendering of `secs` seconds after the Unix epoch:
/// `YYYY-MM-DDTHH:MM:SSZ`, the year zero-padded to four characters (its sign
/// included), every other field to two digits.
pub open spec fn rfc3339(secs: int) -> Seq<char> {
    let days = secs / 86400;
    let rem = secs % 86400;
    let c = civil(days);
    signed_zero_padded(c.0, 4) + seq!['-'] + zero_padded(c.1 as nat, 2) + seq!['-'] + zero_padded(c.2 as nat, 2)
        + seq!['T'] + zero_padded((rem / 3600) as nat, 2) + seq![':'] + zero_padded(((rem % 3600) / 60) as nat, 2)
        + seq![':'] + zero_padded((rem % 60) as nat, 2) + seq!['Z']
}

/// `t` has the shape `YYYY-MM-DDTHH:MM:SSZ`: twenty characters, digits
/// everywhere but the separators.
pub open spec fn timestamp_shaped(t: Seq<char>) -> bool {
    &&& t.len() == 20
    &&& forall|i: int|
        0 <= i < 20 ==> if i == 4 || i == 7 {
            #[trigger] t[i] == '-'
        } else if i == 10 {
            t[i] == 'T'
        } else if i == 13 || i == 16 {
            t[i] == ':'
        } else if i == 19 {
            t[i] == 'Z'
        } else {
            is_ascii_digit(t[i])
        }
}

/// A date with a four-digit year and a time of day render in that shape.
proof fn lemma_render_shape(y: int, mo: int, d: int, rem: int)
    requires
        0 <= y <= 9999,
        1 <= mo <= 12,
        1 <= d <= 31,
        0 <= rem < 86400,
    ensures
        timestamp_shaped(signed_zero_padded(y, 4) + seq!['-'] + zero_padded(mo as nat, 2) + seq!['-'] + zero_padded(
            d as nat, 2) + seq!['T'] + zero_padded((rem / 3600) as nat, 2) + seq![':'] + zero_padded(
            ((rem % 3600) / 60) as nat, 2) + seq![':'] + zero_padded((rem % 60) as nat, 2) + seq!['Z']),
{
    assert(pow10(1) == 10 && pow10(2) == 100 && pow10(3) == 1000 && pow10(4) == 10000) by {
        reveal_with_fuel(pow10, 5);
    }
    let a = zero_padded(y as nat, 4);
    let b = zero_padded(mo as nat, 2);
    let c = zero_padded(d as nat, 2);
    let h = zero_padded((rem / 3600) as nat, 2);
    let mi = zero_padded(((rem % 3600) / 60) as nat, 2);
    let se = zero_padded((rem % 60) as nat, 2);
    lemma_padded_digits(y as nat, 4);
    lemma_padded_digits(mo as nat, 2);
    lemma_padded_digits(d as nat, 2);
    lemma_padded_digits((rem / 3600) as nat, 2);
    lemma_padded_digits(((rem % 3600) / 60) as nat, 2);
    lemma_padded_digits((rem % 60) as nat, 2);
    let t = a + seq!['-'] + b + seq!['-'] + c + seq!['T'] + h + seq![':'] + mi + seq![':'] + se + seq!['Z'];
    assert(signed_zero_padded(y, 4) == a);
    let u = seq![a[0], a[1], a[2], a[3], '-', b[0], b[1], '-', c[0], c[1], 'T', h[0], h[1], ':', mi[0], mi[1], ':', se[0],
        se[1], 'Z'];
    assert(t =~= u);
    assert(is_ascii_digit(a[0]) && is_ascii_digit(a[1]) && is_ascii_digit(a[2]) && is_ascii_digit(a[3]));
    assert(is_ascii_digit(b[0]) && is_ascii_digit(b[1]) && is_ascii_digit(c[0]) && is_ascii_digit(c[1]));
    assert(is_ascii_digit(h[0]) && is_ascii_digit(h[1]) && is_ascii_digit(mi[0]) && is_ascii_digit(mi[1]));
    assert(is_ascii_digit(se[0]) && is_ascii_digit(se[1]));
}

// ── arithmetic ──────────────────────────────────────────────────────────────

/// Euclidean division of `x` by `d`, written as quotient and remainder.
proof fn lemma_div_parts(x: int, d: int)
    requires
        d > 0,
    ensures
        x == d * (x / d) + x % d,
        0 <= x % d < d,
{
    lemma_fundamental_div_mod(x, d);
    lemma_mod_bound(x, d);
}

/// Shifting by `k` multiples of `d` shifts the quotient by `k` and keeps the
/// remainder.
proof fn lemma_div_shift(x: int, d: int, k: int)
    requires
        d > 0,
    ensures
        (x + d * k) / d == x / d + k,
        (x + d * k) % d == x % d,
{
    lemma_div_parts(x, d);
    let q = x / d;
    let r = x % d;
    assert(x + d * k == (q + k) * d + r) by (nonlinear_arith)
        requires
            x == d * q + r,
    ;
    lemma_fundamental_div_mod_converse(x + d * k, d, q + k, r);
}

/// Stepping from `y - 1` to `y` raises the quotient by `d` exactly when `d`
/// divides `y`.
proof fn lemma_div_step(y: int, d: int)
    requires
        d > 0,
    ensures
        y / d - (y - 1) / d == (if y % d == 0 { 1int } else { 0int }),
{
    lemma_div_parts(y - 1, d);
    let q = (y - 1) / d;
    let r = (y - 1) % d;
    if r == d - 1 {
        assert(y == (q + 1) * d + 0) by (nonlinear_arith)
            requires
                y - 1 == d * q + r,
                r == d - 1,
        ;
        lemma_fundamental_div_mod_converse(y, d, q + 1, 0);
    } else {
        assert(y == q * d + (r + 1)) by (nonlinear_arith)
            requires
                y - 1 == d * q + r,
        ;
        lemma_fundamental_div_mod_converse(y, d, q, r + 1);
    }
}

/// The count of leap years up to `n`, shifted by a constant.
spec fn leaps(n: int) -> int {
    n / 4 - n / 100 + n / 400
}

proof fn lemma_leaps_step(y: int)
    ensures
        leaps(y) - leaps(y - 1) == (if is_leap(y) { 1int } else { 0int }),
{
    lemma_div_step(y, 4);
    lemma_div_step(y, 100);
    lemma_div_step(y, 400);
    lemma_div_parts(y, 400);
    lemma_div_parts(y, 100);
    lemma_div_parts(y, 4);
    if y % 400 == 0 {
        let q = y / 400;
        assert(y == 100 * (4 * q) + 0);
        lemma_fundamental_div_mod_converse(y, 100, 4 * q, 0);
        assert(y == 4 * (100 * q) + 0);
        lemma_fundamental_div_mod_converse(y, 4, 100 * q, 0);
    } else if y % 100 == 0 {
        let q = y / 100;
        assert(y == 4 * (25 * q) + 0);
        lemma_fundamental_div_mod_converse(y, 4, 25 * q, 0);
    }
}

/// The closed form of [`days_before_year`].
proof fn lemma_days_before_year(y: int)
    ensures
        days_before_year(y) == 365 * (y - 1970) + leaps(y - 1) - leaps(1969),
    decreases (if y >= 1970 { y - 1970 } else { 1970 - y }),
{
    if y > 1970 {
        lemma_days_before_year(y - 1);
        lemma_leaps_step(y - 1);
    } else if y < 1970 {
        lemma_days_before_year(y + 1);
        lemma_leaps_step(y);
    }
}

/// Each year follows the one before it.
proof fn lemma_year_step(y: int)
    ensures
        days_before_year(y + 1) == days_before_year(y) + year_days(y),
{
    lemma_days_before_year(y + 1);
    lemma_days_before_year(y);
    lemma_leaps_step(y);
}

/// The calendar repeats every 400 years, which hold 146097 days.
pub proof fn lemma_eras(y: int, e: int)
    ensures
        days_before_year(y + 400 * e) == days_before_year(y) + 146097 * e,
        is_leap(y + 400 * e) == is_leap(y),
{
    lemma_days_before_year(y + 400 * e);
    lemma_days_before_year(y);
    lemma_div_shift(y - 1, 4, 100 * e);
    lemma_div_shift(y - 1, 100, 4 * e);
    lemma_div_shift(y - 1, 400, e);
    lemma_div_shift(y, 4, 100 * e);
    lemma_div_shift(y, 100, 4 * e);
    lemma_div_shift(y, 400, e);
    assert(y - 1 + 400 * e == (y - 1) + 4 * (100 * e));
    assert(y - 1 + 400 * e == (y - 1) + 100 * (4 * e));
}

/// A month holds its days within the year.
proof fn lemma_months(y: int, m: int)
    requires
        1 <= m <= 13,
    ensures
        days_before_month(y, m) >= 0,
        m <= 12 ==> days_before_month(y, m + 1) == days_before_month(y, m) + month_days(y, m),
        days_before_month(y, 13) == year_days(y),
    decreases m,
{
    if m > 1 {
        lemma_months(y, m - 1);
    }
    reveal_with_fuel(days_before_month, 13);
}

/// Years of the same kind have the same months.
proof fn lemma_months_same(a: int, b: int, m: int)
    requires
        is_leap(a) == is_leap(b),
    ensures
        days_before_month(a, m) == days_before_month(b, m),
        month_days(a, m) == month_days(b, m),
    decreases m,
{
    if m > 1 {
        lemma_months_same(a, b, m - 1);
    }
}

/// Months come in order: a month ends no later than any later month begins.
proof fn lemma_month_order(y: int, m: int, n: int)
    requires
        1 <= m < n <= 13,
    ensures
        days_before_month(y, m) + month_days(y, m) <= days_before_month(y, n),
    decreases n - m,
{
    lemma_months(y, m);
    if m + 1 < n {
        lemma_month_order(y, m + 1, n);
        lemma_months(y, m + 1);
    }
}

/// Years come in order: a year ends no later than any later year begins.
proof fn lemma_year_order(a: int, b: int)
    requires
        a < b,
    ensures
        days_before_year(a) + year_days(a) <= days_before_year(b),
    decreases b - a,
{
    lemma_year_step(a);
    if a + 1 < b {
        lemma_year_order(a + 1, b);
    }
}

/// A date lies within its year.
proof fn lemma_date_in_year(y: int, m: int, d: int)
    requires
        valid_date(y, m, d),
    ensures
        days_before_year(y) <= days_from_civil(y, m, d) < days_before_year(y) + year_days(y),
{
    lemma_months(y, m);
    lemma_month_order(y, m, 13);
    lemma_months(y, 13);
}

/// Distinct dates are distinct days.
pub proof fn lemma_civil_unique(a: (int, int, int), b: (int, int, int))
    requires
        valid_date(a.0, a.1, a.2),
        valid_date(b.0, b.1, b.2),
        days_from_civil(a.0, a.1, a.2) == days_from_civil(b.0, b.1, b.2),
    ensures
        a == b,
{
    lemma_date_in_year(a.0, a.1, a.2);
    lemma_date_in_year(b.0, b.1, b.2);
    if a.0 < b.0 {
        lemma_year_order(a.0, b.0);
    } else if b.0 < a.0 {
        lemma_year_order(b.0, a.0);
    } else {
        lemma_months(a.0, a.1);
        lemma_months(b.0, b.1);
        if a.1 < b.1 {
            lemma_month_order(a.0, a.1, b.1);
        } else if b.1 < a.1 {
            lemma_month_order(b.0, b.1, a.1);
        }
    }
}

/// A valid date for the given day count is the one [`civil`] names.
proof fn lemma_civil_is(days: int, y: int, m: int, d: int)
    requires
        valid_date(y, m, d),
        days_from_civil(y, m, d) == days,
    ensures
        civil(days) == (y, m, d),
{
    let t = (y, m, d);
    assert(valid_date(t.0, t.1, t.2) && days_from_civil(t.0, t.1, t.2) == days);
    let c = civil(days);
    lemma_civil_unique(c, t);
}

// ── executable ──────────────────────────────────────────────────────────────

/// Whether the year `1970 + k` is a leap year.
fn leap_after(k: u64) -> (r: bool)
    requires
        k <= 400,
    ensures
        r == is_leap(1970 + k),
{
    let y = 1970 + k;
    (y % 4 == 0 && y % 100 != 0) || y % 400 == 0
}

/// Floor division and remainder of a signed value by a positive divisor.
fn floor_div(x: i64, d: u64) -> (r: (i64, u64))
    requires
        0 < d <= 1_000_000,
    ensures
        r.0 == x as int / d as int,
        r.1 == x as int % d as int,
{
    proof {
        lemma_div_parts(x as int, d as int);
    }
    if x >= 0 {
        let u = x as u64;
        let q = u / d;
        let r = u % d;
        proof {
            lemma_div_parts(u as int, d as int);
        }
        (q as i64, r)
    } else {
        let n = (-(x + 1)) as u64;
        let q = n / d;
        let r = n % d;
        proof {
            lemma_div_parts(n as int, d as int);
            assert(x as int == (-(q as int) - 1) * d + (d - 1 - r)) by (nonlinear_arith)
                requires
                    n as int == d * q + r,
                    x as int == -(n as int) - 1,
            ;
            lemma_fundamental_div_mod_converse(x as int, d as int, -(q as int) - 1, d - 1 - r);
        }
        (-(q as i64) - 1, d - 1 - r)
    }
}

/// Convert whole seconds since the Unix epoch to an RFC-3339 UTC string,
/// exactly for every date of the proleptic Gregorian calendar.
pub fn unix_secs_to_rfc3339(secs: i64) -> (r: String)
    ensures
        r@ == rfc3339(secs as int),
        0 <= civil(secs as int / 86400).0 <= 9999 ==> timestamp_shaped(r@),
{
    let (days, rem) = floor_div(secs, 86400);
    let (era, mut left) = floor_div(days, 146097);
    proof {
        lemma_div_parts(secs as int, 86400);
        lemma_div_parts(days as int, 146097);
        lemma_eras(1970, 1);
    }
    // whole years of the era
    let mut k: u64 = 0;
    let ghost start = left as int;
    loop
        invariant
            k <= 400,
            start < 146097,
            days_before_year(2370) == 146097,
            days_before_year(1970 + k) + left == start,
        ensures
            k < 400,
            left < year_days(1970 + k),
            days_before_year(1970 + k) + left == start,
        decreases 400 - k,
    {
        proof {
            lemma_year_step(1970 + k);
        }
        let len: u64 = if leap_after(k) { 366 } else { 365 };
        if left < len {
            break;
        }
        left = left - len;
        k = k + 1;
    }
    let leap = leap_after(k);
    // whole months of the year
    let mut m: u64 = 1;
    let ghost ystart = left as int;
    proof {
        lemma_months(1970 + k, 12);
        lemma_months(1970 + k, 13);
    }
    loop
        invariant
            1 <= m <= 12,
            leap == is_leap(1970 + k),
            ystart < year_days(1970 + k),
            days_before_month(1970 + k, 13) == year_days(1970 + k),
            days_before_month(1970 + k, 13) == days_before_month(1970 + k, 12) + month_days(1970 + k, 12),
            days_before_month(1970 + k, m as int) + left == ystart,
        ensures
            1 <= m <= 12,
            left < month_days(1970 + k, m as int),
            days_before_month(1970 + k, m as int) + left == ystart,
        decreases 12 - m,
    {
        let len: u64 = if m == 2 {
            if leap { 29 } else { 28 }
        } else if m == 4 || m == 6 || m == 9 || m == 11 {
            30
        } else {
            31
        };
        proof {
            lemma_months(1970 + k, m as int);
        }
        if left < len {
            break;
        }
        left = left - len;
        m = m + 1;
    }
    let day = left + 1;
    let year: i64 = 1970 + 400 * era + k as i64;
    proof {
        lemma_eras(1970 + k, era as int);
        lemma_months_same(year as int, 1970 + k, m as int);
        assert(days_from_civil(year as int, m as int, day as int) == days as int);
        lemma_civil_is(days as int, year as int, m as int, day as int);
    }
    let mut out: Vec<char> = Vec::new();
    if year < 0 {
        out.push('-');
        push_zero_padded(&mut out, (-year) as u64, 3);
    } else {
        push_zero_padded(&mut out, year as u64, 4);
    }
    out.push('-');
    push_zero_padded(&mut out, m, 2);
    out.push('-');
    push_zero_padded(&mut out, day, 2);
    out.push('T');
    push_zero_padded(&mut out, rem / 3600, 2);
    out.push(':');
    push_zero_padded(&mut out, (rem % 3600) / 60, 2);
    out.push(':');
    push_zero_padded(&mut out, rem % 60, 2);
    out.push('Z');
    assert(out@ =~= rfc3339(secs as int));
    proof {
        if 0 <= year <= 9999 {
            assert(month_days(year as int, m as int) <= 31);
            lemma_render_shape(year as int, m as int, day as int, rem as int);
        }
    }
    string_of(&out)
}

} // verus!
