//! Calendar dates: the civil date of a day number (days since
//! 1970-01-01) and its "YYYY-MM-DD" text form.

use vstd::prelude::*;

use crate::textops::string_from_chars;

verus! {

/// The last representable day: 9999-12-31.
pub const MAX_DAY: i64 = 2932896;

/// Whether a year is a leap year.
pub open spec fn is_leap_year(y: int) -> bool {
    y % 4 == 0 && (y % 100 != 0 || y % 400 == 0)
}

/// Days in a year.
pub open spec fn spec_days_in_year(y: int) -> int {
    if is_leap_year(y) {
        366
    } else {
        365
    }
}

/// Days in a month.
pub open spec fn spec_days_in_month(y: int, m: int) -> int {
    if m == 2 {
        if is_leap_year(y) {
            29
        } else {
            28
        }
    } else if m == 4 || m == 6 || m == 9 || m == 11 {
        30
    } else {
        31
    }
}

/// Days between 1970-01-01 and the first day of year `y`, for years
/// from 1970 on: 365 days a year plus one for each leap year passed.
pub open spec fn days_before_year(y: int) -> int {
    365 * (y - 1970) + ((y - 1) / 4 - 492) - ((y - 1) / 100 - 19) + ((y - 1) / 400 - 4)
}

/// Days between the first of January and the first day of month `m`.
pub open spec fn days_before_month(y: int, m: int) -> int
    decreases m,
{
    if m <= 1 {
        0
    } else {
        days_before_month(y, m - 1) + spec_days_in_month(y, m - 1)
    }
}

/// The day number of the civil date (y, m, d).
pub open spec fn day_number(y: int, m: int, d: int) -> int {
    days_before_year(y) + days_before_month(y, m) + d - 1
}

/// The year a day number falls in, with the day's offset into that
/// year: years are consumed from `y` upward until the rest fits.
pub open spec fn split_year(rem: int, y: int) -> (int, int)
    decreases rem,
{
    if rem < spec_days_in_year(y) || rem < 0 {
        (y, rem)
    } else {
        split_year(rem - spec_days_in_year(y), y + 1)
    }
}

/// The month a day offset within year `y` falls in, with the offset
/// into that month.
pub open spec fn split_month(y: int, rem: int, m: int) -> (int, int)
    decreases 13 - m,
{
    if m >= 13 || rem < spec_days_in_month(y, m) || rem < 0 {
        (m, rem)
    } else {
        split_month(y, rem - spec_days_in_month(y, m), m + 1)
    }
}

/// The civil date of a day number.
pub open spec fn spec_civil_of_day(day: int) -> (int, int, int) {
    let yr = split_year(day, 1970);
    let md = split_month(yr.0, yr.1, 1);
    (yr.0, md.0, md.1 + 1)
}

/// Days in a year.
pub fn days_in_year(y: i64) -> (r: i64)
    requires
        0 <= y <= 10000,
    ensures
        r == spec_days_in_year(y as int),
{
    if y % 4 == 0 && (y % 100 != 0 || y % 400 == 0) {
        366
    } else {
        365
    }
}

/// Days in a month.
pub fn days_in_month(y: i64, m: i64) -> (r: i64)
    requires
        0 <= y <= 10000,
        1 <= m <= 12,
    ensures
        r == spec_days_in_month(y as int, m as int),
{
    if m == 2 {
        if y % 4 == 0 && (y % 100 != 0 || y % 400 == 0) {
            29
        } else {
            28
        }
    } else if m == 4 || m == 6 || m == 9 || m == 11 {
        30
    } else {
        31
    }
}

/// Dividing by `k` steps up by one exactly at the multiples of `k`.
proof fn lemma_div_step(y: int, k: int)
    requires
        1 <= k,
    ensures
        y / k - (y - 1) / k == (if y % k == 0 {
            1int
        } else {
            0int
        }),
{
    vstd::arithmetic::div_mod::lemma_fundamental_div_mod(y, k);
    let q = y / k;
    let r = y % k;
    if r == 0 {
        assert(y - 1 == (q - 1) * k + (k - 1)) by (nonlinear_arith)
            requires
                y == k * q + r && r == 0,
        ;
        vstd::arithmetic::div_mod::lemma_fundamental_div_mod_converse_div(y - 1, k, q - 1, k - 1);
    } else {
        assert(y - 1 == q * k + (r - 1)) by (nonlinear_arith)
            requires
                y == k * q + r,
        ;
        vstd::arithmetic::div_mod::lemma_fundamental_div_mod_converse_div(y - 1, k, q, r - 1);
    }
}

/// A multiple of `a * b` is a multiple of `b`.
proof fn lemma_mod_factor(y: int, a: int, b: int)
    requires
        1 <= a,
        1 <= b,
        y % (a * b) == 0,
    ensures
        y % b == 0,
{
    vstd::arithmetic::mul::lemma_mul_strictly_positive(a, b);
    vstd::arithmetic::div_mod::lemma_fundamental_div_mod(y, a * b);
    let q = y / (a * b);
    assert(y == b * (a * q) + 0) by (nonlinear_arith)
        requires
            y == (a * b) * q,
    ;
    assert(b * (a * q) == (a * q) * b) by (nonlinear_arith);
    vstd::arithmetic::div_mod::lemma_fundamental_div_mod_converse_mod(y, b, a * q, 0);
}

/// Passing one year adds that year's length to the day count.
proof fn lemma_days_before_year_step(y: int)
    ensures
        days_before_year(y + 1) == days_before_year(y) + spec_days_in_year(y),
{
    lemma_div_step(y, 4);
    lemma_div_step(y, 100);
    lemma_div_step(y, 400);
    if y % 400 == 0 {
        lemma_mod_factor(y, 4, 100);
    }
    if y % 100 == 0 {
        lemma_mod_factor(y, 25, 4);
    }
}

/// The day count up to a year grows with the year.
proof fn lemma_days_before_year_mono(a: int, b: int)
    requires
        a <= b,
    ensures
        days_before_year(a) <= days_before_year(b),
    decreases b - a,
{
    if a < b {
        lemma_days_before_year_mono(a, b - 1);
        lemma_days_before_year_step(b - 1);
    }
}

/// The civil date of a day number: the year, month and day it denotes.
pub fn civil_of_day(day: i64) -> (r: (i64, i64, i64))
    requires
        0 <= day <= MAX_DAY,
    ensures
        (r.0 as int, r.1 as int, r.2 as int) == spec_civil_of_day(day as int),
        1970 <= r.0 <= 9999,
        1 <= r.1 <= 12,
        1 <= r.2 <= spec_days_in_month(r.0 as int, r.1 as int),
        day_number(r.0 as int, r.1 as int, r.2 as int) == day,
{
    proof {
        assert(days_before_year(10000) == 2932897);
        assert(days_before_year(1970) == 0);
    }
    let mut y: i64 = 1970;
    let mut rem: i64 = day;
    while rem >= days_in_year(y)
        invariant
            1970 <= y <= 9999,
            0 <= rem,
            days_before_year(y as int) + rem == day,
            day <= MAX_DAY,
            split_year(day as int, 1970) == split_year(rem as int, y as int),
        decreases rem,
    {
        let diy = days_in_year(y);
        proof {
            lemma_days_before_year_step(y as int);
            if y as int + 1 >= 10000 {
                lemma_days_before_year_mono(10000, y as int + 1);
                assert(days_before_year(10000) == 2932897);
                assert(days_before_year(y as int + 1) >= 2932897);
            }
        }
        rem = rem - diy;
        y = y + 1;
    }
    let mut m: i64 = 1;
    proof {
        assert(days_before_month(y as int, 13) == spec_days_in_year(y as int)) by {
            reveal_with_fuel(days_before_month, 14);
        }
    }
    while m < 12 && rem >= days_in_month(y, m)
        invariant
            1970 <= y <= 9999,
            1 <= m <= 12,
            0 <= rem,
            rem < spec_days_in_year(y as int) - days_before_month(y as int, m as int),
            days_before_year(y as int) + days_before_month(y as int, m as int) + rem == day,
            split_year(day as int, 1970) == (y as int, (days_before_month(y as int, m as int)
                + rem) as int),
            split_month(y as int, days_before_month(y as int, m as int) + rem, 1) == split_month(
                y as int,
                rem as int,
                m as int,
            ),
            days_before_month(y as int, 13) == spec_days_in_year(y as int),
        decreases 12 - m,
    {
        let dim = days_in_month(y, m);
        rem = rem - dim;
        m = m + 1;
    }
    proof {
        if m < 12 {
            assert(split_month(y as int, rem as int, m as int) == (m as int, rem as int));
        } else {
            assert(days_before_month(y as int, 13) == days_before_month(y as int, 12)
                + spec_days_in_month(y as int, 12));
            assert(rem < spec_days_in_month(y as int, 12));
            assert(split_month(y as int, rem as int, 12) == (12int, rem as int));
        }
    }
    (y, m, rem + 1)
}

/// The digit character of a value between 0 and 9.
pub open spec fn digit_char(d: int) -> char {
    if d == 0 {
        '0'
    } else if d == 1 {
        '1'
    } else if d == 2 {
        '2'
    } else if d == 3 {
        '3'
    } else if d == 4 {
        '4'
    } else if d == 5 {
        '5'
    } else if d == 6 {
        '6'
    } else if d == 7 {
        '7'
    } else if d == 8 {
        '8'
    } else {
        '9'
    }
}

/// The digit character of a value between 0 and 9.
fn digit(d: i64) -> (r: char)
    requires
        0 <= d <= 9,
    ensures
        r == digit_char(d as int),
{
    if d == 0 {
        '0'
    } else if d == 1 {
        '1'
    } else if d == 2 {
        '2'
    } else if d == 3 {
        '3'
    } else if d == 4 {
        '4'
    } else if d == 5 {
        '5'
    } else if d == 6 {
        '6'
    } else if d == 7 {
        '7'
    } else if d == 8 {
        '8'
    } else {
        '9'
    }
}

/// The ten characters of a date in "YYYY-MM-DD" form.
pub open spec fn spec_date_chars(y: int, m: int, d: int) -> Seq<char> {
    seq![
        digit_char(y / 1000 % 10),
        digit_char(y / 100 % 10),
        digit_char(y / 10 % 10),
        digit_char(y % 10),
        '-',
        digit_char(m / 10),
        digit_char(m % 10),
        '-',
        digit_char(d / 10),
        digit_char(d % 10),
    ]
}

/// A date in "YYYY-MM-DD" form, zero-padded.
pub fn format_date(y: i64, m: i64, d: i64) -> (r: String)
    requires
        0 <= y <= 9999,
        0 <= m <= 12,
        0 <= d <= 31,
    ensures
        r@ == spec_date_chars(y as int, m as int, d as int),
{
    let mut cs: Vec<char> = Vec::new();
    cs.push(digit(y / 1000 % 10));
    cs.push(digit(y / 100 % 10));
    cs.push(digit(y / 10 % 10));
    cs.push(digit(y % 10));
    cs.push('-');
    cs.push(digit(m / 10));
    cs.push(digit(m % 10));
    cs.push('-');
    cs.push(digit(d / 10));
    cs.push(digit(d % 10));
    proof {
        assert(cs@ =~= spec_date_chars(y as int, m as int, d as int));
    }
    string_from_chars(&cs)
}

/// The "YYYY-MM-DD" text of a day number.
pub open spec fn spec_format_day(day: int) -> Seq<char> {
    let c = spec_civil_of_day(day);
    spec_date_chars(c.0, c.1, c.2)
}

/// The "YYYY-MM-DD" text of a day number.
pub fn format_day(day: i64) -> (r: String)
    requires
        0 <= day <= MAX_DAY,
    ensures
        r@ == spec_format_day(day as int),
{
    let (y, m, d) = civil_of_day(day);
    format_date(y, m, d)
}

} // verus!
