//! Dates of daily notes, in whole numbers alone.
use crate::block::{decimal, is_digit};
use crate::index::{all_digits, without_plus};
use crate::text::{
    chars_of, digits_of, extend, extend_str, lemma_digits, number_chars, string_of, trim,
    trim_chars,
};
use std::time::{Duration, SystemTime, SystemTimeError};
use vstd::arithmetic::div_mod::{
    lemma_div_is_ordered_by_denominator, lemma_fundamental_div_mod,
    lemma_fundamental_div_mod_converse,
};
use vstd::prelude::*;
use vstd::slice::slice_subrange;

verus! {

/// The offset of the default time zone from UTC, in minutes.
pub const DEFAULT_OFFSET_MINUTES: i32 = 480;

// ---------- the calendar ----------

pub open spec fn is_leap(y: int) -> bool {
    y % 4 == 0 && (y % 100 != 0 || y % 400 == 0)
}

pub open spec fn days_in_month(y: int, m: int) -> int {
    if m == 2 {
        if is_leap(y) {
            29
        } else {
            28
        }
    } else if m == 4 || m == 6 || m == 9 || m == 11 {
        30
    } else {
        31
    }
}

/// The days of year `y` before month `m`.
pub open spec fn days_before_month(y: int, m: int) -> int
    decreases m,
{
    if m <= 1 {
        0
    } else {
        days_before_month(y, m - 1) + days_in_month(y, m - 1)
    }
}

/// The days before year `y`, counted from a fixed day.
pub open spec fn days_before_year(y: int) -> int {
    365 * y + (y - 1) / 4 - (y - 1) / 100 + (y - 1) / 400
}

pub open spec fn is_date(y: int, m: int, d: int) -> bool {
    1 <= m <= 12 && 1 <= d <= days_in_month(y, m)
}

/// The number of a day, counted from the first day of 1970.
pub open spec fn day_number(y: int, m: int, d: int) -> int {
    days_before_year(y) - days_before_year(1970) + days_before_month(y, m) + d - 1
}

/// One year more is as many days more as the year has.
pub proof fn a_year_has_its_days(y: int)
    ensures
        days_before_year(y + 1) == days_before_year(y) + if is_leap(y) {
            366int
        } else {
            365
        },
{
}

/// The days before each month.
proof fn lemma_days_before_month(y: int, m: int)
    requires
        1 <= m <= 13,
    ensures
        days_before_month(y, m) == {
            let l = if is_leap(y) {
                1int
            } else {
                0
            };
            if m == 1 {
                0
            } else if m == 2 {
                31
            } else if m == 3 {
                59 + l
            } else if m == 4 {
                90 + l
            } else if m == 5 {
                120 + l
            } else if m == 6 {
                151 + l
            } else if m == 7 {
                181 + l
            } else if m == 8 {
                212 + l
            } else if m == 9 {
                243 + l
            } else if m == 10 {
                273 + l
            } else if m == 11 {
                304 + l
            } else if m == 12 {
                334 + l
            } else {
                365 + l
            }
        },
{
    reveal_with_fuel(days_before_month, 14);
}

/// A later date has a greater number.
pub proof fn later_dates_have_greater_numbers(y: int, m: int, d: int, y2: int, m2: int, d2: int)
    requires
        is_date(y, m, d),
        is_date(y2, m2, d2),
        y < y2 || (y == y2 && (m < m2 || (m == m2 && d < d2))),
    ensures
        day_number(y, m, d) < day_number(y2, m2, d2),
{
    lemma_days_before_month(y, m);
    lemma_days_before_month(y2, m2);
    if y < y2 {
        lemma_years_grow(y + 1, y2);
        a_year_has_its_days(y);
    }
}

proof fn lemma_years_grow(y: int, y2: int)
    requires
        y <= y2,
    ensures
        days_before_year(y) <= days_before_year(y2),
    decreases y2 - y,
{
    if y < y2 {
        lemma_years_grow(y, y2 - 1);
        a_year_has_its_days(y2 - 1);
    }
}

/// No two dates have the same number.
pub proof fn dates_have_different_numbers(y: int, m: int, d: int, y2: int, m2: int, d2: int)
    requires
        is_date(y, m, d),
        is_date(y2, m2, d2),
        day_number(y, m, d) == day_number(y2, m2, d2),
    ensures
        y == y2,
        m == m2,
        d == d2,
{
    if y < y2 || (y == y2 && (m < m2 || (m == m2 && d < d2))) {
        later_dates_have_greater_numbers(y, m, d, y2, m2, d2);
    } else if y2 < y || (y2 == y && (m2 < m || (m2 == m && d2 < d))) {
        later_dates_have_greater_numbers(y2, m2, d2, y, m, d);
    }
}

/// The number of a day by the year that starts in March: month zero is March, and a
/// day behind a month's end counts on.
pub open spec fn march_day(y: int, mp: int, d: int) -> int {
    365 * y + y / 4 - y / 100 + y / 400 + (153 * mp + 2) / 5 + d - 1 - 719_468
}

/// The same day has the same number by both kinds of years: counting days from a date
/// undoes finding the date of a day.
pub proof fn both_counts_agree(y: int, m: int, d: int)
    requires
        1 <= m <= 12,
    ensures
        march_day(if m <= 2 {
            y - 1
        } else {
            y
        }, (m + 9) % 12, d) == day_number(y, m, d),
{
    lemma_days_before_month(y, m);
}

/// The quotient rounded down.
fn floor_div(a: i64, b: i64) -> (r: i64)
    requires
        b > 0,
    ensures
        r == a as int / b as int,
{
    if a >= 0 {
        a / b
    } else {
        let n: i64 = -(a + 1);
        let q: i64 = n / b;
        proof {
            let (x, k, t) = (n as int, b as int, q as int);
            lemma_fundamental_div_mod(x, k);
            assert(k * t == t * k) by (nonlinear_arith);
            assert((-t - 1) * k == -(t * k) - k) by (nonlinear_arith);
            lemma_fundamental_div_mod_converse(-x - 1, k, -t - 1, k - 1 - x % k);
            lemma_div_is_ordered_by_denominator(x, 1, k);
        }
        -q - 1
    }
}

/// The remainder of the division that rounds down.
fn floor_rem(a: i64, b: i64) -> (r: i64)
    requires
        b > 0,
    ensures
        r == a as int % b as int,
        0 <= r < b,
{
    if a >= 0 {
        a % b
    } else {
        let n: i64 = -(a + 1);
        let m: i64 = n % b;
        proof {
            let (x, k, t) = (n as int, b as int, n as int / b as int);
            lemma_fundamental_div_mod(x, k);
            assert(k * t == t * k) by (nonlinear_arith);
            assert((-t - 1) * k == -(t * k) - k) by (nonlinear_arith);
            lemma_fundamental_div_mod_converse(-x - 1, k, -t - 1, k - 1 - x % k);
        }
        b - 1 - m
    }
}

/// The day of a number. The year is given modulo 2 to the 32nd.
#[verifier::truncate]
pub fn civil_from_days(days: i64) -> (r: (i32, u32, u32))
    requires
        days <= i64::MAX - 719_468,
    ensures
        exists|y: i64|
            #![trigger is_date(y as int, r.1 as int, r.2 as int)]
            is_date(y as int, r.1 as int, r.2 as int) && day_number(
                y as int,
                r.1 as int,
                r.2 as int,
            ) == days && r.0 == y as i32,
{
    let z: i64 = days + 719_468;
    let era: i64 = floor_div(z, 146_097);
    let doe: i64 = floor_rem(z, 146_097);
    let c0: i64 = doe / 36_524;
    let c: i64 = if c0 > 3 {
        3
    } else {
        c0
    };
    let r1: i64 = doe - c * 36_524;
    let q: i64 = r1 / 1461;
    let r2: i64 = r1 - q * 1461;
    let a0: i64 = r2 / 365;
    let a: i64 = if a0 > 3 {
        3
    } else {
        a0
    };
    let doy: i64 = r2 - a * 365;
    let yoe: i64 = 100 * c + 4 * q + a;
    let y: i64 = yoe + era * 400;
    let mp: i64 = (5 * doy + 2) / 153;
    let d: i64 = doy - (153 * mp + 2) / 5 + 1;
    let m: i64 = if mp < 10 {
        mp + 3
    } else {
        mp - 9
    };
    let year: i64 = if m <= 2 {
        y + 1
    } else {
        y
    };
    proof {
        lemma_civil(days as int, era as int, c as int, q as int, a as int, doy as int);
        assert(is_date(year as int, m as int, d as int));
        assert(day_number(year as int, m as int, d as int) == days);
    }
    let r: (i32, u32, u32) = (year as i32, m as u32, d as u32);
    proof {
        assert(r.1 == m);
        assert(r.2 == d);
        assert(r.0 == year as i32);
    }
    r
}

proof fn lemma_civil(days: int, era: int, c: int, q: int, a: int, doy: int)
    requires
        days + 719_468 == era * 146_097 + c * 36_524 + q * 1461 + a * 365 + doy,
        0 <= c <= 3,
        0 <= q <= 24,
        0 <= a <= 3,
        0 <= doy <= 365,
        doy == 365 ==> a == 3 && (q < 24 || c == 3),
    ensures
        ({
            let y = 100 * c + 4 * q + a + era * 400;
            let mp = (5 * doy + 2) / 153;
            let d = doy - (153 * mp + 2) / 5 + 1;
            let m = if mp < 10 {
                mp + 3
            } else {
                mp - 9
            };
            let year = if m <= 2 {
                y + 1
            } else {
                y
            };
            is_date(year, m, d) && day_number(year, m, d) == days
        }),
{
    let y = 100 * c + 4 * q + a + era * 400;
    let mp = (5 * doy + 2) / 153;
    let d = doy - (153 * mp + 2) / 5 + 1;
    let m = if mp < 10 {
        mp + 3
    } else {
        mp - 9
    };
    let year = if m <= 2 {
        y + 1
    } else {
        y
    };
    lemma_year_parts(era, c, q, a);
    lemma_month_parts(doy);
    assert(march_day(y, mp, d) == days);
    assert((m + 9) % 12 == mp);
    both_counts_agree(year, m, d);
}

/// Quotients of a year that is given by its parts.
proof fn lemma_year_parts(era: int, c: int, q: int, a: int)
    requires
        0 <= c <= 3,
        0 <= q <= 24,
        0 <= a <= 3,
    ensures
        ({
            let y = 100 * c + 4 * q + a + era * 400;
            &&& y / 4 == 25 * c + q + era * 100
            &&& y / 100 == c + era * 4
            &&& y / 400 == era
            &&& a == 3 && (q < 24 || c == 3) ==> is_leap(y + 1)
        }),
{
    let y = 100 * c + 4 * q + a + era * 400;
    lemma_fundamental_div_mod_converse(y, 4, 25 * c + q + era * 100, a);
    lemma_fundamental_div_mod_converse(y, 100, c + era * 4, 4 * q + a);
    lemma_fundamental_div_mod_converse(y, 400, era, 100 * c + 4 * q + a);
    if a == 3 && (q < 24 || c == 3) {
        lemma_fundamental_div_mod_converse(y + 1, 4, 25 * c + q + 1 + era * 100, 0);
        if q < 24 {
            lemma_fundamental_div_mod_converse(y + 1, 100, c + era * 4, 4 * q + 4);
        } else {
            lemma_fundamental_div_mod_converse(y + 1, 400, era + 1, 0);
        }
    }
}

/// Month and day of a day of the year that starts in March.
proof fn lemma_month_parts(doy: int)
    requires
        0 <= doy <= 365,
    ensures
        ({
            let mp = (5 * doy + 2) / 153;
            let d = doy - (153 * mp + 2) / 5 + 1;
            &&& 0 <= mp <= 11
            &&& 1 <= d <= if mp == 1 || mp == 3 || mp == 6 || mp == 8 {
                30int
            } else if mp == 11 {
                29
            } else {
                31
            }
            &&& mp == 11 && d == 29 ==> doy == 365
        }),
{
}

/// The number of a day. Months are counted from one; day and month may be out of range.
pub fn days_from_civil(y: i32, m: u32, d: u32) -> (r: i64)
    requires
        m <= u32::MAX - 9,
    ensures
        r == march_day(
            if m <= 2 {
                y - 1
            } else {
                y as int
            },
            (m + 9) % 12,
            d as int,
        ),
        1 <= m <= 12 ==> r == day_number(y as int, m as int, d as int),
{
    let y: i64 = if m <= 2 {
        y as i64 - 1
    } else {
        y as i64
    };
    let era: i64 = floor_div(y, 400);
    let yoe: i64 = floor_rem(y, 400);
    let mp: i64 = ((m + 9) % 12) as i64;
    let doy: i64 = (153 * mp + 2) / 5 + d as i64 - 1;
    let doe: i64 = yoe * 365 + yoe / 4 - yoe / 100 + doy;
    proof {
        assert(y / 4 == yoe / 4 + era * 100);
        assert(y / 100 == yoe / 100 + era * 4);
        assert(y / 400 == era);
    }
    let r: i64 = era * 146_097 + doe - 719_468;
    proof {
        if 1 <= m <= 12 {
            both_counts_agree(
                if m <= 2 {
                    y + 1
                } else {
                    y as int
                },
                m as int,
                d as int,
            );
        }
    }
    r
}

// ---------- dates as text ----------

/// A number in decimal, filled up with zeros to `w` digits.
pub open spec fn padded(n: nat, w: nat) -> Seq<char> {
    let d = digits_of(n);
    if d.len() >= w {
        d
    } else {
        Seq::new((w - d.len()) as nat, |k: int| '0') + d
    }
}

/// A year in four characters or more; a minus sign is one of them.
pub open spec fn year_text(y: int) -> Seq<char> {
    if y < 0 {
        seq!['-'] + padded((-y) as nat, 3)
    } else {
        padded(y as nat, 4)
    }
}

/// A date as `YYYY-MM-DD`.
pub open spec fn date_text(y: int, m: int, d: int) -> Seq<char> {
    year_text(y) + seq!['-'] + padded(m as nat, 2) + seq!['-'] + padded(d as nat, 2)
}

/// The time of day as `HH:MM:SS`, of the seconds since midnight.
pub open spec fn time_text(t: int) -> Seq<char> {
    padded((t / 3600) as nat, 2) + seq![':'] + padded((t % 3600 / 60) as nat, 2) + seq![':'] + padded(
        (t % 60) as nat,
        2,
    )
}

/// Whether `s` is the date of a day; the year is taken modulo 2 to the 32nd.
pub open spec fn is_date_of(days: int, s: Seq<char>) -> bool {
    exists|y: i64, m: int, d: int|
        #![trigger is_date(y as int, m, d)]
        is_date(y as int, m, d) && day_number(y as int, m, d) == days && s == date_text(
            (y as i32) as int,
            m,
            d,
        )
}

/// Whether `s` is the date at a time, in seconds since the start of 1970.
pub open spec fn is_date_at(secs: int, s: Seq<char>) -> bool {
    is_date_of(secs / 86_400, s)
}

/// Whether `s` is date and time.
pub open spec fn is_datetime_at(secs: int, s: Seq<char>) -> bool {
    exists|d: Seq<char>|
        #![trigger is_date_at(secs, d)]
        is_date_at(secs, d) && s == d + seq![' '] + time_text(secs % 86_400)
}

pub(crate) fn push_padded(v: &mut Vec<char>, n: u64, w: usize)
    ensures
        final(v)@ == old(v)@ + padded(n as nat, w as nat),
{
    let d: Vec<char> = number_chars(n);
    let mut k: usize = d.len();
    let ghost zeros = Seq::new((w - d@.len()) as nat, |k: int| '0');
    let ghost start = v@;
    proof {
        if k < w {
            assert(v@ =~= start + zeros.take(0));
        }
    }
    while k < w
        invariant
            d@.len() <= k,
            d@.len() < w ==> k <= w,
            d@.len() < w ==> zeros == Seq::new((w - d@.len()) as nat, |k: int| '0'),
            d@.len() < w ==> v@ == start + zeros.take(k - d@.len()),
            d@.len() >= w ==> v@ == start && k == d@.len(),
        decreases w - k,
    {
        v.push('0');
        proof {
            assert(v@ =~= start + zeros.take(k + 1 - d@.len()));
        }
        k = k + 1;
    }
    extend(v, d.as_slice());
    proof {
        if d@.len() < w {
            assert(zeros.take((w - d@.len()) as int) =~= zeros);
            assert(v@ =~= start + (zeros + d@));
        }
    }
}

fn push_date(v: &mut Vec<char>, y: i32, m: u32, d: u32)
    ensures
        final(v)@ == old(v)@ + date_text(y as int, m as int, d as int),
{
    let ghost start = v@;
    push_year(v, y);
    v.push('-');
    push_padded(v, m as u64, 2);
    v.push('-');
    push_padded(v, d as u64, 2);
    proof {
        assert(v@ =~= start + date_text(y as int, m as int, d as int));
    }
}

pub(crate) fn push_year(v: &mut Vec<char>, y: i32)
    ensures
        final(v)@ == old(v)@ + year_text(y as int),
{
    let ghost start = v@;
    if y < 0 {
        v.push('-');
        push_padded(v, (-(y as i64)) as u64, 3);
        proof {
            assert(v@ =~= start + year_text(y as int));
        }
    } else {
        push_padded(v, y as u64, 4);
    }
}

fn push_time(v: &mut Vec<char>, t: i64)
    requires
        0 <= t < 86_400,
    ensures
        final(v)@ == old(v)@ + time_text(t as int),
{
    let ghost start = v@;
    push_padded(v, (t / 3600) as u64, 2);
    v.push(':');
    push_padded(v, (t % 3600 / 60) as u64, 2);
    v.push(':');
    push_padded(v, (t % 60) as u64, 2);
    proof {
        assert(v@ =~= start + time_text(t as int));
    }
}

/// The date at a time, in seconds since the start of 1970.
pub fn date_from_unix(secs: i64) -> (r: String)
    ensures
        is_date_at(secs as int, r@),
{
    let days: i64 = floor_div(secs, 86_400);
    let (y, m, d) = civil_from_days(days);
    let mut v: Vec<char> = Vec::new();
    push_date(&mut v, y, m, d);
    proof {
        let yy = choose|yy: i64|
            #![trigger is_date(yy as int, m as int, d as int)]
            is_date(yy as int, m as int, d as int) && day_number(yy as int, m as int, d as int)
                == days && y == yy as i32;
        assert(v@ =~= date_text((yy as i32) as int, m as int, d as int));
        assert(is_date(yy as int, m as int, d as int));
    }
    string_of(v.as_slice())
}

/// Date and time in the default time zone, of the seconds since the start of 1970.
pub fn datetime_from_unix(secs: i64) -> (r: String)
    requires
        secs <= i64::MAX - 28_800,
    ensures
        is_datetime_at(secs + DEFAULT_OFFSET_MINUTES * 60, r@),
{
    let local: i64 = secs + DEFAULT_OFFSET_MINUTES as i64 * 60;
    let date: String = date_from_unix(local);
    let mut v: Vec<char> = chars_of(&date);
    v.push(' ');
    push_time(&mut v, floor_rem(local, 86_400));
    proof {
        assert(v@ =~= date@ + seq![' '] + time_text(local as int % 86_400));
    }
    string_of(v.as_slice())
}

/// The path of the note of a day, below the root of a vault.
pub fn daily_note_rel(date: &str) -> (r: String)
    ensures
        r@ == "daily/"@ + date@ + ".md"@,
{
    let mut v: Vec<char> = Vec::new();
    extend_str(&mut v, "daily/");
    extend_str(&mut v, date);
    extend_str(&mut v, ".md");
    proof {
        assert(v@ =~= "daily/"@ + date@ + ".md"@);
    }
    string_of(v.as_slice())
}

// ---------- reading dates ----------

pub open spec fn is_date_mark(c: char) -> bool {
    c == '-' || c == '/'
}

/// The index of the first mark in `s`; its length if there is none.
pub open spec fn mark_index(s: Seq<char>) -> int
    decreases s.len(),
{
    if s.len() == 0 || is_date_mark(s[0]) {
        0
    } else {
        1 + mark_index(s.drop_first())
    }
}

/// A number with or without a plus sign and white space around it, if it fits in an
/// `i64`.
pub open spec fn parsed_i64(s: Seq<char>) -> Option<int> {
    let d = without_plus(trim(s));
    if d.len() > 0 && all_digits(d) && decimal(d) <= i64::MAX {
        Some(decimal(d) as int)
    } else {
        None
    }
}

/// The text behind the first mark, if there is one.
pub open spec fn behind_mark(s: Seq<char>) -> Option<Seq<char>> {
    if mark_index(s) < s.len() {
        Some(s.skip(mark_index(s) + 1))
    } else {
        None
    }
}

pub open spec fn before_mark(s: Seq<char>) -> Seq<char> {
    s.take(mark_index(s))
}

/// Year, month and day of a text such as `YYYY-MM-DD` or `YYYY/MM/DD`; what follows is
/// passed over. The year is taken modulo 2 to the 32nd.
pub open spec fn parsed_ymd(s: Seq<char>) -> Option<(i32, u32, u32)> {
    match (parsed_i64(before_mark(s)), behind_mark(s)) {
        (Some(y), Some(s2)) => match (parsed_i64(before_mark(s2)), behind_mark(s2)) {
            (Some(m), Some(s3)) => match parsed_i64(before_mark(s3)) {
                Some(d) => if 1 <= m <= 12 && 1 <= d <= 31 {
                    Some(((y as i64) as i32, m as u32, d as u32))
                } else {
                    None
                },
                None => None,
            },
            _ => None,
        },
        _ => None,
    }
}

pub proof fn lemma_mark_index(s: Seq<char>)
    ensures
        0 <= mark_index(s) <= s.len(),
        forall|k: int| 0 <= k < mark_index(s) ==> !is_date_mark(#[trigger] s[k]),
        mark_index(s) < s.len() ==> is_date_mark(s[mark_index(s)]),
    decreases s.len(),
{
    if s.len() > 0 && !is_date_mark(s[0]) {
        let t = s.drop_first();
        lemma_mark_index(t);
        assert forall|k: int| 0 <= k < mark_index(s) implies !is_date_mark(#[trigger] s[k]) by {
            if k > 0 {
                assert(s[k] == t[k - 1]);
            }
        }
    }
}

fn find_mark(cs: &[char]) -> (r: usize)
    ensures
        r == mark_index(cs@),
        r <= cs@.len(),
{
    let mut i: usize = 0;
    while i < cs.len() && cs[i] != '-' && cs[i] != '/'
        invariant
            0 <= i <= cs@.len(),
            forall|k: int| 0 <= k < i ==> !is_date_mark(#[trigger] cs@[k]),
        decreases cs@.len() - i,
    {
        i = i + 1;
    }
    proof {
        lemma_mark_index(cs@);
        let m = mark_index(cs@);
        if m < i {
            assert(!is_date_mark(cs@[m]));
        } else if i < m {
            assert(!is_date_mark(cs@[i as int]));
        }
    }
    i
}

fn parse_i64(cs: &[char]) -> (r: Option<i64>)
    ensures
        match r {
            Some(n) => parsed_i64(cs@) == Some(n as int),
            None => parsed_i64(cs@) is None,
        },
        r matches Some(n) ==> n >= 0,
{
    let t = trim_chars(cs);
    let d = if t.len() > 0 && t[0] == '+' {
        let u = slice_subrange(t, 1, t.len());
        proof {
            assert(u@ =~= t@.skip(1));
        }
        u
    } else {
        t
    };
    if d.len() == 0 {
        return None;
    }
    let mut n: i64 = 0;
    let mut big: bool = false;
    let mut i: usize = 0;
    proof {
        assert(d@.take(0) =~= Seq::<char>::empty());
    }
    while i < d.len()
        invariant
            0 <= i <= d@.len(),
            n >= 0,
            forall|k: int| 0 <= k < i ==> is_digit(#[trigger] d@[k]),
            big ==> decimal(d@.take(i as int)) > i64::MAX,
            !big ==> n == decimal(d@.take(i as int)),
            d@.len() > 0,
            d@ == without_plus(trim(cs@)),
        decreases d@.len() - i,
    {
        let c: char = d[i];
        if !('0' <= c && c <= '9') {
            proof {
                assert(!is_digit(d@[i as int]));
                assert(!all_digits(d@));
            }
            return None;
        }
        let v: i64 = (c as u32 - '0' as u32) as i64;
        proof {
            assert(d@.take(i + 1).drop_last() =~= d@.take(i as int));
            assert(d@.take(i + 1).last() == c);
        }
        if !big {
            if n > (i64::MAX - v) / 10 {
                big = true;
            } else {
                n = n * 10 + v;
            }
        }
        i = i + 1;
    }
    proof {
        assert(d@.take(d@.len() as int) =~= d@);
    }
    if big {
        None
    } else {
        Some(n)
    }
}

/// Reads a text such as `YYYY-MM-DD` or `YYYY/MM/DD`.
#[verifier::truncate]
pub fn parse_ymd(date: &str) -> (r: Option<(i32, u32, u32)>)
    ensures
        r == parsed_ymd(date@),
{
    let cs: Vec<char> = chars_of(date);
    let s = cs.as_slice();
    let n: usize = s.len();
    let a: usize = find_mark(s);
    proof {
        assert(s@.subrange(0, a as int) =~= before_mark(s@));
    }
    let y: i64 = match parse_i64(slice_subrange(s, 0, a)) {
        Some(v) => v,
        None => {
            return None;
        },
    };
    if a >= n {
        return None;
    }
    let s2 = slice_subrange(s, a + 1, n);
    proof {
        assert(s2@ =~= s@.skip(a + 1));
    }
    let n2: usize = s2.len();
    let b: usize = find_mark(s2);
    proof {
        assert(s2@.subrange(0, b as int) =~= before_mark(s2@));
    }
    let m: i64 = match parse_i64(slice_subrange(s2, 0, b)) {
        Some(v) => v,
        None => {
            return None;
        },
    };
    if b >= n2 {
        return None;
    }
    let s3 = slice_subrange(s2, b + 1, n2);
    proof {
        assert(s3@ =~= s2@.skip(b + 1));
    }
    let c: usize = find_mark(s3);
    proof {
        assert(s3@.subrange(0, c as int) =~= before_mark(s3@));
    }
    let d: i64 = match parse_i64(slice_subrange(s3, 0, c)) {
        Some(v) => v,
        None => {
            return None;
        },
    };
    if m < 1 || m > 12 || d < 1 || d > 31 {
        return None;
    }
    Some((y as i32, m as u32, d as u32))
}

// ---------- reading what was written ----------

pub proof fn lemma_decimal_digits(n: nat)
    ensures
        decimal(digits_of(n)) == n,
    decreases n,
{
    let d = digits_of(n);
    if n < 10 {
        assert(d.drop_last() =~= Seq::<char>::empty());
        assert(d.last() == crate::text::digit_char(n));
        assert(decimal(d.drop_last()) == 0);
    } else {
        lemma_decimal_digits(n / 10);
        assert(d.drop_last() =~= digits_of(n / 10));
    }
}

proof fn lemma_decimal_zeros(z: Seq<char>, d: Seq<char>)
    requires
        forall|k: int| 0 <= k < z.len() ==> #[trigger] z[k] == '0',
    ensures
        decimal(z + d) == decimal(d),
    decreases z.len() + d.len(),
{
    let s = z + d;
    if d.len() > 0 {
        lemma_decimal_zeros(z, d.drop_last());
        assert(s.drop_last() =~= z + d.drop_last());
        assert(s.last() == d.last());
    } else if z.len() > 0 {
        lemma_decimal_zeros(z.drop_last(), d);
        assert(s.drop_last() =~= z.drop_last() + d);
        assert(s.last() == z[z.len() - 1]);
    } else {
        assert(s =~= d);
    }
}

/// A padded number is made of digits and is read as that number.
pub proof fn lemma_padded_is_read(n: nat, w: nat)
    requires
        n <= i64::MAX,
    ensures
        padded(n, w).len() > 0,
        all_digits(padded(n, w)),
        parsed_i64(padded(n, w)) == Some(n as int),
{
    let p = padded(n, w);
    let d = digits_of(n);
    lemma_digits(n);
    lemma_decimal_digits(n);
    if d.len() < w {
        lemma_decimal_zeros(Seq::new((w - d.len()) as nat, |k: int| '0'), d);
    }
    assert forall|k: int| 0 <= k < p.len() implies is_digit(#[trigger] p[k]) by {
        if d.len() < w && k >= w - d.len() {
            assert(p[k] == d[k - (w - d.len())]);
        }
    }
    assert(is_digit(p[0]) && is_digit(p[p.len() - 1]));
    crate::text::lemma_lead_spaces_is(p, 0);
    assert(p.skip(0) =~= p);
    crate::text::lemma_trim_end_is(p, p.len() as int);
    assert(p.take(p.len() as int) =~= p);
}

proof fn lemma_mark_index_is(a: Seq<char>, mark: char, b: Seq<char>)
    requires
        all_digits(a),
        is_date_mark(mark),
    ensures
        before_mark(a + seq![mark] + b) == a,
        behind_mark(a + seq![mark] + b) == Some(b),
        before_mark(a) == a,
{
    let s = a + seq![mark] + b;
    lemma_mark_index(s);
    lemma_mark_index(a);
    let k = mark_index(s);
    assert(s[a.len() as int] == mark);
    if k < a.len() {
        assert(s[k] == a[k]);
    }
    assert(s.take(k) =~= a);
    assert(s.skip(k + 1) =~= b);
    let j = mark_index(a);
    if j < a.len() {
        assert(is_digit(a[j]));
    }
    assert(a.take(j) =~= a);
}

/// A date with these marks between its parts.
pub open spec fn marked_date(y: int, m: int, d: int, mark: char) -> Seq<char> {
    year_text(y) + seq![mark] + padded(m as nat, 2) + seq![mark] + padded(d as nat, 2)
}

/// A written date is read as that date, with `-` or `/` between its parts.
pub proof fn written_dates_are_read_back(y: i32, m: int, d: int, mark: char)
    requires
        0 <= y,
        1 <= m <= 12,
        1 <= d <= 31,
        is_date_mark(mark),
    ensures
        date_text(y as int, m, d) == marked_date(y as int, m, d, '-'),
        parsed_ymd(marked_date(y as int, m, d, mark)) == Some((y, m as u32, d as u32)),
{
    let (a, b, c) = (year_text(y as int), padded(m as nat, 2), padded(d as nat, 2));
    lemma_padded_is_read(y as nat, 4);
    lemma_padded_is_read(m as nat, 2);
    lemma_padded_is_read(d as nat, 2);
    let s = marked_date(y as int, m, d, mark);
    let s2 = b + seq![mark] + c;
    assert(s =~= a + seq![mark] + s2);
    lemma_mark_index_is(a, mark, s2);
    lemma_mark_index_is(b, mark, c);
    lemma_mark_index_is(c, mark, c);
}

/// `s` with a `/` for every `-`.
pub open spec fn with_slashes(s: Seq<char>) -> Seq<char> {
    s.map_values(
        |c: char|
            if c == '-' {
                '/'
            } else {
                c
            },
    )
}

/// The date at a time, as it is written or with `/` in place of `-`, is read as the date
/// that the time falls on. A year before the first is written with a sign and is not read.
pub proof fn dates_at_times_are_read_back(secs: int, s: Seq<char>, y: i64, m: int, d: int)
    requires
        is_date_at(secs, s),
        is_date(y as int, m, d),
        day_number(y as int, m, d) == secs / 86_400,
        0 <= y as i32,
    ensures
        parsed_ymd(s) == Some((y as i32, m as u32, d as u32)),
        parsed_ymd(with_slashes(s)) == Some((y as i32, m as u32, d as u32)),
{
    let (y2, m2, d2) = choose|y2: i64, m2: int, d2: int|
        #![trigger is_date(y2 as int, m2, d2)]
        is_date(y2 as int, m2, d2) && day_number(y2 as int, m2, d2) == secs / 86_400 && s
            == date_text((y2 as i32) as int, m2, d2);
    dates_have_different_numbers(y as int, m, d, y2 as int, m2, d2);
    let n = y as i32;
    written_dates_are_read_back(n, m, d, '-');
    written_dates_are_read_back(n, m, d, '/');
    let (a, b, c) = (year_text(n as int), padded(m as nat, 2), padded(d as nat, 2));
    lemma_padded_is_read(n as nat, 4);
    lemma_padded_is_read(m as nat, 2);
    lemma_padded_is_read(d as nat, 2);
    let t = marked_date(n as int, m, d, '/');
    assert forall|k: int| 0 <= k < s.len() implies #[trigger] with_slashes(s)[k] == t[k] by {
        let i = a.len() as int;
        let j = i + 1 + b.len();
        if k < i {
            assert(is_digit(a[k]));
        } else if i < k < j {
            assert(is_digit(b[k - i - 1]));
        } else if j < k {
            assert(is_digit(c[k - j - 1]));
        }
    }
    assert(with_slashes(s) =~= t);
}

/// The name of a weekday; zero is Sunday.
pub open spec fn weekday_name(k: int) -> Seq<char> {
    if k == 0 {
        "周日"@
    } else if k == 1 {
        "周一"@
    } else if k == 2 {
        "周二"@
    } else if k == 3 {
        "周三"@
    } else if k == 4 {
        "周四"@
    } else if k == 5 {
        "周五"@
    } else {
        "周六"@
    }
}

/// The weekday of a date; the first day of 1970 was a Thursday.
pub open spec fn weekday_of(date: Seq<char>) -> Seq<char> {
    match parsed_ymd(date) {
        Some((y, m, d)) => weekday_name((day_number(y as int, m as int, d as int) + 4) % 7),
        None => Seq::empty(),
    }
}

/// The weekday of a date; nothing if the text is no date.
pub fn weekday_cn(date: &str) -> (r: String)
    ensures
        r@ == weekday_of(date@),
{
    match parse_ymd(date) {
        Some((y, m, d)) => {
            let k: i64 = floor_rem(days_from_civil(y, m, d) + 4, 7);
            let name = if k == 0 {
                "周日"
            } else if k == 1 {
                "周一"
            } else if k == 2 {
                "周二"
            } else if k == 3 {
                "周三"
            } else if k == 4 {
                "周四"
            } else if k == 5 {
                "周五"
            } else {
                "周六"
            };
            name.to_owned()
        },
        None => String::new(),
    }
}

// ---------- now ----------

/// `std::time::SystemTime`, a point in time.
#[verifier::external_type_specification]
#[verifier::external_body]
pub struct ExSystemTime(SystemTime);

/// `std::time::SystemTimeError`: one time was not before the other.
#[verifier::external_type_specification]
#[verifier::external_body]
pub struct ExSystemTimeError(SystemTimeError);

/// `SystemTime::now`: nothing is claimed of the time.
pub assume_specification[ SystemTime::now ]() -> (r: SystemTime)
;

/// `SystemTime::duration_since`: nothing is claimed of the time between.
pub assume_specification[ SystemTime::duration_since ](
    later: &SystemTime,
    earlier: SystemTime,
) -> (r: Result<Duration, SystemTimeError>)
;

/// `Duration::as_secs`: nothing is claimed of the seconds.
pub assume_specification[ Duration::as_secs ](d: &Duration) -> (r: u64)
;

/// `std::time::UNIX_EPOCH`: the start of 1970. Nothing is claimed of it.
#[verifier::external_body]
fn unix_epoch() -> (r: SystemTime) {
    std::time::UNIX_EPOCH
}

/// The nearest number that an `i64` can hold.
pub open spec fn in_i64(n: int) -> int {
    if n > i64::MAX {
        i64::MAX as int
    } else if n < i64::MIN {
        i64::MIN as int
    } else {
        n
    }
}

/// The seconds since the start of 1970 that a clock shows, as far as they can be held; zero
/// where it shows a time before.
pub fn clock_seconds(since: Option<u64>) -> (r: i64)
    ensures
        r == match since {
            Some(s) => in_i64(s as int),
            None => 0,
        },
{
    match since {
        Some(s) => if s > i64::MAX as u64 {
            i64::MAX
        } else {
            s as i64
        },
        None => 0,
    }
}

/// The seconds since the start of 1970; zero before it.
pub fn now_unix() -> (r: i64)
    ensures
        0 <= r,
{
    match SystemTime::now().duration_since(unix_epoch()) {
        Ok(d) => clock_seconds(Some(d.as_secs())),
        Err(_) => clock_seconds(None),
    }
}

/// A time with an offset from UTC in minutes, as far as it can be held.
pub open spec fn local_time(secs: i64, offset_minutes: i32) -> int {
    in_i64(secs + offset_minutes * 60)
}

/// Whether `s` is the date at a time since 1970, with an offset from UTC in minutes.
pub open spec fn date_at_offset(secs: i64, offset_minutes: i32, s: Seq<char>) -> bool {
    0 <= secs && is_date_at(local_time(secs, offset_minutes), s)
}

/// Whether `s` is the time of day at a time since 1970, with an offset from UTC in
/// minutes.
pub open spec fn clock_at_offset(secs: i64, offset_minutes: i32, s: Seq<char>) -> bool {
    0 <= secs && s == time_text(local_time(secs, offset_minutes) % 86_400)
}

fn with_offset(secs: i64, offset_minutes: i32) -> (r: i64)
    ensures
        r == local_time(secs, offset_minutes),
{
    let off: i64 = offset_minutes as i64 * 60;
    if off > 0 && secs > i64::MAX - off {
        i64::MAX
    } else if off < 0 && secs < i64::MIN - off {
        i64::MIN
    } else {
        secs + off
    }
}

/// The date at a time, with an offset from UTC in minutes.
pub fn date_with_offset(secs: i64, offset_minutes: i32) -> (r: String)
    ensures
        is_date_at(local_time(secs, offset_minutes), r@),
{
    date_from_unix(with_offset(secs, offset_minutes))
}

/// The time of day at a time, with an offset from UTC in minutes.
pub fn clock_with_offset(secs: i64, offset_minutes: i32) -> (r: String)
    ensures
        r@ == time_text(local_time(secs, offset_minutes) % 86_400),
{
    let t: i64 = floor_rem(with_offset(secs, offset_minutes), 86_400);
    let mut v: Vec<char> = Vec::new();
    push_time(&mut v, t);
    proof {
        assert(v@ =~= time_text(t as int));
    }
    string_of(v.as_slice())
}

/// The date of today, with an offset from UTC in minutes.
pub fn today_with_offset(offset_minutes: i32) -> (r: String)
    ensures
        exists|secs: i64| date_at_offset(secs, offset_minutes, r@),
{
    let secs: i64 = now_unix();
    let r: String = date_with_offset(secs, offset_minutes);
    proof {
        assert(date_at_offset(secs, offset_minutes, r@));
    }
    r
}

/// The date of today in the default time zone.
pub fn today() -> (r: String)
    ensures
        exists|secs: i64| date_at_offset(secs, DEFAULT_OFFSET_MINUTES, r@),
{
    today_with_offset(DEFAULT_OFFSET_MINUTES)
}

/// The time of day, with an offset from UTC in minutes.
pub fn time_with_offset(offset_minutes: i32) -> (r: String)
    ensures
        exists|secs: i64| clock_at_offset(secs, offset_minutes, r@),
{
    let secs: i64 = now_unix();
    let r: String = clock_with_offset(secs, offset_minutes);
    proof {
        assert(clock_at_offset(secs, offset_minutes, r@));
    }
    r
}

} // verus!
