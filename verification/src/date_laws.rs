//! What dates, times and templates promise.
use crate::block::decimal;
use crate::block_laws::{is_white, lemma_cut_ends};
use crate::date::{clock_at_offset, date_at_offset, is_date_of, local_time};
use crate::date::{
    date_text, day_number, days_before_month, is_date, is_date_mark, is_leap, mark_index, padded, parsed_i64,
    parsed_ymd, time_text, weekday_name, weekday_of, written_dates_are_read_back, year_text,
};
use crate::paths::file_stem;
use crate::sorting::{stable_order, stable_order_sorts, stands_before};
use crate::template::{
    expanded, template_keys, templates_of, templates_upto, value_of, CtxModel, TemplateFile,
    TemplateModel,
};
use crate::text::{
    digit_char, digits_of, find_from, is_space, lemma_text_order_total, lowercase, text_before,
    trim,
};
use crate::vault::is_note;
use vstd::prelude::*;

verus! {

// ---------- dates and times ----------

/// A number below a hundred is written with two digits, the tens and the ones.
pub proof fn two_digits_are_tens_and_ones(n: nat)
    requires
        n < 100,
    ensures
        padded(n, 2).len() == 2,
        padded(n, 2)[0] as u32 == 48 + n / 10,
        padded(n, 2)[1] as u32 == 48 + n % 10,
{
    let d = digits_of(n);
    if n < 10 {
        assert(d =~= seq![digit_char(n)]);
        assert(padded(n, 2)[0] == '0');
        assert(padded(n, 2)[1] == d[0]);
    } else {
        assert(digits_of(n / 10) =~= seq![digit_char(n / 10)]);
        assert(d =~= seq![digit_char(n / 10), digit_char(n % 10)]);
    }
}

/// The time of day is written by hours, minutes and seconds, two digits each.
pub proof fn times_are_hours_minutes_seconds(h: int, m: int, s: int)
    requires
        0 <= h < 24,
        0 <= m < 60,
        0 <= s < 60,
    ensures
        time_text(h * 3600 + m * 60 + s) == padded(h as nat, 2) + seq![':'] + padded(m as nat, 2)
            + seq![':'] + padded(s as nat, 2),
        time_text(h * 3600 + m * 60 + s).len() == 8,
{
    let t = h * 3600 + m * 60 + s;
    assert(t / 3600 == h);
    assert(t % 3600 == m * 60 + s);
    assert((m * 60 + s) / 60 == m);
    assert(t % 60 == s);
    two_digits_are_tens_and_ones(h as nat);
    two_digits_are_tens_and_ones(m as nat);
    two_digits_are_tens_and_ones(s as nat);
}

/// The time of a place is that of the clock and its offset, counted in minutes; an offset of a
/// day leads to the next day at the same time.
pub proof fn offsets_count_minutes(secs: i64, minutes: i32, s: Seq<char>)
    requires
        0 <= secs <= 1_000_000_000_000,
        0 <= secs + minutes * 60,
    ensures
        local_time(secs, minutes) == secs + minutes * 60,
        clock_at_offset(secs, minutes, s) <==> s == time_text((secs + minutes * 60) % 86_400),
        clock_at_offset(secs, 1440, s) <==> clock_at_offset(secs, 0, s),
        local_time(secs, 1440) / 86_400 == secs as int / 86_400 + 1,
        date_at_offset(secs, minutes, s) <==> is_date_of((secs + minutes * 60) / 86_400, s),
{
    let t = secs as int;
    assert(local_time(secs, 1440) == t + 86_400);
    assert(local_time(secs, 0) == t);
    lemma_day_later(t);
}

proof fn lemma_day_later(t: int)
    ensures
        (t + 86_400) % 86_400 == t % 86_400,
        (t + 86_400) / 86_400 == t / 86_400 + 1,
{
}

/// Every fourth year is a leap year, but of those that end a century only every fourth. Four
/// centuries have as many days as there are in four hundred years and ninety-seven leap days.
pub proof fn leap_years_make_the_calendar(y: int)
    ensures
        y % 4 != 0 ==> !is_leap(y),
        y % 4 == 0 && y % 100 != 0 ==> is_leap(y),
        y % 100 == 0 && y % 400 != 0 ==> !is_leap(y),
        y % 400 == 0 ==> is_leap(y),
        forall|m: int, d: int| #[trigger]
            day_number(y + 400, m, d) == day_number(y, m, d) + 400 * 365 + 97,
        day_number(y + 1, 1, 1) - day_number(y, 1, 1) == if is_leap(y) {
            366int
        } else {
            365
        },
{
    assert forall|m: int, d: int| #[trigger]
        day_number(y + 400, m, d) == day_number(y, m, d) + 400 * 365 + 97 by {
        assert(is_leap(y + 400) == is_leap(y));
        lemma_same_months(y + 400, y, m);
    }
    crate::date::a_year_has_its_days(y);
}

proof fn lemma_same_months(y: int, z: int, m: int)
    requires
        is_leap(y) == is_leap(z),
    ensures
        days_before_month(y, m) == days_before_month(z, m),
    decreases m,
{
    if m > 1 {
        lemma_same_months(y, z, m - 1);
    }
}

/// From month to month the days are counted on by the days of the month.
pub proof fn months_have_their_days(y: int, d: int)
    ensures
        day_number(y, 2, d) == day_number(y, 1, d) + 31,
        day_number(y, 3, d) == day_number(y, 2, d) + if is_leap(y) {
            29int
        } else {
            28
        },
        day_number(y, 4, d) == day_number(y, 3, d) + 31,
        day_number(y, 5, d) == day_number(y, 4, d) + 30,
        day_number(y, 6, d) == day_number(y, 5, d) + 31,
        day_number(y, 7, d) == day_number(y, 6, d) + 30,
        day_number(y, 8, d) == day_number(y, 7, d) + 31,
        day_number(y, 9, d) == day_number(y, 8, d) + 31,
        day_number(y, 10, d) == day_number(y, 9, d) + 30,
        day_number(y, 11, d) == day_number(y, 10, d) + 31,
        day_number(y, 12, d) == day_number(y, 11, d) + 30,
        day_number(y + 1, 1, d) == day_number(y, 12, d) + 31,
        day_number(y, 1, d + 1) == day_number(y, 1, d) + 1,
        day_number(1970, 1, 1) == 0,
{
    reveal_with_fuel(days_before_month, 13);
    crate::date::a_year_has_its_days(y);
}

/// The name of a weekday, from Monday on.
pub open spec fn day_name(k: int) -> Seq<char> {
    if k == 0 {
        seq!['周', '一']
    } else if k == 1 {
        seq!['周', '二']
    } else if k == 2 {
        seq!['周', '三']
    } else if k == 3 {
        seq!['周', '四']
    } else if k == 4 {
        seq!['周', '五']
    } else if k == 5 {
        seq!['周', '六']
    } else {
        seq!['周', '日']
    }
}

/// The first day of 1970 was a Thursday, and every day is one weekday on from the day before.
pub proof fn weekdays_follow_each_other(y: i32, m: int, d: int)
    requires
        0 <= y,
        is_date(y as int, m, d),
    ensures
        weekday_of(date_text(y as int, m, d)) == day_name((day_number(y as int, m, d) + 3) % 7),
{
    written_dates_are_read_back(y, m, d, '-');
    lemma_day_names(day_number(y as int, m, d));
}

proof fn lemma_day_names(n: int)
    ensures
        weekday_name((n + 4) % 7) == day_name((n + 3) % 7),
{
    reveal_strlit("周日");
    reveal_strlit("周一");
    reveal_strlit("周二");
    reveal_strlit("周三");
    reveal_strlit("周四");
    reveal_strlit("周五");
    reveal_strlit("周六");
    assert("周日"@ =~= day_name(6));
    assert("周一"@ =~= day_name(0));
    assert("周二"@ =~= day_name(1));
    assert("周三"@ =~= day_name(2));
    assert("周四"@ =~= day_name(3));
    assert("周五"@ =~= day_name(4));
    assert("周六"@ =~= day_name(5));
    let k = (n + 4) % 7;
    assert((n + 3) % 7 == if k == 0 {
        6int
    } else {
        k - 1
    });
}

/// No month and no day is read that there is not; and a text without two marks is no date.
pub proof fn only_dates_are_read(s: Seq<char>)
    ensures
        parsed_ymd(s) matches Some((y, m, d)) ==> 1 <= m <= 12 && 1 <= d <= 31,
        parsed_ymd(s) is Some ==> exists|i: int, j: int|
            0 <= i < j < s.len() && is_date_mark(#[trigger] s[i]) && is_date_mark(#[trigger] s[j]),
        forall|c: char| is_date_mark(c) <==> c == '-' || c == '/',
{
    crate::date::lemma_mark_index(s);
    if parsed_ymd(s) is Some {
        let i = mark_index(s);
        let s2 = s.skip(i + 1);
        crate::date::lemma_mark_index(s2);
        let j = i + 1 + mark_index(s2);
        assert(s[j] == s2[mark_index(s2)]);
        assert(is_date_mark(s[i]) && is_date_mark(s[j]));
    }
}

/// A number is read without the white space around it, with or without a plus sign.
pub proof fn numbers_are_read(a: Seq<char>, ds: Seq<char>, b: Seq<char>)
    requires
        is_white(a) && is_white(b),
        ds.len() > 0,
        forall|k: int| 0 <= k < ds.len() ==> '0' <= #[trigger] ds[k] <= '9',
        decimal(ds) <= i64::MAX,
    ensures
        parsed_i64(a + ds + b) == Some(decimal(ds) as int),
        parsed_i64(a + (seq!['+'] + ds) + b) == Some(decimal(ds) as int),
        parsed_i64(a) is None,
{
    let n = ds.len() as int;
    assert('0' <= ds[0] <= '9' && '0' <= ds[n - 1] <= '9');
    assert(!is_space(ds[0]) && !is_space(ds.last())) by {
        crate::block_laws::white_space_cannot_be_seen(ds[0]);
        crate::block_laws::white_space_cannot_be_seen(ds[n - 1]);
    }
    lemma_cut_ends(a, ds, b);
    let p = seq!['+'] + ds;
    assert(p[0] == '+' && p.last() == ds.last());
    lemma_cut_ends(a, p, b);
    assert(p.skip(1) =~= ds);
    crate::talk_laws::lemma_white(a);
}

pub open spec fn has_no_mark(s: Seq<char>) -> bool {
    !s.contains('-') && !s.contains('/')
}

proof fn lemma_first_mark(p: Seq<char>, rest: Seq<char>)
    requires
        has_no_mark(p),
        rest.len() > 0 ==> rest[0] == '-' || rest[0] == '/',
    ensures
        mark_index(p + rest) == p.len(),
        (p + rest).take(p.len() as int) == p,
{
    let s = p + rest;
    crate::date::lemma_mark_index(s);
    let k = mark_index(s);
    if k < p.len() {
        assert(s[k] == p[k]);
        assert(p.contains(p[k]));
    } else if k > p.len() {
        assert(s[p.len() as int] == rest[0]);
    }
    assert(s.take(p.len() as int) =~= p);
}

/// A date is read part by part, with `-` or `/` between the parts; what follows a third mark
/// does not count.
pub proof fn dates_are_read_part_by_part(
    y: Seq<char>,
    c: char,
    m: Seq<char>,
    e: char,
    d: Seq<char>,
    tail: Seq<char>,
)
    requires
        has_no_mark(y) && has_no_mark(m) && has_no_mark(d),
        c == '-' || c == '/',
        e == '-' || e == '/',
        tail.len() > 0 ==> tail[0] == '-' || tail[0] == '/',
        parsed_i64(y) is Some && parsed_i64(m) is Some && parsed_i64(d) is Some,
        parsed_i64(y)->0 <= i32::MAX,
    ensures
        parsed_ymd(y + (seq![c] + (m + (seq![e] + (d + tail))))) == if 1 <= parsed_i64(m)->0 <= 12 && 1
            <= parsed_i64(d)->0 <= 31 {
            Some((parsed_i64(y)->0 as i32, parsed_i64(m)->0 as u32, parsed_i64(d)->0 as u32))
        } else {
            None
        },
{
    let s3 = d + tail;
    let s2 = m + (seq![e] + s3);
    let s = y + (seq![c] + s2);
    lemma_first_mark(d, tail);
    lemma_first_mark(m, seq![e] + s3);
    lemma_first_mark(y, seq![c] + s2);
    assert(s.skip(y.len() as int + 1) =~= s2);
    assert(s2.skip(m.len() as int + 1) =~= s3);
}

// ---------- templates ----------

/// What opens with two braces and does not close stays as it is.
pub proof fn unclosed_braces_stay(a: Seq<char>, b: Seq<char>, c: CtxModel)
    requires
        !a.contains('{'),
        !b.contains('}'),
    ensures
        expanded(a + seq!['{', '{'] + b, c) == a + seq!['{', '{'] + b,
        expanded(a, c) == a,
        expanded(b, c) == b,
{
    let s = a + seq!['{', '{'] + b;
    let n = a.len() as int;
    assert forall|k: int| 0 <= k < n implies #[trigger] s[k] != '{' by {
        assert(s[k] == a[k]);
        assert(a.contains(a[k]));
    }
    assert(s[n] == '{' && s[n + 1] == '{');
    lemma_find_first(s, '{', 0, n);
    assert(s.skip(n + 2) =~= b);
    lemma_no_pair(b, '}');
    lemma_no_pair(a, '{');
    crate::text::lemma_find_from(b, seq!['{', '{'], 0);
    if let Some(k) = find_from(b, seq!['{', '{'], 0) {
        let after = b.skip(k + 2);
        assert(!after.contains('}')) by {
            if after.contains('}') {
                let j = choose|j: int| 0 <= j < after.len() && after[j] == '}';
                assert(b[k + 2 + j] == '}');
            }
        }
        lemma_no_pair(after, '}');
    }
}

proof fn lemma_no_pair(s: Seq<char>, c: char)
    requires
        !s.contains(c),
    ensures
        find_from(s, seq![c, c], 0) is None,
{
    crate::text::lemma_find_from(s, seq![c, c], 0);
    if let Some(k) = find_from(s, seq![c, c], 0) {
        assert(s.subrange(k, k + 2)[0] == s[k]);
        assert(s.contains(c));
    }
}

proof fn lemma_find_first(s: Seq<char>, c: char, i: int, n: int)
    requires
        0 <= i <= n,
        n + 2 <= s.len(),
        s[n] == c,
        s[n + 1] == c,
        forall|k: int| i <= k < n ==> #[trigger] s[k] != c,
    ensures
        find_from(s, seq![c, c], i) == Some(n),
    decreases n - i,
{
    let pat = seq![c, c];
    if i == n {
        assert(s.subrange(i, i + 2) =~= pat);
    } else {
        assert(s.subrange(i, i + 2)[0] == s[i]);
        assert(pat[0] == c);
        lemma_find_first(s, c, i + 1, n);
    }
}

/// What stands between two braces on each side is filled by its value.
proof fn lemma_filled(raw: Seq<char>, c: CtxModel)
    requires
        !raw.contains('}'),
    ensures
        expanded(seq!['{', '{'] + raw + seq!['}', '}'], c) == value_of(raw, c),
{
    let s = seq!['{', '{'] + raw + seq!['}', '}'];
    lemma_find_first(s, '{', 0, 0);
    let after = s.skip(2);
    assert(after =~= raw + seq!['}', '}']);
    let n = raw.len() as int;
    assert forall|k: int| 0 <= k < n implies #[trigger] after[k] != '}' by {
        assert(after[k] == raw[k]);
        assert(raw.contains(raw[k]));
    }
    assert(after[n] == '}' && after[n + 1] == '}');
    lemma_find_first(after, '}', 0, n);
    assert(after.take(n) =~= raw);
    let none = Seq::<char>::empty();
    assert(after.skip(n + 2) =~= none);
    assert(find_from(none, seq!['{', '{'], 0) is None);
    assert(expanded(none, c) == none);
    assert(s.take(0) =~= none);
    assert(none + value_of(raw, c) + none =~= value_of(raw, c));
}

/// A place between two braces on each side.
pub open spec fn place(a: Seq<char>, name: Seq<char>, b: Seq<char>) -> Seq<char> {
    seq!['{', '{'] + (a + name + b) + seq!['}', '}']
}

proof fn lemma_place_value(a: Seq<char>, name: Seq<char>, b: Seq<char>, c: CtxModel)
    requires
        is_white(a) && is_white(b),
        name.len() > 0,
        !is_space(name[0]) && !is_space(name.last()),
        !name.contains('}'),
    ensures
        expanded(place(a, name, b), c) == value_of(a + name + b, c),
        trim(a + name + b) == name,
{
    lemma_cut_ends(a, name, b);
    let raw = a + name + b;
    assert(!raw.contains('}')) by {
        if raw.contains('}') {
            let k = choose|k: int| 0 <= k < raw.len() && raw[k] == '}';
            if k < a.len() {
                assert(is_space(a[k]));
            } else if k < a.len() + name.len() {
                assert(raw[k] == name[k - a.len()]);
                assert(name.contains('}'));
            } else {
                assert(raw[k] == b[k - a.len() - name.len()]);
                assert(is_space(b[k - a.len() - name.len()]));
            }
        }
    }
    lemma_filled(raw, c);
}

/// The places of a template are filled by what they name: the date, the time, both, the title
/// of the note, parts of the date, and nothing for the cursor.
pub proof fn places_are_filled_by_name(
    a: Seq<char>,
    b: Seq<char>,
    c: CtxModel,
    y: i32,
    m: int,
    d: int,
)
    requires
        is_white(a) && is_white(b),
    ensures
        expanded(place(a, seq!['d', 'a', 't', 'e'], b), c) == c.date,
        expanded(place(a, seq!['t', 'i', 'm', 'e'], b), c) == c.time,
        expanded(place(a, seq!['d', 'a', 't', 'e', 't', 'i', 'm', 'e'], b), c) == c.date + seq![' ']
            + c.time,
        expanded(place(a, seq!['t', 'i', 't', 'l', 'e'], b), c) == c.title,
        expanded(place(a, seq!['c', 'u', 'r', 's', 'o', 'r'], b), c).len() == 0,
        0 <= y && is_date(y as int, m, d) && c.date == date_text(y as int, m, d) ==> {
            &&& expanded(place(a, seq!['y', 'e', 'a', 'r'], b), c) == year_text(y as int)
            &&& expanded(place(a, seq!['m', 'o', 'n', 't', 'h'], b), c) == padded(m as nat, 2)
            &&& expanded(place(a, seq!['d', 'a', 'y'], b), c) == padded(d as nat, 2)
            &&& expanded(place(a, seq!['w', 'e', 'e', 'k', 'd', 'a', 'y'], b), c) == day_name(
                (day_number(y as int, m, d) + 3) % 7,
            )
        },
{
    lemma_keys();
    lemma_place_value(a, seq!['d', 'a', 't', 'e'], b, c);
    lemma_place_value(a, seq!['t', 'i', 'm', 'e'], b, c);
    lemma_place_value(a, seq!['d', 'a', 't', 'e', 't', 'i', 'm', 'e'], b, c);
    lemma_place_value(a, seq!['t', 'i', 't', 'l', 'e'], b, c);
    lemma_place_value(a, seq!['c', 'u', 'r', 's', 'o', 'r'], b, c);
    lemma_place_value(a, seq!['y', 'e', 'a', 'r'], b, c);
    lemma_place_value(a, seq!['m', 'o', 'n', 't', 'h'], b, c);
    lemma_place_value(a, seq!['d', 'a', 'y'], b, c);
    lemma_place_value(a, seq!['w', 'e', 'e', 'k', 'd', 'a', 'y'], b, c);
    assert(c.date.push(' ') + c.time =~= c.date + seq![' '] + c.time);
    if 0 <= y && is_date(y as int, m, d) && c.date == date_text(y as int, m, d) {
        written_dates_are_read_back(y, m, d, '-');
        weekdays_follow_each_other(y, m, d);
    }
}

proof fn lemma_keys()
    ensures
        "date"@ == seq!['d', 'a', 't', 'e'],
        "time"@ == seq!['t', 'i', 'm', 'e'],
        "datetime"@ == seq!['d', 'a', 't', 'e', 't', 'i', 'm', 'e'],
        "title"@ == seq!['t', 'i', 't', 'l', 'e'],
        "year"@ == seq!['y', 'e', 'a', 'r'],
        "month"@ == seq!['m', 'o', 'n', 't', 'h'],
        "day"@ == seq!['d', 'a', 'y'],
        "weekday"@ == seq!['w', 'e', 'e', 'k', 'd', 'a', 'y'],
        "cursor"@ == seq!['c', 'u', 'r', 's', 'o', 'r'],
        seq!['d', 'a', 't', 'e'] != seq!['t', 'i', 'm', 'e'],
        seq!['d', 'a', 't', 'e'][0] != seq!['y', 'e', 'a', 'r'][0],
        seq!['t', 'i', 'm', 'e'][0] != seq!['y', 'e', 'a', 'r'][0],
        seq!['t', 'i', 't', 'l', 'e'][0] != seq!['m', 'o', 'n', 't', 'h'][0],
{
    reveal_strlit("date");
    reveal_strlit("time");
    reveal_strlit("datetime");
    reveal_strlit("title");
    reveal_strlit("year");
    reveal_strlit("month");
    reveal_strlit("day");
    reveal_strlit("weekday");
    reveal_strlit("cursor");
    assert("date"@ =~= seq!['d', 'a', 't', 'e']);
    assert("time"@ =~= seq!['t', 'i', 'm', 'e']);
    assert("datetime"@ =~= seq!['d', 'a', 't', 'e', 't', 'i', 'm', 'e']);
    assert("title"@ =~= seq!['t', 'i', 't', 'l', 'e']);
    assert("year"@ =~= seq!['y', 'e', 'a', 'r']);
    assert("month"@ =~= seq!['m', 'o', 'n', 't', 'h']);
    assert("day"@ =~= seq!['d', 'a', 'y']);
    assert("weekday"@ =~= seq!['w', 'e', 'e', 'k', 'd', 'a', 'y']);
    assert("cursor"@ =~= seq!['c', 'u', 'r', 's', 'o', 'r']);
    assert(seq!['d', 'a', 't', 'e'][0] == 'd');
    assert(seq!['t', 'i', 'm', 'e'][0] == 't');
}

/// A place that names anything else stays as it is.
pub proof fn other_places_stay(a: Seq<char>, name: Seq<char>, b: Seq<char>, c: CtxModel)
    requires
        is_white(a) && is_white(b),
        name.len() > 0,
        !is_space(name[0]) && !is_space(name.last()),
        !name.contains('}'),
        name != seq!['d', 'a', 't', 'e'],
        name != seq!['t', 'i', 'm', 'e'],
        name != seq!['d', 'a', 't', 'e', 't', 'i', 'm', 'e'],
        name != seq!['t', 'i', 't', 'l', 'e'],
        name != seq!['y', 'e', 'a', 'r'],
        name != seq!['m', 'o', 'n', 't', 'h'],
        name != seq!['d', 'a', 'y'],
        name != seq!['w', 'e', 'e', 'k', 'd', 'a', 'y'],
        name != seq!['c', 'u', 'r', 's', 'o', 'r'],
    ensures
        expanded(place(a, name, b), c) == place(a, name, b),
{
    lemma_keys();
    lemma_place_value(a, name, b, c);
}

proof fn lemma_template_from(files: Seq<TemplateFile>, n: int, k: int) -> (i: int)
    requires
        0 <= n <= files.len(),
        0 <= k < templates_upto(files, n).len(),
    ensures
        0 <= i < n,
        is_template(files[i], templates_upto(files, n)[k]),
    decreases n,
{
    let rest = templates_upto(files, n - 1);
    if k < rest.len() {
        let i = lemma_template_from(files, n - 1, k);
        assert(templates_upto(files, n)[k] == rest[k]);
        i
    } else {
        n - 1
    }
}

proof fn lemma_template_made(files: Seq<TemplateFile>, n: int, i: int, t: TemplateModel) -> (k: int)
    requires
        0 <= i < n <= files.len(),
        is_template(files[i], t),
    ensures
        0 <= k < templates_upto(files, n).len(),
        templates_upto(files, n)[k] == t,
    decreases n,
{
    let rest = templates_upto(files, n - 1);
    if i == n - 1 {
        rest.len() as int
    } else {
        let k = lemma_template_made(files, n - 1, i, t);
        assert(templates_upto(files, n)[k] == rest[k]);
        k
    }
}

/// Whether a file is this template: a note that could be read, under its name.
pub open spec fn is_template(f: TemplateFile, t: TemplateModel) -> bool {
    f.text is Some && is_note(f.path@) && file_stem(f.path@) == Some(t.name) && t.path == f.path@
        && t.body == f.text->0@
}

/// The templates are the notes that could be read, each under its name, all of them and no
/// others, in the order of their names.
pub proof fn templates_are_the_notes(files: Seq<TemplateFile>)
    ensures
        ({
            let r = templates_of(files);
            &&& forall|k: int|
                0 <= k < r.len() ==> exists|i: int|
                    0 <= i < files.len() && is_template(#[trigger] files[i], #[trigger] r[k])
            &&& forall|i: int, t: TemplateModel|
                0 <= i < files.len() && #[trigger] is_template(files[i], t) ==> r.contains(t)
            &&& forall|j: int, k: int|
                0 <= j < k < r.len() ==> !text_before(
                    lowercase((#[trigger] r[k]).name),
                    lowercase((#[trigger] r[j]).name),
                )
        }),
{
    let n = files.len() as int;
    let v = templates_upto(files, n);
    let keys = template_keys(v);
    let o = stable_order(keys);
    let r = templates_of(files);
    stable_order_sorts(keys);
    assert forall|k: int| 0 <= k < r.len() implies exists|i: int|
        0 <= i < files.len() && is_template(#[trigger] files[i], #[trigger] r[k]) by {
        let i = lemma_template_from(files, n, o[k]);
        assert(r[k] == v[o[k]]);
        assert(is_template(files[i], r[k]));
    }
    assert forall|i: int, t: TemplateModel|
        0 <= i < files.len() && #[trigger] is_template(files[i], t) implies r.contains(t) by {
        let k = lemma_template_made(files, n, i, t);
        assert(o.contains(k));
        let j = choose|j: int| 0 <= j < o.len() && o[j] == k;
        assert(r[j] == t);
    }
    assert forall|j: int, k: int| 0 <= j < k < r.len() implies !text_before(
        lowercase((#[trigger] r[k]).name),
        lowercase((#[trigger] r[j]).name),
    ) by {
        assert(stands_before(keys, o[j], o[k]));
        assert(keys[o[j]] == lowercase(r[j].name) && keys[o[k]] == lowercase(r[k].name));
        lemma_text_order_total(keys[o[j]], keys[o[k]]);
    }
}

} // verus!
