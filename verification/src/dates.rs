//! Calendar dates and clock times of the proleptic Gregorian calendar, as
//! `chrono` keeps them: reading them (`%Y-%m-%d`, `%H:%M`), writing them,
//! and the day arithmetic the calendar needs.
use vstd::prelude::*;
use chrono::{Datelike, NaiveDate, NaiveTime, TimeDelta, Timelike};
use crate::num::{
    zero_padded, push_zero_padded, lemma_zero_padded_any, is_digit, all_digits, digits_val, decimal,
    lemma_decimal_len_bound, pow10,
};
use crate::text::{is_ws, is_word};

verus! {

/// A calendar date. Dates order by year, then month, then day.
#[derive(Debug, Clone, Copy, PartialEq, Eq, Structural, PartialOrd, Ord)]
pub struct Date {
    pub year: i32,
    pub month: u32,
    pub day: u32,
}

/// A time of day to the minute.
#[derive(Debug, Clone, Copy, PartialEq, Eq, Structural, PartialOrd, Ord)]
pub struct Time {
    pub hour: u32,
    pub minute: u32,
}

/// A date and a time of day.
#[derive(Debug, Clone, Copy, PartialEq, Eq, Structural, PartialOrd, Ord)]
pub struct DateTime {
    pub date: Date,
    pub time: Time,
}

/// The first day of the week.
#[derive(Clone, Copy, Debug, PartialEq, Eq)]
pub enum WeekStart {
    Monday,
    Sunday,
}

impl Default for WeekStart {
    fn default() -> (r: WeekStart)
        ensures
            r == WeekStart::Monday,
    {
        WeekStart::Monday
    }
}

/// Some date of the supported range has day number `n`.
pub open spec fn has_day(n: int) -> bool {
    exists|e: Date| e.valid() && day_number(e) == n
}

/// How many days the week of `d` began before `d`.
pub open spec fn week_offset(d: Date, ws: WeekStart) -> int {
    match ws {
        WeekStart::Monday => (day_number(d) + 3) % 7,
        WeekStart::Sunday => (day_number(d) + 4) % 7,
    }
}

/// The years a `chrono::NaiveDate` can hold.
pub open spec fn min_year() -> int {
    -262143
}

pub open spec fn max_year() -> int {
    262142
}

pub open spec fn is_leap(y: int) -> bool {
    y % 4 == 0 && (y % 100 != 0 || y % 400 == 0)
}

pub open spec fn days_in_month(y: int, m: int) -> int {
    if m == 2 {
        if is_leap(y) {
            29
        } else {
            28
        }
    } else if m == 4 || m == 6 || m == 9 || m == 11 {
        30
    } else {
        31
    }
}

/// A day that exists, in the range of years `chrono` supports.
pub open spec fn valid_ymd(y: int, m: int, d: int) -> bool {
    min_year() <= y <= max_year() && 1 <= m <= 12 && 1 <= d <= days_in_month(y, m)
}

impl Date {
    pub open spec fn valid(self) -> bool {
        valid_ymd(self.year as int, self.month as int, self.day as int)
    }
}

impl Time {
    pub open spec fn valid(self) -> bool {
        self.hour < 24 && self.minute < 60
    }
}

impl DateTime {
    pub open spec fn valid(self) -> bool {
        self.date.valid() && self.time.valid()
    }
}

/// Midnight, `chrono::NaiveTime::MIN`.
pub open spec fn midnight() -> Time {
    Time { hour: 0, minute: 0 }
}

/// The number of the day: days since 1970-01-01 (negative before it).
pub open spec fn day_number(d: Date) -> int {
    let y = if d.month <= 2 {
        d.year - 1
    } else {
        d.year as int
    };
    let era = y / 400;
    let yoe = y - era * 400;
    let mp = (d.month + 9) % 12;
    let doy = (153 * mp + 2) / 5 + d.day - 1;
    let doe = yoe * 365 + yoe / 4 - yoe / 100 + doy;
    era * 146097 + doe - 719468
}

/// `a` comes before `b` (by year, then month, then day).
pub open spec fn date_lt(a: Date, b: Date) -> bool {
    a.year < b.year || (a.year == b.year && (a.month < b.month || (a.month == b.month && a.day
        < b.day)))
}

pub open spec fn date_le(a: Date, b: Date) -> bool {
    date_lt(a, b) || a == b
}

pub open spec fn time_lt(a: Time, b: Time) -> bool {
    a.hour < b.hour || (a.hour == b.hour && a.minute < b.minute)
}

/// `a` is earlier than `b`.
pub open spec fn datetime_lt(a: DateTime, b: DateTime) -> bool {
    date_lt(a.date, b.date) || (a.date == b.date && time_lt(a.time, b.time))
}

pub fn date_less(a: Date, b: Date) -> (r: bool)
    ensures
        r == date_lt(a, b),
{
    a.year < b.year || (a.year == b.year && (a.month < b.month || (a.month == b.month && a.day
        < b.day)))
}

pub fn time_less(a: Time, b: Time) -> (r: bool)
    ensures
        r == time_lt(a, b),
{
    a.hour < b.hour || (a.hour == b.hour && a.minute < b.minute)
}

pub fn datetime_less(a: DateTime, b: DateTime) -> (r: bool)
    ensures
        r == datetime_lt(a, b),
{
    date_less(a.date, b.date) || (a.date == b.date && time_less(a.time, b.time))
}

/// `%Y` as `chrono` writes it: four digits for years 0 to 9999, else a sign
/// and at least four digits.
pub open spec fn year_text(y: int) -> Seq<char> {
    if 0 <= y <= 9999 {
        zero_padded(y as nat, 4)
    } else if y < 0 {
        seq!['-'] + zero_padded((-y) as nat, 4)
    } else {
        seq!['+'] + zero_padded(y as nat, 4)
    }
}

/// `%Y-%m-%d`.
pub open spec fn date_text(d: Date) -> Seq<char> {
    year_text(d.year as int) + seq!['-'] + zero_padded(d.month as nat, 2) + seq!['-'] + zero_padded(
        d.day as nat,
        2,
    )
}

/// `%H:%M`.
pub open spec fn time_text(t: Time) -> Seq<char> {
    zero_padded(t.hour as nat, 2) + seq![':'] + zero_padded(t.minute as nat, 2)
}

/// Appends `date_text(d)`.
pub fn push_date(out: &mut Vec<char>, d: Date)
    ensures
        final(out)@ == old(out)@ + date_text(d),
{
    let ghost base = out@;
    let y = d.year;
    if y >= 0 && y <= 9999 {
        push_zero_padded(out, y as u64, 4);
    } else if y < 0 {
        out.push('-');
        let a: u64 = if y == i32::MIN {
            2147483648u64
        } else {
            (-y) as u64
        };
        push_zero_padded(out, a, 4);
    } else {
        out.push('+');
        push_zero_padded(out, y as u64, 4);
    }
    assert(out@ == base + year_text(d.year as int));
    out.push('-');
    push_zero_padded(out, d.month as u64, 2);
    out.push('-');
    push_zero_padded(out, d.day as u64, 2);
    assert(out@ =~= base + date_text(d));
}

/// Appends `time_text(t)`.
pub fn push_time(out: &mut Vec<char>, t: Time)
    ensures
        final(out)@ == old(out)@ + time_text(t),
{
    let ghost base = out@;
    push_zero_padded(out, t.hour as u64, 2);
    out.push(':');
    push_zero_padded(out, t.minute as u64, 2);
    assert(out@ =~= base + time_text(t));
}

/// What `NaiveDate::parse_from_str(s, "%Y-%m-%d")` gives for `s`: year,
/// month and day, or nothing where `s` is no date of that shape.
pub uninterp spec fn chrono_date_of(s: Seq<char>) -> Option<(int, int, int)>;

/// What `NaiveTime::parse_from_str(s, "%H:%M")` gives for `s`: hour and
/// minute, or nothing.
pub uninterp spec fn chrono_time_of(s: Seq<char>) -> Option<(int, int)>;

/// `s` is the text `chrono` writes for a date that exists.
pub open spec fn is_date_text(s: Seq<char>) -> bool {
    exists|d: Date| d.valid() && date_text(d) == s
}

/// `s` is the text `chrono` writes for a time of day.
pub open spec fn is_time_text(s: Seq<char>) -> bool {
    exists|t: Time| t.valid() && time_text(t) == s
}

/// The date `s` reads as under `%Y-%m-%d`, if any: the date whose text it
/// is, where it is one; nothing where it holds no `-` (which the format
/// demands); else what `chrono` makes of it.
#[verifier::opaque]
pub open spec fn date_of(s: Seq<char>) -> Option<Date> {
    if is_date_text(s) {
        Some(choose|d: Date| d.valid() && date_text(d) == s)
    } else if !s.contains('-') {
        None
    } else {
        match chrono_date_of(s) {
            Some((y, m, d)) => Some(Date { year: y as i32, month: m as u32, day: d as u32 }),
            None => None,
        }
    }
}

/// The time `s` reads as under `%H:%M`, if any: the time whose text it is,
/// where it is one; nothing where it holds no `:`; else what `chrono` makes
/// of it.
#[verifier::opaque]
pub open spec fn time_of(s: Seq<char>) -> Option<Time> {
    if is_time_text(s) {
        Some(choose|t: Time| t.valid() && time_text(t) == s)
    } else if !s.contains(':') {
        None
    } else {
        match chrono_time_of(s) {
            Some((h, m)) => Some(Time { hour: h as u32, minute: m as u32 }),
            None => None,
        }
    }
}

/// `NaiveDate::parse_from_str(s, "%Y-%m-%d")`. Trusted: the result is
/// `date_of(s)`, a date that exists: the text `chrono` writes for a date
/// reads back as that date, text without a `-` (a literal of the format)
/// reads as none, and other text reads as the named `chrono_date_of(s)`;
/// how `chrono` reads such text (signs, short fields, spaces before
/// numbers) is left to that name.
#[verifier::external_body]
pub(crate) fn parse_date(s: &str) -> (r: Option<Date>)
    ensures
        r == date_of(s@),
        r matches Some(d) ==> d.valid(),
        !is_date_text(s@) && s@.contains('-') ==> r == (match chrono_date_of(s@) {
            Some((y, m, d)) => Some(Date { year: y as i32, month: m as u32, day: d as u32 }),
            None => None::<Date>,
        }),
{
    match NaiveDate::parse_from_str(s, "%Y-%m-%d") {
        Ok(d) => Some(Date { year: d.year(), month: d.month(), day: d.day() }),
        Err(_) => None,
    }
}

/// `NaiveTime::parse_from_str(s, "%H:%M")`. Trusted: the result is
/// `time_of(s)`, a time with hour below 24 and minute below 60: the text
/// `chrono` writes for a time reads back as it, text without a `:` reads
/// as none, and other text reads as the named `chrono_time_of(s)`.
#[verifier::external_body]
pub(crate) fn parse_time(s: &str) -> (r: Option<Time>)
    ensures
        r == time_of(s@),
        r matches Some(t) ==> t.valid(),
        !is_time_text(s@) && s@.contains(':') ==> r == (match chrono_time_of(s@) {
            Some((h, m)) => Some(Time { hour: h as u32, minute: m as u32 }),
            None => None::<Time>,
        }),
{
    match NaiveTime::parse_from_str(s, "%H:%M") {
        Ok(t) => Some(Time { hour: t.hour(), minute: t.minute() }),
        Err(_) => None,
    }
}

/// `NaiveDate::from_ymd_opt`. Trusted: a date exactly where the day exists
/// in the supported years.
#[verifier::external_body]
pub(crate) fn from_ymd(year: i32, month: u32, day: u32) -> (r: Option<Date>)
    ensures
        r == (if valid_ymd(year as int, month as int, day as int) {
            Some(Date { year, month, day })
        } else {
            None::<Date>
        }),
{
    match NaiveDate::from_ymd_opt(year, month, day) {
        Some(d) => Some(Date { year: d.year(), month: d.month(), day: d.day() }),
        None => None,
    }
}

/// `NaiveDate::checked_add_signed` with `n` whole days. Trusted: the date
/// whose day number is `n` more, where the supported years hold one, else
/// `None`.
#[verifier::external_body]
pub(crate) fn add_days(d: Date, n: i32) -> (r: Option<Date>)
    requires
        d.valid(),
    ensures
        r matches Some(e) ==> e.valid() && day_number(e) == day_number(d) + n,
        r is None ==> forall|e: Date| e.valid() ==> day_number(e) != day_number(d) + n,
{
    let nd = NaiveDate::from_ymd_opt(d.year, d.month, d.day).unwrap();
    match nd.checked_add_signed(TimeDelta::days(n as i64)) {
        Some(e) => Some(Date { year: e.year(), month: e.month(), day: e.day() }),
        None => None,
    }
}

/// `(a - b).num_days()` for dates: `NaiveDate::signed_duration_since` in
/// whole days. Trusted: the difference of the day numbers.
#[verifier::external_body]
pub(crate) fn days_between(a: Date, b: Date) -> (r: i64)
    requires
        a.valid(),
        b.valid(),
    ensures
        r == day_number(a) - day_number(b),
{
    let na = NaiveDate::from_ymd_opt(a.year, a.month, a.day).unwrap();
    let nb = NaiveDate::from_ymd_opt(b.year, b.month, b.day).unwrap();
    na.signed_duration_since(nb).num_days()
}

/// `d.weekday().num_days_from_monday()`. Trusted: counted from Monday,
/// 1970-01-01 (day number 0) being a Thursday.
#[verifier::external_body]
pub(crate) fn days_from_monday(d: Date) -> (r: u32)
    requires
        d.valid(),
    ensures
        r == (day_number(d) + 3) % 7,
{
    NaiveDate::from_ymd_opt(d.year, d.month, d.day).unwrap().weekday().num_days_from_monday()
}

/// `d.weekday().num_days_from_sunday()`. Trusted: counted from Sunday,
/// 1970-01-01 (day number 0) being a Thursday.
#[verifier::external_body]
pub(crate) fn days_from_sunday(d: Date) -> (r: u32)
    requires
        d.valid(),
    ensures
        r == (day_number(d) + 4) % 7,
{
    NaiveDate::from_ymd_opt(d.year, d.month, d.day).unwrap().weekday().num_days_from_sunday()
}

/// A number below 100 takes two digits zero-padded.
proof fn lemma_two_digits(n: nat)
    requires
        n < 100,
    ensures
        zero_padded(n, 2).len() == 2,
        all_digits(zero_padded(n, 2)),
        digits_val(zero_padded(n, 2)) == n,
{
    assert(pow10(2) == 100) by {
        assert(pow10(0) == 1);
        assert(pow10(1) == 10);
    }
    lemma_decimal_len_bound(n, 2);
    lemma_zero_padded_any(n, 2);
}

/// The year text: digits after an optional sign, the sign `-` exactly
/// for negative years and `+` exactly above 9999.
proof fn lemma_year_text(y: int)
    ensures
        ({
            let t = year_text(y);
            let body = if 0 <= y <= 9999 {
                t
            } else {
                t.drop_first()
            };
            &&& t.len() >= 1
            &&& body.len() >= 1
            &&& all_digits(body)
            &&& digits_val(body) == (if y < 0 {
                -y
            } else {
                y
            })
            &&& (0 <= y <= 9999 ==> is_digit(t[0]))
            &&& (y < 0 ==> t[0] == '-')
            &&& (y > 9999 ==> t[0] == '+')
            &&& (!(0 <= y <= 9999) ==> t =~= seq![t[0]] + body)
        }),
{
    if 0 <= y <= 9999 {
        lemma_zero_padded_any(y as nat, 4);
    } else if y < 0 {
        lemma_zero_padded_any((-y) as nat, 4);
        assert(year_text(y).drop_first() =~= zero_padded((-y) as nat, 4));
    } else {
        lemma_zero_padded_any(y as nat, 4);
        assert(year_text(y).drop_first() =~= zero_padded(y as nat, 4));
    }
}

proof fn lemma_year_text_injective(a: int, b: int)
    requires
        year_text(a) == year_text(b),
    ensures
        a == b,
{
    lemma_year_text(a);
    lemma_year_text(b);
    let t = year_text(a);
    assert(!is_digit('-') && !is_digit('+'));
    if 0 <= a <= 9999 {
        assert(0 <= b <= 9999);
    } else if a < 0 {
        assert(b < 0);
        assert(t.drop_first() == year_text(b).drop_first());
    } else {
        assert(b > 9999);
        assert(t.drop_first() == year_text(b).drop_first());
    }
}

/// Different dates are written differently.
pub proof fn lemma_date_text_injective(a: Date, b: Date)
    requires
        a.valid(),
        b.valid(),
        date_text(a) == date_text(b),
    ensures
        a == b,
{
    let t = date_text(a);
    lemma_two_digits(a.month as nat);
    lemma_two_digits(a.day as nat);
    lemma_two_digits(b.month as nat);
    lemma_two_digits(b.day as nat);
    let ya = year_text(a.year as int);
    let yb = year_text(b.year as int);
    assert(t.len() == ya.len() + 6);
    assert(date_text(b).len() == yb.len() + 6);
    assert(ya.len() == yb.len());
    let n = ya.len() as int;
    assert(t.take(n) =~= ya);
    assert(date_text(b).take(n) =~= yb);
    lemma_year_text_injective(a.year as int, b.year as int);
    assert(t.subrange(n + 1, n + 3) =~= zero_padded(a.month as nat, 2));
    assert(date_text(b).subrange(n + 1, n + 3) =~= zero_padded(b.month as nat, 2));
    assert(t.subrange(n + 4, n + 6) =~= zero_padded(a.day as nat, 2));
    assert(date_text(b).subrange(n + 4, n + 6) =~= zero_padded(b.day as nat, 2));
}

/// Different times are written differently.
pub proof fn lemma_time_text_injective(a: Time, b: Time)
    requires
        a.valid(),
        b.valid(),
        time_text(a) == time_text(b),
    ensures
        a == b,
{
    let t = time_text(a);
    lemma_two_digits(a.hour as nat);
    lemma_two_digits(a.minute as nat);
    lemma_two_digits(b.hour as nat);
    lemma_two_digits(b.minute as nat);
    assert(t.subrange(0, 2) =~= zero_padded(a.hour as nat, 2));
    assert(time_text(b).subrange(0, 2) =~= zero_padded(b.hour as nat, 2));
    assert(t.subrange(3, 5) =~= zero_padded(a.minute as nat, 2));
    assert(time_text(b).subrange(3, 5) =~= zero_padded(b.minute as nat, 2));
}

proof fn lemma_time_text_colon(tm: Time)
    requires
        tm.valid(),
    ensures
        time_text(tm).len() == 5,
        time_text(tm)[2] == ':',
{
    lemma_two_digits(tm.hour as nat);
    lemma_two_digits(tm.minute as nat);
}

proof fn lemma_date_text_dash(d: Date)
    requires
        d.valid(),
    ensures
        date_text(d).contains('-'),
{
    let n = year_text(d.year as int).len() as int;
    assert(date_text(d)[n] == '-');
}

/// A date's text is a word without `:` that reads back as the date.
pub proof fn lemma_date_text(d: Date)
    requires
        d.valid(),
    ensures
        date_of(date_text(d)) == Some(d),
        is_word(date_text(d)),
        !date_text(d).contains(':'),
        date_text(d).contains('-'),
        time_of(date_text(d)) is None,
{
    reveal(date_of);
    reveal(time_of);
    let t = date_text(d);
    assert(is_date_text(t));
    let c = choose|e: Date| e.valid() && date_text(e) == t;
    lemma_date_text_injective(c, d);
    lemma_year_text(d.year as int);
    lemma_two_digits(d.month as nat);
    lemma_two_digits(d.day as nat);
    let y = year_text(d.year as int);
    let n = y.len() as int;
    assert forall|i: int| 0 <= i < t.len() implies !is_ws(#[trigger] t[i]) && t[i] != ':' by {
        if i < n {
            assert(t[i] == y[i]);
            if 0 <= d.year <= 9999 {
                assert(is_digit(y[i]));
            } else if i > 0 {
                assert(y[i] == y.drop_first()[i - 1]);
                assert(is_digit(y.drop_first()[i - 1]));
            }
        } else if n < i < n + 3 {
            assert(t[i] == zero_padded(d.month as nat, 2)[i - n - 1]);
        } else if n + 3 < i {
            assert(t[i] == zero_padded(d.day as nat, 2)[i - n - 4]);
        }
    }
    assert(t[n] == '-');
    if is_time_text(t) {
        let tm = choose|tm: Time| tm.valid() && time_text(tm) == t;
        lemma_time_text_colon(tm);
        assert(t[2] == ':');
    }
}

/// A time's text is a word without `-` that reads back as the time.
pub proof fn lemma_time_text(tm: Time)
    requires
        tm.valid(),
    ensures
        time_of(time_text(tm)) == Some(tm),
        is_word(time_text(tm)),
        !time_text(tm).contains('-'),
        time_text(tm).contains(':'),
        date_of(time_text(tm)) is None,
{
    reveal(date_of);
    reveal(time_of);
    let t = time_text(tm);
    assert(is_time_text(t));
    let c = choose|e: Time| e.valid() && time_text(e) == t;
    lemma_time_text_injective(c, tm);
    lemma_two_digits(tm.hour as nat);
    lemma_two_digits(tm.minute as nat);
    assert forall|i: int| 0 <= i < t.len() implies !is_ws(#[trigger] t[i]) && t[i] != '-' by {
        if i < 2 {
            assert(t[i] == zero_padded(tm.hour as nat, 2)[i]);
        } else if i > 2 {
            assert(t[i] == zero_padded(tm.minute as nat, 2)[i - 3]);
        }
    }
    assert(t[2] == ':');
    if is_date_text(t) {
        let d = choose|d: Date| d.valid() && date_text(d) == t;
        lemma_date_text_dash(d);
    }
}

} // verus!
