//! calchemy's commands: the settings, the date windows of `list`, which
//! appointments a view shows, the one-line and agenda renderings, and the
//! appointment `add` builds from its arguments.
use vstd::prelude::*;
use crate::text::{
    chars_of, string_of, views, join_sp, join_chars, split_once, split_once_spec, trim, trim_chars,
    append_chars, append_str,
};
use crate::num::{decimal, push_decimal};
use crate::lines::string_views;
use crate::tags::matches_spec;
use crate::dates::{
    Date, Time, DateTime, date_of, time_of, parse_date, parse_time, date_lt, date_le, time_lt,
    datetime_lt, date_less, time_less, datetime_less, midnight, date_text, time_text, push_date,
    push_time, day_number, max_year, from_ymd, add_days, days_between, days_from_monday,
    days_from_sunday, valid_ymd, WeekStart, has_day, week_offset,
};
use crate::calchemy::{Appt, ApptView, start_of, last_day, sorted, entries, sorted_entries};

verus! {

/// The settings a configuration file may give; each may be absent.
pub struct RawConfig {
    pub path: Option<String>,
    pub week_start: Option<WeekStart>,
}

/// The settings calchemy runs with.
pub struct ResolvedConfig {
    pub path: String,
    pub week_start: WeekStart,
}

/// No calendar path was given and there is no data directory to default to.
#[derive(Debug, PartialEq, Eq)]
pub enum ConfigError {
    NoDataDir,
}

/// Settles the configuration: the calendar path (the configured one, else
/// `default_path`, the calendar file under the data directory where there
/// is one) and the first day of the week (Monday by default).
pub fn resolve(raw: RawConfig, default_path: Option<String>) -> (r: Result<ResolvedConfig, ConfigError>)
    ensures
        match r {
            Ok(c) => {
                &&& c.path@ == (match raw.path {
                    Some(p) => p@,
                    None => default_path->0@,
                })
                &&& (raw.path is Some || default_path is Some)
                &&& c.week_start == (match raw.week_start {
                    Some(w) => w,
                    None => WeekStart::Monday,
                })
            },
            Err(ConfigError::NoDataDir) => raw.path is None && default_path is None,
        },
{
    let path = match raw.path {
        Some(p) => p,
        None => match default_path {
            Some(p) => p,
            None => {
                return Err(ConfigError::NoDataDir);
            },
        },
    };
    let week_start = match raw.week_start {
        Some(w) => w,
        None => WeekStart::Monday,
    };
    Ok(ResolvedConfig { path, week_start })
}

/// The first day of the month after the month of `d`.
pub open spec fn next_month_first(d: Date) -> Date {
    if d.month == 12 {
        Date { year: (d.year + 1) as i32, month: 1, day: 1 }
    } else {
        Date { year: d.year, month: (d.month + 1) as u32, day: 1 }
    }
}

/// The last day of the month that `first` opens: the day before the first
/// of the next month.
pub fn month_end(first: Date) -> (r: Date)
    requires
        first.valid(),
        first.month < 12 || first.year < max_year(),
        has_day(day_number(next_month_first(first)) - 1),
    ensures
        r.valid(),
        day_number(r) == day_number(next_month_first(first)) - 1,
{
    let next = if first.month == 12 {
        from_ymd(first.year + 1, 1, 1)
    } else {
        from_ymd(first.year, first.month + 1, 1)
    };
    let next = next.unwrap();
    assert(next == next_month_first(first));
    match add_days(next, -1) {
        Some(d) => d,
        None => {
            assert(false);
            next
        },
    }
}

/// The filters of `list`.
pub struct ApptFilter {
    pub today: bool,
    pub week: bool,
    pub month: bool,
    pub since: Option<String>,
    pub until: Option<String>,
    pub all: bool,
    pub past: bool,
}

/// A `--since`/`--until` argument that is no date.
#[derive(Debug, PartialEq, Eq)]
pub enum WindowError {
    InvalidDate(String),
}

/// The date a `--since`/`--until` argument gives, if any.
pub open spec fn bound_of(arg: Option<String>) -> Result<Option<Date>, Seq<char>> {
    match arg {
        None => Ok(None),
        Some(s) => match date_of(s@) {
            Some(d) => Ok(Some(d)),
            None => Err(s@),
        },
    }
}

/// What the week window needs: the week's first and last days exist.
pub open spec fn week_in_range(today: Date, ws: WeekStart) -> bool {
    has_day(day_number(today) - week_offset(today, ws)) && has_day(
        day_number(today) - week_offset(today, ws) + 6,
    )
}

/// What the month window needs: the month is not the last supported one.
pub open spec fn month_in_range(today: Date) -> bool {
    (today.month < 12 || today.year < max_year()) && has_day(
        day_number(next_month_first(Date { year: today.year, month: today.month, day: 1 })) - 1,
    )
}

/// Whether `today` is a date of the supported range whose week window
/// exists (see `week_in_range`).
fn week_fits(today: Date, ws: WeekStart) -> (b: bool)
    ensures
        b == (today.valid() && week_in_range(today, ws)),
{
    if from_ymd(today.year, today.month, today.day).is_none() {
        return false;
    }
    let from_start = match ws {
        WeekStart::Monday => days_from_monday(today),
        WeekStart::Sunday => days_from_sunday(today),
    };
    assert(from_start < 7);
    match add_days(today, -(from_start as i32)) {
        Some(start) => add_days(start, 6).is_some(),
        None => false,
    }
}

/// Whether `today` is a date of the supported range whose month window
/// exists (see `month_in_range`).
fn month_fits(today: Date) -> (b: bool)
    ensures
        b == (today.valid() && month_in_range(today)),
{
    if from_ymd(today.year, today.month, today.day).is_none() {
        return false;
    }
    if today.month == 12 && today.year >= 262142 {
        return false;
    }
    let next = if today.month == 12 {
        from_ymd(today.year + 1, 1, 1)
    } else {
        from_ymd(today.year, today.month + 1, 1)
    };
    match next {
        Some(n) => {
            assert(n == next_month_first(Date { year: today.year, month: today.month, day: 1 }));
            add_days(n, -1).is_some()
        },
        None => false,
    }
}

/// Whether `filter_window` can take `f` and `today`: `today` is a date of
/// the supported range, and the week or month window it asks for exists.
pub fn window_fits(week_start: WeekStart, f: &ApptFilter, today: Date) -> (b: bool)
    ensures
        b == (today.valid() && (!f.today && f.week ==> week_in_range(today, week_start)) && (
        !f.today && !f.week && f.month ==> month_in_range(today))),
{
    if from_ymd(today.year, today.month, today.day).is_none() {
        false
    } else if f.today {
        true
    } else if f.week {
        week_fits(today, week_start)
    } else if f.month {
        month_fits(today)
    } else {
        true
    }
}

fn bound(arg: &Option<String>) -> (r: Result<Option<Date>, WindowError>)
    ensures
        match r {
            Ok(d) => bound_of(*arg) == Ok::<Option<Date>, Seq<char>>(d),
            Err(WindowError::InvalidDate(s)) => bound_of(*arg) == Err::<Option<Date>, Seq<char>>(s@),
        },
{
    match arg {
        None => Ok(None),
        Some(s) => match parse_date(s.as_str()) {
            Some(d) => Ok(Some(d)),
            None => Err(WindowError::InvalidDate(s.clone())),
        },
    }
}

/// The `[since, until]` window a filter selects, relative to `today`:
/// today alone; the whole calendar week holding today (from `week_start`);
/// the whole calendar month; else the `--since`/`--until` dates, each
/// where given (an argument that is no date is an error, `--since` first).
pub fn filter_window(week_start: WeekStart, f: &ApptFilter, today: Date) -> (r: Result<
    (Option<Date>, Option<Date>),
    WindowError,
>)
    requires
        today.valid(),
        !f.today && f.week ==> week_in_range(today, week_start),
        !f.today && !f.week && f.month ==> month_in_range(today),
    ensures
        f.today ==> r == Ok::<(Option<Date>, Option<Date>), WindowError>((Some(today), Some(today))),
        !f.today && f.week ==> (r matches Ok((Some(s), Some(e))) && s.valid() && e.valid()
            && day_number(s) == day_number(today) - week_offset(today, week_start) && day_number(e)
            == day_number(s) + 6),
        !f.today && !f.week && f.month ==> (r matches Ok((Some(s), Some(e))) && s == (Date {
            year: today.year,
            month: today.month,
            day: 1,
        }) && e.valid() && day_number(e) == day_number(next_month_first(s)) - 1),
        !f.today && !f.week && !f.month ==> match r {
            Ok((s, u)) => bound_of(f.since) == Ok::<Option<Date>, Seq<char>>(s) && bound_of(f.until)
                == Ok::<Option<Date>, Seq<char>>(u),
            Err(WindowError::InvalidDate(t)) => bound_of(f.since) == Err::<Option<Date>, Seq<char>>(
                t@,
            ) || (bound_of(f.since) is Ok && bound_of(f.until) == Err::<Option<Date>, Seq<char>>(
                t@,
            )),
        },
{
    if f.today {
        Ok((Some(today), Some(today)))
    } else if f.week {
        let from_start = match week_start {
            WeekStart::Monday => days_from_monday(today),
            WeekStart::Sunday => days_from_sunday(today),
        };
        assert(from_start < 7);
        let start = match add_days(today, -(from_start as i32)) {
            Some(d) => d,
            None => {
                assert(false);
                return Err(WindowError::InvalidDate(String::new()));
            },
        };
        let end = match add_days(start, 6) {
            Some(d) => d,
            None => {
                assert(false);
                return Err(WindowError::InvalidDate(String::new()));
            },
        };
        Ok((Some(start), Some(end)))
    } else if f.month {
        let first = from_ymd(today.year, today.month, 1);
        let first = first.unwrap();
        let end = month_end(first);
        Ok((Some(first), Some(end)))
    } else {
        let since = bound(&f.since)?;
        let until = bound(&f.until)?;
        Ok((since, until))
    }
}

/// Which appointments a view shows: those touching a window (a day of the
/// appointment, from its date to its last day, falls in it; an open end
/// is unbounded), or those wholly past.
#[derive(Clone, Copy, Debug, PartialEq, Eq)]
pub enum Selection {
    Window(Option<Date>, Option<Date>),
    Past,
}

/// `a` shows in `view` on `today`.
pub open spec fn in_view(a: ApptView, view: Selection, today: Date) -> bool {
    match view {
        Selection::Window(since, until) => (match since {
            Some(s) => date_le(s, last_day(a)),
            None => true,
        }) && (match until {
            Some(u) => date_le(a.date, u),
            None => true,
        }),
        Selection::Past => date_lt(last_day(a), today),
    }
}

/// The view `list` shows: a window where the filter sets one (or asks for
/// today, the week or the month), else everything for `--all`, the past for
/// `--past`, and by default what is not yet over (today onward).
pub fn list_view(f: &ApptFilter, since: Option<Date>, until: Option<Date>, today: Date) -> (r: Selection)
    ensures
        r == (if since is Some || until is Some || f.today || f.week || f.month {
            Selection::Window(since, until)
        } else if f.all {
            Selection::Window(None, None)
        } else if f.past {
            Selection::Past
        } else {
            Selection::Window(Some(today), None)
        }),
{
    if since.is_some() || until.is_some() || f.today || f.week || f.month {
        Selection::Window(since, until)
    } else if f.all {
        Selection::Window(None, None)
    } else if f.past {
        Selection::Past
    } else {
        Selection::Window(Some(today), None)
    }
}

/// What not yet over means: touching today or later. `next` and `rm` work
/// on this view.
pub open spec fn upcoming_view(today: Date) -> Selection {
    Selection::Window(Some(today), None)
}

/// The entries of `es` that show in `view` and match the tag queries, in
/// order.
pub open spec fn keep_entries(
    es: Seq<(ApptView, Seq<char>)>,
    view: Selection,
    queries: Seq<Seq<char>>,
    today: Date,
) -> Seq<(ApptView, Seq<char>)>
    decreases es.len(),
{
    if es.len() == 0 {
        seq![]
    } else {
        let p = keep_entries(es.drop_last(), view, queries, today);
        let e = es.last();
        if in_view(e.0, view, today) && matches_spec(e.0.title, queries) {
            p.push(e)
        } else {
            p
        }
    }
}

fn shows(a: &Appt, view: Selection, today: Date) -> (b: bool)
    ensures
        b == in_view(a.fields(), view, today),
{
    match view {
        Selection::Window(since, until) => {
            let last = a.last_date();
            let after = match since {
                Some(s) => !date_less(last, s),
                None => true,
            };
            let before = match until {
                Some(u) => !date_less(u, a.date),
                None => true,
            };
            after && before
        },
        Selection::Past => date_less(a.last_date(), today),
    }
}

/// The appointments of `appts` that show in `view` on `today` and whose
/// title matches the tag queries (all, where there is none), sorted by
/// start, equal starts in file order.
pub fn select(appts: &Vec<Appt>, view: Selection, tag_queries: &[String], today: Date) -> (r: Vec<Appt>)
    ensures
        sorted_entries(
            keep_entries(entries(appts@), view, tag_queries@.map_values(|q: String| q@), today),
            entries(r@),
        ),
{
    let ghost qs = tag_queries@.map_values(|q: String| q@);
    let ghost es = entries(appts@);
    let mut kept: Vec<Appt> = Vec::new();
    let mut i: usize = 0;
    while i < appts.len()
        invariant
            i <= appts.len(),
            es == entries(appts@),
            qs == tag_queries@.map_values(|q: String| q@),
            entries(kept@) == keep_entries(es.take(i as int), view, qs, today),
        decreases appts.len() - i,
    {
        let a = &appts[i];
        assert(es.take(i + 1).drop_last() =~= es.take(i as int));
        assert(es.take(i + 1).last() == (a.fields(), a.raw@));
        let ghost pre = entries(kept@);
        if shows(a, view, today) && crate::tags::matches(a.title.as_str(), tag_queries) {
            kept.push(a.copy());
            assert(entries(kept@) =~= pre.push((a.fields(), a.raw@)));
        }
        i = i + 1;
    }
    assert(es.take(i as int) =~= es);
    sorted(&kept)
}

/// The first of the sorted upcoming `appts` that has not started by `now`:
/// all-day ones count as not started.
pub fn next_appt(upcoming: &Vec<Appt>, now: DateTime) -> (r: Option<Appt>)
    ensures
        match r {
            Some(a) => exists|k: int|
                0 <= k < upcoming.len() && entries(upcoming@)[k] == (a.fields(), a.raw@) && (
                upcoming@[k].start is None || !datetime_lt(start_of(upcoming@[k].fields()), now))
                    && forall|j: int|
                    0 <= j < k ==> #[trigger] upcoming@[j].start is Some && datetime_lt(
                        start_of(upcoming@[j].fields()),
                        now,
                    ),
            None => forall|j: int|
                0 <= j < upcoming.len() ==> #[trigger] upcoming@[j].start is Some && datetime_lt(
                    start_of(upcoming@[j].fields()),
                    now,
                ),
        },
{
    let mut i: usize = 0;
    while i < upcoming.len()
        invariant
            i <= upcoming.len(),
            forall|j: int|
                0 <= j < i ==> #[trigger] upcoming@[j].start is Some && datetime_lt(
                    start_of(upcoming@[j].fields()),
                    now,
                ),
        decreases upcoming.len() - i,
    {
        let a = &upcoming[i];
        if a.start.is_none() || !datetime_less(a.start_dt(), now) {
            let c = a.copy();
            assert(entries(upcoming@)[i as int] == (c.fields(), c.raw@));
            return Some(c);
        }
        i = i + 1;
    }
    None
}

/// The appointment numbered `index` (from 1) in `view`.
pub fn nth_appt(view: &Vec<Appt>, index: usize) -> (r: Option<Appt>)
    ensures
        match r {
            Some(a) => 1 <= index <= view.len() && entries(view@)[index - 1] == (a.fields(), a.raw@),
            None => !(1 <= index <= view.len()),
        },
{
    if index == 0 || index > view.len() {
        return None;
    }
    Some(view[index - 1].copy())
}

/// The time column of an appointment: nothing for an all-day one; its
/// start; or its start, `-`, and its end (the time where it ends on its
/// date, else the end's date and time).
pub open spec fn time_col_text(a: ApptView) -> Option<Seq<char>> {
    match a.start {
        None => None,
        Some(st) => Some(
            match a.end {
                None => time_text(st),
                Some(e) => if e.date == a.date {
                    time_text(st) + seq!['-'] + time_text(e.time)
                } else {
                    time_text(st) + seq!['-'] + date_text(e.date) + seq![' '] + time_text(e.time)
                },
            },
        ),
    }
}

fn push_time_col(out: &mut Vec<char>, st: Time, a: &Appt)
    requires
        a.start == Some(st),
    ensures
        final(out)@ == old(out)@ + time_col_text(a.fields())->0,
{
    let ghost base = out@;
    push_time(out, st);
    match a.end {
        None => {},
        Some(e) => {
            out.push('-');
            if e.date == a.date {
                push_time(out, e.time);
            } else {
                push_date(out, e.date);
                out.push(' ');
                push_time(out, e.time);
            }
        },
    }
    assert(out@ =~= base + time_col_text(a.fields())->0);
}

/// The time column for an appointment, or `None` for an all-day one.
pub fn time_col(a: &Appt) -> (r: Option<String>)
    ensures
        match r {
            Some(s) => time_col_text(a.fields()) == Some(s@),
            None => time_col_text(a.fields()) is None,
        },
{
    match a.start {
        None => None,
        Some(st) => {
            let mut out: Vec<char> = Vec::new();
            push_time_col(&mut out, st, a);
            Some(string_of(&out))
        },
    }
}

/// `DATE [TIME] TITLE`.
pub open spec fn inline_text(a: ApptView) -> Seq<char> {
    match time_col_text(a) {
        Some(t) => date_text(a.date) + seq![' '] + t + seq![' '] + a.title,
        None => date_text(a.date) + seq![' '] + a.title,
    }
}

/// One-line rendering: `DATE [TIME] TITLE`.
pub fn render_inline(a: &Appt) -> (r: String)
    ensures
        r@ == inline_text(a.fields()),
{
    let mut out: Vec<char> = Vec::new();
    push_date(&mut out, a.date);
    out.push(' ');
    match a.start {
        Some(st) => {
            push_time_col(&mut out, st, a);
            out.push(' ');
        },
        None => {},
    }
    append_str(&mut out, a.title.as_str());
    assert(out@ =~= inline_text(a.fields()));
    string_of(&out)
}

/// The column text of the agenda: the time column, or `all day`.
pub open spec fn agenda_col(a: ApptView) -> Seq<char> {
    match time_col_text(a) {
        Some(t) => t,
        None => "all day"@,
    }
}

/// One row of today's agenda: its time column and its title.
pub struct AgendaRow {
    pub col: String,
    pub title: String,
}

/// The agenda rows of `appts`, in order, and the width of the time column:
/// the longest time column, at least that of `all day`.
pub fn agenda(appts: &Vec<Appt>) -> (r: (Vec<AgendaRow>, usize))
    ensures
        r.0.len() == appts.len(),
        forall|i: int|
            0 <= i < appts.len() ==> (#[trigger] r.0@[i]).col@ == agenda_col(appts@[i].fields())
                && r.0@[i].title@ == appts@[i].title@,
        r.1 >= 7,
        forall|i: int| 0 <= i < appts.len() ==> (#[trigger] r.0@[i]).col@.len() <= r.1,
        r.1 == 7 || exists|i: int| 0 <= i < appts.len() && (#[trigger] r.0@[i]).col@.len() == r.1,
{
    let mut rows: Vec<AgendaRow> = Vec::new();
    let mut width: usize = 7;
    let mut i: usize = 0;
    while i < appts.len()
        invariant
            i <= appts.len(),
            rows.len() == i,
            width >= 7,
            forall|k: int|
                0 <= k < i ==> (#[trigger] rows@[k]).col@ == agenda_col(appts@[k].fields())
                    && rows@[k].title@ == appts@[k].title@,
            forall|k: int| 0 <= k < i ==> (#[trigger] rows@[k]).col@.len() <= width,
            width == 7 || exists|k: int| 0 <= k < i && (#[trigger] rows@[k]).col@.len() == width,
        decreases appts.len() - i,
    {
        let a = &appts[i];
        let col = match time_col(a) {
            Some(t) => t,
            None => "all day".to_owned(),
        };
        let cv = chars_of(col.as_str());
        let cl = cv.len();
        if cl > width {
            width = cl;
        }
        let ghost pre = rows@;
        rows.push(AgendaRow { col, title: a.title.clone() });
        assert(rows@[i as int].col@.len() == cl);
        assert forall|k: int| 0 <= k < i + 1 implies (#[trigger] rows@[k]).col@.len() <= width by {
            if k < i {
                assert(rows@[k] == pre[k]);
            }
        }
        if width == cl {
            assert(rows@[i as int].col@.len() == width);
        } else {
            assert(width == 7 || exists|k: int| 0 <= k < i + 1 && (#[trigger] rows@[k]).col@.len() == width) by {
                if width != 7 {
                    let k = choose|k: int| 0 <= k < i && (#[trigger] pre[k]).col@.len() == width;
                    assert(rows@[k] == pre[k]);
                }
            }
        }
        i = i + 1;
    }
    (rows, width)
}

/// How a day is named relative to another `n` days before it.
pub open spec fn relative_text(n: int) -> Seq<char> {
    if n == 0 {
        "today"@
    } else if n == 1 {
        "tomorrow"@
    } else if n == -1 {
        "yesterday"@
    } else if n > 0 {
        "in "@ + decimal(n as nat) + " days"@
    } else {
        decimal((-n) as nat) + " days ago"@
    }
}

/// Day numbers of supported dates stay well within `i64`.
proof fn lemma_day_number_bounds(d: Date)
    requires
        d.valid(),
    ensures
        -200_000_000 < day_number(d) < 200_000_000,
{
    let y = if d.month <= 2 {
        d.year - 1
    } else {
        d.year as int
    };
    let era = y / 400;
    let yoe = y - era * 400;
    let mp = (d.month + 9) % 12;
    let doy = (153 * mp + 2) / 5 + d.day - 1;
    let doe = yoe * 365 + yoe / 4 - yoe / 100 + doy;
    assert(-656 <= era <= 656) by (nonlinear_arith)
        requires
            -262144 <= y <= 262142,
            era == y / 400,
    ;
    assert(0 <= yoe < 400) by (nonlinear_arith)
        requires
            era == y / 400,
            yoe == y - era * 400,
    ;
    assert(0 <= doy <= 400) by (nonlinear_arith)
        requires
            0 <= mp < 12,
            1 <= d.day <= 31,
            doy == (153 * mp + 2) / 5 + d.day - 1,
    ;
    assert(0 <= doe <= 200000) by (nonlinear_arith)
        requires
            0 <= yoe < 400,
            0 <= doy <= 400,
            doe == yoe * 365 + yoe / 4 - yoe / 100 + doy,
    ;
    assert(-100_000_000 <= era * 146097 <= 100_000_000) by (nonlinear_arith)
        requires
            -656 <= era <= 656,
    ;
}

/// How `date` is named relative to `today`: `today`, `tomorrow`,
/// `yesterday`, `in N days` or `N days ago`.
pub fn relative_day(date: Date, today: Date) -> (r: String)
    requires
        date.valid(),
        today.valid(),
    ensures
        r@ == relative_text(day_number(date) - day_number(today)),
{
    proof {
        lemma_day_number_bounds(date);
        lemma_day_number_bounds(today);
    }
    let n = days_between(date, today);
    let mut out: Vec<char> = Vec::new();
    if n == 0 {
        append_str(&mut out, "today");
    } else if n == 1 {
        append_str(&mut out, "tomorrow");
    } else if n == -1 {
        append_str(&mut out, "yesterday");
    } else if n > 0 {
        append_str(&mut out, "in ");
        push_decimal(&mut out, n as u64);
        append_str(&mut out, " days");
    } else {
        push_decimal(&mut out, (-n) as u64);
        append_str(&mut out, " days ago");
    }
    assert(out@ =~= relative_text(n as int));
    string_of(&out)
}

/// A time argument of `add`: `HH:MM`, or `HH:MM-HH:MM` split at the first
/// `-`, both sides times.
pub open spec fn time_arg_of(s: Seq<char>) -> Option<(Time, Option<Time>)> {
    match split_once_spec(s, "-"@) {
        Some((a, b)) => match (time_of(a), time_of(b)) {
            (Some(x), Some(y)) => Some((x, Some(y))),
            _ => None,
        },
        None => match time_of(s) {
            Some(t) => Some((t, None)),
            None => None,
        },
    }
}

fn time_chars(t: &Vec<char>) -> (r: Option<Time>)
    ensures
        r == time_of(t@),
{
    let s = string_of(t);
    parse_time(s.as_str())
}

fn date_chars(t: &Vec<char>) -> (r: Option<Date>)
    ensures
        r == date_of(t@),
{
    let s = string_of(t);
    parse_date(s.as_str())
}

/// Reads a time argument of `add` (see `time_arg_of`); `None` where it is
/// no time, so that it belongs to the title.
pub fn parse_time_arg(s: &str) -> (r: Option<(Time, Option<Time>)>)
    ensures
        r == time_arg_of(s@),
{
    let v = chars_of(s);
    match split_once(&v, "-") {
        Some((a, b)) => {
            let x = time_chars(&a);
            let y = time_chars(&b);
            match (x, y) {
                (Some(x), Some(y)) => Some((x, Some(y))),
                _ => None,
            }
        },
        None => match parse_time(s) {
            Some(t) => Some((t, None)),
            None => None,
        },
    }
}

/// Why `add` refuses an appointment.
#[derive(Debug, PartialEq, Eq)]
pub enum AddError {
    /// The date argument is no date; it holds the argument.
    InvalidDate(String),
    /// The end is not after the start.
    EndNotAfterStart,
    /// The title is empty or only whitespace.
    NoTitle,
    /// The title holds a line break.
    Newline,
}

/// What `add` makes of its date and first argument: a time range (an end at
/// or before the start is on the next day); a start time followed by an end
/// date and time; a start time; an end date (a multi-day all-day event);
/// or nothing, the arguments all being title. Gives the start, the end,
/// how many arguments were taken, or that the end is not after the start.
pub open spec fn add_fields(date: Date, rest: Seq<Seq<char>>, next_day: Date) -> Result<
    (Option<Time>, Option<DateTime>, int),
    (),
> {
    match time_arg_of(rest[0]) {
        Some((s, Some(e))) => Ok(
            (
                Some(s),
                Some(
                    DateTime {
                        date: if time_lt(s, e) {
                            date
                        } else {
                            next_day
                        },
                        time: e,
                    },
                ),
                1,
            ),
        ),
        Some((s, None)) => if rest.len() >= 3 && date_of(rest[1]) is Some && time_of(rest[2]) is Some {
            let end = DateTime { date: date_of(rest[1])->0, time: time_of(rest[2])->0 };
            if datetime_lt(DateTime { date, time: s }, end) {
                Ok((Some(s), Some(end), 3))
            } else {
                Err(())
            }
        } else {
            Ok((Some(s), None, 1))
        },
        None => if date_of(rest[0]) is Some {
            let e = date_of(rest[0])->0;
            if date_lt(date, e) {
                Ok((None, Some(DateTime { date: e, time: midnight() }), 1))
            } else {
                Err(())
            }
        } else {
            Ok((None, None, 0))
        },
    }
}

/// What `add` gives for the date argument `date_arg` and the words `rs`
/// after it (see `add_fields`): the appointment, whose title is the
/// remaining words joined by spaces and must be neither blank nor hold a
/// line break, or why there is none.
pub open spec fn add_result(date_arg: Seq<char>, rs: Seq<Seq<char>>, r: Result<Appt, AddError>) -> bool {
    match date_of(date_arg) {
        None => r matches Err(AddError::InvalidDate(s)) && s@ == date_arg,
        Some(date) => {
            match r {
                Ok(a) => exists|next_day: Date|
                    (next_day.valid() && day_number(next_day) == day_number(date) + 1) && (
                    #[trigger] add_fields(date, rs, next_day) matches Ok((start, end, k)) && a.date
                        == date && a.start == start && a.end == end && a.title@ == join_sp(
                        rs.skip(k),
                    ) && trim(a.title@).len() > 0 && !a.title@.contains('\n')
                        && !a.title@.contains('\r') && a.raw@.len() == 0),
                Err(AddError::InvalidDate(_)) => false,
                Err(AddError::EndNotAfterStart) => forall|next_day: Date|
                    #[trigger] add_fields(date, rs, next_day) is Err,
                Err(AddError::NoTitle) => exists|next_day: Date|
                    #[trigger] add_fields(date, rs, next_day) matches Ok((_, _, k)) && trim(
                        join_sp(rs.skip(k)),
                    ).len() == 0,
                Err(AddError::Newline) => exists|next_day: Date|
                    #[trigger] add_fields(date, rs, next_day) matches Ok((_, _, k)) && trim(
                        join_sp(rs.skip(k)),
                    ).len() > 0 && (join_sp(rs.skip(k)).contains('\n') || join_sp(
                        rs.skip(k),
                    ).contains('\r')),
            }
        },
    }
}

/// Builds the appointment `add` appends from its date argument and the
/// words after it (see `add_result`).
pub fn add_appt(date_arg: &str, rest: &Vec<String>) -> (r: Result<Appt, AddError>)
    requires
        rest.len() >= 1,
        forall|d: Date| date_of(date_arg@) == Some(d) ==> has_day(day_number(d) + 1),
    ensures
        add_result(date_arg@, string_views(rest@), r),
{
    let date = match parse_date(date_arg) {
        Some(d) => d,
        None => {
            return Err(AddError::InvalidDate(date_arg.to_owned()));
        },
    };
    let ghost rs = string_views(rest@);
    let ghost mut nd: Date = date;
    let next = add_days(date, 1);
    let next_day = match next {
        Some(d) => d,
        None => {
            assert(false);
            date
        },
    };
    proof {
        nd = next_day;
    }
    let r0 = chars_of(rest[0].as_str());
    assert(r0@ == rs[0]);
    let (start, end, k): (Option<Time>, Option<DateTime>, usize) = match parse_time_arg(
        rest[0].as_str(),
    ) {
        Some((s, Some(e))) => {
            let ed = if time_less(s, e) {
                date
            } else {
                next_day
            };
            (Some(s), Some(DateTime { date: ed, time: e }), 1)
        },
        Some((s, None)) => {
            let mut multi: Option<DateTime> = None;
            if rest.len() >= 3 {
                assert(rest@[1]@ == rs[1] && rest@[2]@ == rs[2]);
                let d1 = date_chars(&chars_of(rest[1].as_str()));
                let t2 = time_chars(&chars_of(rest[2].as_str()));
                if d1.is_some() && t2.is_some() {
                    multi = Some(DateTime { date: d1.unwrap(), time: t2.unwrap() });
                }
            }
            match multi {
                Some(end) => {
                    if !datetime_less(DateTime { date, time: s }, end) {
                        assert(forall|nd2: Date| #[trigger] add_fields(date, rs, nd2) is Err);
                        return Err(AddError::EndNotAfterStart);
                    }
                    (Some(s), Some(end), 3)
                },
                None => (Some(s), None, 1),
            }
        },
        None => {
            match date_chars(&r0) {
                Some(e) => {
                    if !date_less(date, e) {
                        assert(forall|nd2: Date| #[trigger] add_fields(date, rs, nd2) is Err);
                        return Err(AddError::EndNotAfterStart);
                    }
                    (None, Some(DateTime { date: e, time: Time { hour: 0, minute: 0 } }), 1)
                },
                None => (None, None, 0),
            }
        },
    };
    assert(add_fields(date, rs, nd) == Ok::<(Option<Time>, Option<DateTime>, int), ()>(
        (start, end, k as int),
    ));
    let mut parts: Vec<Vec<char>> = Vec::new();
    let mut i: usize = k;
    while i < rest.len()
        invariant
            k <= i <= rest.len(),
            rs == string_views(rest@),
            views(parts@) == rs.subrange(k as int, i as int),
        decreases rest.len() - i,
    {
        let ghost pre = views(parts@);
        parts.push(chars_of(rest[i].as_str()));
        assert(views(parts@) =~= pre.push(rs[i as int]));
        assert(rs.subrange(k as int, i + 1) =~= rs.subrange(k as int, i as int).push(rs[i as int]));
        i = i + 1;
    }
    assert(rs.subrange(k as int, i as int) =~= rs.skip(k as int));
    let sep = vec![' '];
    assert(sep@ =~= seq![' ']);
    let title = join_chars(&parts, &sep);
    if trim_chars(&title).len() == 0 {
        return Err(AddError::NoTitle);
    }
    let mut j: usize = 0;
    while j < title.len()
        invariant
            j <= title.len(),
            rs == string_views(rest@),
            date_of(date_arg@) == Some(date),
            title@ == join_sp(rs.skip(k as int)),
            trim(title@).len() > 0,
            add_fields(date, rs, nd) == Ok::<(Option<Time>, Option<DateTime>, int), ()>(
                (start, end, k as int),
            ),
            forall|m: int| 0 <= m < j ==> title@[m] != '\n' && title@[m] != '\r',
        decreases title.len() - j,
    {
        if title[j] == '\n' || title[j] == '\r' {
            assert(title@.contains(title@[j as int]));
            assert(add_fields(date, rs, nd) matches Ok((_, _, kk)) && trim(join_sp(rs.skip(kk))).len()
                > 0 && (join_sp(rs.skip(kk)).contains('\n') || join_sp(rs.skip(kk)).contains('\r')));
            return Err(AddError::Newline);
        }
        j = j + 1;
    }
    Ok(Appt { date, start, end, title: string_of(&title), raw: String::new() })
}

/// `add` for any date argument: `None` where the date is the last day the
/// calendar holds, so that no next day exists for an end at or before the
/// start to roll over to; else what `add_appt` gives.
pub fn add_appt_checked(date_arg: &str, rest: &Vec<String>) -> (r: Option<Result<Appt, AddError>>)
    requires
        rest.len() >= 1,
    ensures
        r is None <==> (date_of(date_arg@) matches Some(d) && !has_day(day_number(d) + 1)),
        r matches Some(x) ==> add_result(date_arg@, string_views(rest@), x),
{
    match parse_date(date_arg) {
        Some(d) => match add_days(d, 1) {
            Some(_) => {},
            None => {
                return None;
            },
        },
        None => {},
    }
    Some(add_appt(date_arg, rest))
}

} // verus!
