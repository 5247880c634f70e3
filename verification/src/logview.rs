//! The filters of `log` and `summary` in flexi and clocking: a date window
//! (today, yesterday, this week or month so far, or `--since`/`--until`)
//! and the last N entries.
use vstd::prelude::*;
use crate::text::{chars_of, string_of, replace_all, replace_chars};
use crate::dates::{
    Date, WeekStart, date_of, parse_date, date_lt, date_le, date_less, day_number, add_days,
    from_ymd, days_from_monday, days_from_sunday, has_day, week_offset,
};
use crate::log::{LogEntry, byte_prefix, prefix_bytes};

verus! {

/// How a log line's timestamp is written: `2026-07-11 17:30`, or RFC 3339
/// `2026-07-11T17:30:16+01:00`.
#[derive(Clone, Copy, Debug, PartialEq, Eq)]
pub enum TimestampFormat {
    Simple,
    Full,
}

impl Default for TimestampFormat {
    fn default() -> (r: TimestampFormat)
        ensures
            r == TimestampFormat::Simple,
    {
        TimestampFormat::Simple
    }
}

/// The settings a configuration file may give; each may be absent.
pub struct RawConfig {
    pub path: Option<String>,
    pub timestamp_format: Option<TimestampFormat>,
    pub week_start: Option<WeekStart>,
    pub increment: Option<u32>,
    pub max_session: Option<u32>,
}

/// The settings flexi and clocking run with.
pub struct ResolvedConfig {
    pub path: String,
    pub timestamp_format: TimestampFormat,
    pub week_start: WeekStart,
    pub increment: i32,
    pub max_session: Option<i32>,
}

/// Why a configuration is refused.
#[derive(Debug, PartialEq, Eq)]
pub enum ConfigError {
    /// No log path was given and there is no data directory to default to.
    NoDataDir,
    /// `increment` is 0.
    IncrementTooSmall,
    /// `max_session` is 0 (it is left out to have no limit).
    MaxSessionZero,
}

/// Settles the configuration of flexi or clocking: the log path (the configured one, else
/// `default_path`), the timestamp format (simple by default), the week
/// start (Monday by default), the rounding increment (1 by default, at
/// least 1) and the longest session (none by default, at least 1).
pub fn resolve(raw: RawConfig, default_path: Option<String>) -> (r: Result<ResolvedConfig, ConfigError>)
    ensures
        ({
            let inc = match raw.increment {
                Some(n) => n,
                None => 1,
            };
            match r {
                Ok(c) => {
                    &&& (raw.path is Some || default_path is Some)
                    &&& c.path@ == (match raw.path {
                        Some(p) => p@,
                        None => default_path->0@,
                    })
                    &&& inc >= 1
                    &&& raw.max_session != Some(0u32)
                    &&& c.timestamp_format == (match raw.timestamp_format {
                        Some(t) => t,
                        None => TimestampFormat::Simple,
                    })
                    &&& c.week_start == (match raw.week_start {
                        Some(w) => w,
                        None => WeekStart::Monday,
                    })
                    &&& c.increment == inc as i32
                    &&& c.max_session == (match raw.max_session {
                        Some(m) => Some(m as i32),
                        None => None,
                    })
                },
                Err(ConfigError::NoDataDir) => raw.path is None && default_path is None,
                Err(ConfigError::IncrementTooSmall) => (raw.path is Some || default_path is Some)
                    && inc < 1,
                Err(ConfigError::MaxSessionZero) => (raw.path is Some || default_path is Some)
                    && inc >= 1 && raw.max_session == Some(0u32),
            }
        }),
{
    let path = match raw.path {
        Some(p) => p,
        None => match default_path {
            Some(p) => p,
            None => {
                return Err(ConfigError::NoDataDir);
            },
        },
    };
    let increment = match raw.increment {
        Some(n) => n,
        None => 1,
    };
    if increment < 1 {
        return Err(ConfigError::IncrementTooSmall);
    }
    if raw.max_session == Some(0u32) {
        return Err(ConfigError::MaxSessionZero);
    }
    let timestamp_format = match raw.timestamp_format {
        Some(t) => t,
        None => TimestampFormat::Simple,
    };
    let week_start = match raw.week_start {
        Some(w) => w,
        None => WeekStart::Monday,
    };
    let max_session = match raw.max_session {
        Some(m) => Some(m as i32),
        None => None,
    };
    Ok(
        ResolvedConfig {
            path,
            timestamp_format,
            week_start,
            increment: increment as i32,
            max_session,
        },
    )
}

/// The filters of `log`.
pub struct LogFilter {
    /// Only the last N entries.
    pub last: Option<usize>,
    pub today: bool,
    pub yesterday: bool,
    pub week: bool,
    pub month: bool,
    /// On or after this date (`YYYY-MM-DD`).
    pub since: Option<String>,
    /// On or before this date (`YYYY-MM-DD`).
    pub until: Option<String>,
}

/// A `--since` or `--until` argument that is no date.
#[derive(Debug, PartialEq, Eq)]
pub enum FilterError {
    InvalidSince,
    InvalidUntil,
}

/// What the window needs: yesterday, or the week's first day, exists.
pub open spec fn window_in_range(f: LogFilter, week_start: WeekStart, today: Date) -> bool {
    &&& (!f.today && f.yesterday ==> has_day(day_number(today) - 1))
    &&& (!f.today && !f.yesterday && f.week ==> has_day(
        day_number(today) - week_offset(today, week_start),
    ))
}

/// Whether `today` is a date of the supported range whose window for `f`
/// exists (see `window_in_range`): what `filter_window` needs.
pub fn window_fits(f: &LogFilter, week_start: WeekStart, today: Date) -> (b: bool)
    ensures
        b == (today.valid() && window_in_range(*f, week_start, today)),
{
    if from_ymd(today.year, today.month, today.day).is_none() {
        return false;
    }
    if f.today {
        true
    } else if f.yesterday {
        add_days(today, -1).is_some()
    } else if f.week {
        let from_start = match week_start {
            WeekStart::Monday => days_from_monday(today),
            WeekStart::Sunday => days_from_sunday(today),
        };
        assert(from_start < 7);
        add_days(today, -(from_start as i32)).is_some()
    } else {
        true
    }
}

/// The `[since, until]` window a filter selects, relative to `today`:
/// today; yesterday; the current week (from `week_start`) up to today; the
/// current month up to today; else the `--since`/`--until` dates, each
/// where given (`--since` is read first).
pub fn filter_window(week_start: WeekStart, f: &LogFilter, today: Date) -> (r: Result<
    (Option<Date>, Option<Date>),
    FilterError,
>)
    requires
        today.valid(),
        window_in_range(*f, week_start, today),
    ensures
        f.today ==> r == Ok::<(Option<Date>, Option<Date>), FilterError>((Some(today), Some(today))),
        !f.today && f.yesterday ==> (r matches Ok((Some(y), Some(u))) && y == u && y.valid()
            && day_number(y) == day_number(today) - 1),
        !f.today && !f.yesterday && f.week ==> (r matches Ok((Some(s), Some(u))) && u == today
            && s.valid() && day_number(s) == day_number(today) - week_offset(today, week_start)),
        !f.today && !f.yesterday && !f.week && f.month ==> r == Ok::<
            (Option<Date>, Option<Date>),
            FilterError,
        >((Some(Date { year: today.year, month: today.month, day: 1 }), Some(today))),
        !f.today && !f.yesterday && !f.week && !f.month ==> match r {
            Ok((s, u)) => (match f.since {
                Some(t) => date_of(t@) is Some && s == date_of(t@),
                None => s is None,
            }) && (match f.until {
                Some(t) => date_of(t@) is Some && u == date_of(t@),
                None => u is None,
            }),
            Err(FilterError::InvalidSince) => f.since is Some && date_of(f.since->0@) is None,
            Err(FilterError::InvalidUntil) => (f.since is None || date_of(f.since->0@) is Some)
                && f.until is Some && date_of(f.until->0@) is None,
        },
{
    if f.today {
        Ok((Some(today), Some(today)))
    } else if f.yesterday {
        match add_days(today, -1) {
            Some(y) => Ok((Some(y), Some(y))),
            None => {
                assert(false);
                Ok((None, None))
            },
        }
    } else if f.week {
        let from_start = match week_start {
            WeekStart::Monday => days_from_monday(today),
            WeekStart::Sunday => days_from_sunday(today),
        };
        assert(from_start < 7);
        match add_days(today, -(from_start as i32)) {
            Some(s) => Ok((Some(s), Some(today))),
            None => {
                assert(false);
                Ok((None, None))
            },
        }
    } else if f.month {
        let first = from_ymd(today.year, today.month, 1).unwrap();
        Ok((Some(first), Some(today)))
    } else {
        let since = match &f.since {
            None => None,
            Some(s) => match parse_date(s.as_str()) {
                Some(d) => Some(d),
                None => {
                    return Err(FilterError::InvalidSince);
                },
            },
        };
        let until = match &f.until {
            None => None,
            Some(s) => match parse_date(s.as_str()) {
                Some(d) => Some(d),
                None => {
                    return Err(FilterError::InvalidUntil);
                },
            },
        };
        Ok((since, until))
    }
}

/// The date of an entry: its first ten bytes read as a date, if they do.
pub open spec fn entry_date(e: LogEntry) -> Option<Date> {
    match byte_prefix(e.timestamp@, 10) {
        Some(p) => date_of(p),
        None => date_of(Seq::<char>::empty()),
    }
}

/// An entry falls in the window: its date is in it, or it has no date.
pub open spec fn in_window(e: LogEntry, since: Option<Date>, until: Option<Date>) -> bool {
    match entry_date(e) {
        None => true,
        Some(d) => (match since {
            Some(s) => date_le(s, d),
            None => true,
        }) && (match until {
            Some(u) => date_le(d, u),
            None => true,
        }),
    }
}

/// The positions of the entries of `es` in the window, in order.
pub open spec fn window_positions(es: Seq<LogEntry>, since: Option<Date>, until: Option<Date>) -> Seq<int>
    decreases es.len(),
{
    if es.len() == 0 {
        seq![]
    } else {
        let p = window_positions(es.drop_last(), since, until);
        if in_window(es.last(), since, until) {
            p.push(es.len() - 1)
        } else {
            p
        }
    }
}

/// The positions `log` shows: those in the window, the last `n` of them
/// where `--last n` asks for fewer than there are.
pub open spec fn shown_positions(es: Seq<LogEntry>, since: Option<Date>, until: Option<Date>, last: Option<usize>) -> Seq<int> {
    let ps = window_positions(es, since, until);
    match last {
        Some(n) => if n < ps.len() {
            ps.skip(ps.len() - n)
        } else {
            ps
        },
        None => ps,
    }
}

/// Copies a log entry.
pub fn copy_entry(e: &LogEntry) -> (r: LogEntry)
    ensures
        r.timestamp@ == e.timestamp@,
        r.description@ == e.description@,
{
    LogEntry { timestamp: e.timestamp.clone(), description: e.description.clone() }
}

fn entry_in_window(e: &LogEntry, since: Option<Date>, until: Option<Date>) -> (b: bool)
    ensures
        b == in_window(*e, since, until),
{
    let v = chars_of(e.timestamp.as_str());
    let p = match prefix_bytes(&v, 10) {
        Some(p) => p,
        None => Vec::new(),
    };
    assert(p@ == (match byte_prefix(e.timestamp@, 10) {
        Some(q) => q,
        None => Seq::<char>::empty(),
    }));
    let ps = crate::text::string_of(&p);
    match parse_date(ps.as_str()) {
        None => true,
        Some(d) => {
            let a = match since {
                Some(s) => !date_less(d, s),
                None => true,
            };
            let b = match until {
                Some(u) => !date_less(u, d),
                None => true,
            };
            a && b
        },
    }
}

/// The entries `log` shows (see `shown_positions`), in order.
pub fn select_entries(
    entries: &Vec<LogEntry>,
    since: Option<Date>,
    until: Option<Date>,
    last: Option<usize>,
) -> (r: Vec<LogEntry>)
    ensures
        r.len() == shown_positions(entries@, since, until, last).len(),
        forall|i: int|
            0 <= i < r.len() ==> {
                let k = #[trigger] shown_positions(entries@, since, until, last)[i];
                0 <= k < entries.len() && r@[i].timestamp@ == entries@[k].timestamp@
                    && r@[i].description@ == entries@[k].description@
            },
{
    let mut kept: Vec<usize> = Vec::new();
    let mut i: usize = 0;
    while i < entries.len()
        invariant
            i <= entries.len(),
            kept@.map_values(|k: usize| k as int) == window_positions(
                entries@.take(i as int),
                since,
                until,
            ),
            forall|j: int| 0 <= j < kept.len() ==> kept@[j] < i,
        decreases entries.len() - i,
    {
        assert(entries@.take(i + 1).drop_last() =~= entries@.take(i as int));
        assert(entries@.take(i + 1).last() == entries@[i as int]);
        let ghost pre = kept@;
        if entry_in_window(&entries[i], since, until) {
            kept.push(i);
            assert(kept@.map_values(|k: usize| k as int) =~= pre.map_values(|k: usize| k as int).push(
                i as int,
            ));
        }
        i = i + 1;
    }
    assert(entries@.take(i as int) =~= entries@);
    let ghost ps = window_positions(entries@, since, until);
    let start: usize = match last {
        Some(n) => if n < kept.len() {
            kept.len() - n
        } else {
            0
        },
        None => 0,
    };
    let ghost shown = shown_positions(entries@, since, until, last);
    assert(shown =~= ps.skip(start as int));
    let mut out: Vec<LogEntry> = Vec::new();
    let mut j: usize = start;
    while j < kept.len()
        invariant
            start <= j <= kept.len(),
            kept@.map_values(|k: usize| k as int) == ps,
            forall|m: int| 0 <= m < kept.len() ==> kept@[m] < entries.len(),
            shown == ps.skip(start as int),
            out.len() == j - start,
            forall|m: int|
                0 <= m < out.len() ==> {
                    let k = #[trigger] shown[m];
                    0 <= k < entries.len() && out@[m].timestamp@ == entries@[k].timestamp@
                        && out@[m].description@ == entries@[k].description@
                },
        decreases kept.len() - j,
    {
        let k = kept[j];
        assert(shown[j - start] == ps[j as int]);
        assert(ps[j as int] == k);
        out.push(copy_entry(&entries[k]));
        j = j + 1;
    }
    out
}

/// How `log` shows a timestamp: its first 16 bytes (all of it where
/// byte 16 does not begin a character), with every `T` made a space.
pub open spec fn display_stamp(ts: Seq<char>) -> Seq<char> {
    let p = match byte_prefix(ts, 16) {
        Some(p) => p,
        None => ts,
    };
    replace_all(p, "T"@, " "@)
}

/// The timestamp as `log` shows it (see `display_stamp`).
pub fn stamp_for_display(ts: &str) -> (r: String)
    ensures
        r@ == display_stamp(ts@),
{
    let v = chars_of(ts);
    let p = match prefix_bytes(&v, 16) {
        Some(p) => p,
        None => v,
    };
    string_of(&replace_chars(&p, "T", " "))
}

} // verus!
