//! The clocking command-line scenarios, run through the library on a log
//! held in memory.
use chrono::{Datelike, Duration, Local, NaiveDate};
use flexi_tools::clocking::{
    close_session, entries_on_day, in_description, open_session, session_end_text, session_row,
    summarize, OutError,
};
use flexi_tools::dates::{Date, DateTime, Time, WeekStart};
use flexi_tools::log::{log_line, pop_log, read_log};
use flexi_tools::logview::{filter_window, select_entries, LogFilter, TimestampFormat};

fn clock_today() -> String {
    Local::now().format("%Y-%m-%d").to_string()
}

fn date_of_text(s: &str) -> Date {
    let d = NaiveDate::parse_from_str(s, "%Y-%m-%d").unwrap();
    Date { year: d.year(), month: d.month(), day: d.day() }
}

fn marker_ago(mins: i64, note: Option<&str>) -> String {
    let start = (Local::now() - Duration::minutes(mins)).format("%Y-%m-%d %H:%M").to_string();
    log_line(&start, &in_description(note.map(|n| n.to_string())))
}

/// Closes the open session `elapsed` minutes long, the way `out` does.
fn clock_out(log: &mut String, elapsed: i64, max: Option<i32>, force: bool, note: Option<&str>) -> Result<i32, OutError> {
    let open = open_session(log).unwrap().expect("a session is open");
    let now = Local::now();
    let end_at = DateTime {
        date: date_of_text(&clock_today()),
        time: Time { hour: chrono::Timelike::hour(&now), minute: chrono::Timelike::minute(&now) },
    };
    let start_day = date_of_text(&open.timestamp[..10]);
    let end = session_end_text(start_day, end_at, TimestampFormat::Simple, "");
    let (desc, mins) = close_session(&open, elapsed, 1, max, force, note.map(|n| n.to_string()), &end)?;
    let (_, rest) = pop_log(log).unwrap().unwrap();
    *log = format!("{}{}", rest, log_line(&open.timestamp, &desc));
    Ok(mins)
}

fn today_total(log: &str) -> i32 {
    summarize(&entries_on_day(&read_log(log).unwrap(), &clock_today())).0
}

fn clock_lines(log: &str, f: &LogFilter) -> Vec<String> {
    let today = date_of_text(&clock_today());
    let (since, until) = filter_window(WeekStart::Monday, f, today).unwrap();
    select_entries(&read_log(log).unwrap(), since, until, f.last)
        .iter()
        .map(|e| {
            let r = session_row(e);
            format!("{}  {}", r.stamp, r.text)
        })
        .collect()
}

fn every() -> LogFilter {
    LogFilter { last: None, today: false, yesterday: false, week: false, month: false, since: None, until: None }
}

#[test]
fn fresh_status_is_not_clocked_in() {
    assert!(open_session("").unwrap().is_none());
    assert_eq!(today_total(""), 0);
}

#[test]
fn in_then_status_shows_clocked_in() {
    let log = marker_ago(0, None);
    assert!(open_session(&log).unwrap().is_some());
    assert!(log.contains("@in"));
}

#[test]
fn in_twice_is_rejected() {
    let log = marker_ago(0, None);
    assert!(open_session(&log).unwrap().is_some());
}

#[test]
fn out_without_session_is_rejected() {
    assert!(open_session("").unwrap().is_none());
}

#[test]
fn status_after_out_shows_today_total() {
    let mut log = marker_ago(90, None);
    assert_eq!(clock_out(&mut log, 90, None, false, None), Ok(90));
    assert!(open_session(&log).unwrap().is_none());
    assert_eq!(today_total(&log), 90);
}

#[test]
fn out_preserves_in_and_out_notes() {
    let mut log = marker_ago(30, Some("project x"));
    clock_out(&mut log, 30, None, false, Some("wrapped up")).unwrap();
    assert!(log.contains("# project x; wrapped up"), "got: {log}");
}

#[test]
fn out_over_max_session_needs_force() {
    let mut log = marker_ago(120, None);
    assert_eq!(clock_out(&mut log, 120, Some(60), false, None), Err(OutError::OverMax { elapsed: 120, cap: 60 }));
    assert_eq!(clock_out(&mut log, 120, Some(60), true, None), Ok(120));
}

#[test]
fn log_today_filters_by_date() {
    let log = format!("2020-01-01 12:00 8 hr (09:00–17:00)\n{} 17:00 6 hr (11:00–17:00)\n", clock_today());
    let out = clock_lines(&log, &LogFilter { today: true, ..every() }).join("\n");
    assert!(out.contains("6 hr"), "got: {out}");
    assert!(!out.contains("8 hr"), "old entry should be filtered: {out}");
}

#[test]
fn full_timestamp_format_records_and_reads() {
    let start = (Local::now() - Duration::minutes(90)).to_rfc3339_opts(chrono::SecondsFormat::Secs, false);
    let mut log = log_line(&start, "@in");
    assert!(open_session(&log).unwrap().is_some());
    assert_eq!(clock_out(&mut log, 90, None, false, None), Ok(90));
    assert_eq!(log.as_bytes()[10], b'T', "closing line should use full format: {log}");
}

#[test]
fn log_last_limits_entries() {
    let log = "2026-07-05 12:00 2 hr (10:00–12:00)\n2026-07-06 12:00 3 hr (09:00–12:00)\n2026-07-07 12:00 4 hr (08:00–12:00)\n";
    let lines = clock_lines(log, &LogFilter { last: Some(2), ..every() });
    assert_eq!(lines.len(), 2);
    let out = lines.join("\n");
    assert!(out.contains("3 hr") && out.contains("4 hr"), "got: {out}");
    assert!(!out.contains("2 hr"), "oldest should be dropped: {out}");
}

#[test]
fn undo_removes_last_entry() {
    let log = format!("{} 12:00 3 hr (09:00–12:00)\n", clock_today());
    let (entry, rest) = pop_log(&log).unwrap().unwrap();
    assert_eq!(entry.description, "3 hr (09:00–12:00)");
    assert!(rest.trim().is_empty());
}
