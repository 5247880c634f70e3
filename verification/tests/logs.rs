use flexi_tools::clocking::{
    close_session, clocked_in_status, entries_on_day, in_description, open_session as clock_open,
    session_end_text, session_row, sessions_word, summarize, OutError,
};
use flexi_tools::dates::{Date, DateTime, Time, WeekStart};
use flexi_tools::flexi::{
    close_flexi_session, marker_description, open_session as flexi_open, print_log_entry,
    print_prose, prose_label, record_change, resolve_flexi_path, session_span, set_description,
    signed_duration, summary_rows, totals, undo_change, Config, ConfigError as FlexiConfigError,
    SessionError, Tone, UndoError,
};
use flexi_tools::log::{
    log_line, parse_note, pop_log, read_log, read_minutes, BalanceError, EntryError, LogEntry,
    LogError, NoteError,
};
use flexi_tools::logview::{
    filter_window as log_window, resolve as resolve_log, select_entries, stamp_for_display,
    ConfigError as LogConfigError, FilterError, LogFilter, RawConfig as LogRaw, TimestampFormat,
};

fn log_day(year: i32, month: u32, day: u32) -> Date {
    Date { year, month, day }
}

fn log_time(hour: u32, minute: u32) -> Time {
    Time { hour, minute }
}

fn logged(ts: &str, desc: &str) -> LogEntry {
    LogEntry { timestamp: ts.to_string(), description: desc.to_string() }
}

fn no_log_filter() -> LogFilter {
    LogFilter {
        last: None,
        today: false,
        yesterday: false,
        week: false,
        month: false,
        since: None,
        until: None,
    }
}

fn raw_log_config() -> LogRaw {
    LogRaw { path: None, timestamp_format: None, week_start: None, increment: None, max_session: None }
}

#[test]
fn change_descriptions_read_back() {
    let d = record_change(60, 90, None);
    assert_eq!(d, "+30 min > 1 hr 30 min");
    let e = logged("2026-07-11 09:00", &d);
    assert_eq!(e.new_minutes().unwrap(), 90);
    assert_eq!(e.delta_minutes(), Some(30));
    let d = record_change(90, 60, Some("lunch".to_string()));
    assert_eq!(d, "-30 min > 1 hr # lunch");
    let e = logged("2026-07-11 09:00", &d);
    assert_eq!(e.new_minutes().unwrap(), 60);
    assert_eq!(e.delta_minutes(), Some(-30));
    assert_eq!(e.note(), Some("lunch".to_string()));
    assert_eq!(e.body(), "-30 min > 1 hr");
    let d = record_change(60, 60, Some("checked".to_string()));
    assert_eq!(d, "+0 min > 1 hr # checked");
    assert_eq!(signed_duration(-90), "-1 hr 30 min");
    assert_eq!(signed_duration(0), "+0 min");
}

#[test]
fn set_and_marker_descriptions_read_back() {
    let d = set_description(0, None);
    assert_eq!(d, "= 0 min");
    assert_eq!(logged("2026-07-11 09:00", &d).new_minutes().unwrap(), 0);
    let d = set_description(-45, Some("fix".to_string()));
    assert_eq!(d, "= -45 min # fix");
    assert_eq!(logged("2026-07-11 09:00", &d).new_minutes().unwrap(), -45);
    let d = marker_description(true, 90, Some("focus".to_string()));
    assert_eq!(d, "@in 1 hr 30 min # focus");
    let e = logged("2026-07-11 09:00", &d);
    assert_eq!(e.marker(), Some((true, "1 hr 30 min".to_string())));
    assert_eq!(e.new_minutes().unwrap(), 90);
    let d = marker_description(false, 0, None);
    assert_eq!(d, "@out 0 min");
    assert_eq!(logged("2026-07-11 09:00", &d).marker(), Some((false, "0 min".to_string())));
}

#[test]
fn entry_without_balance_is_an_error() {
    let e = logged("2026-07-11 09:00", "hello there");
    assert!(matches!(e.new_minutes(), Err(EntryError::NoValue(_))));
    let e = logged("2026-07-11 09:00", "= soon");
    assert!(matches!(e.new_minutes(), Err(EntryError::Duration(_))));
}

#[test]
fn undo_takes_back_the_appended_line() {
    let before = "2026-07-11 09:00 +1 hr > 1 hr\n";
    let desc = record_change(60, 90, None);
    let after = format!("{}{}", before, log_line("2026-07-11 10:00", &desc));
    assert_eq!(after, "2026-07-11 09:00 +1 hr > 1 hr\n2026-07-11 10:00 +30 min > 1 hr 30 min\n");
    let (entry, rest) = pop_log(&after).unwrap().unwrap();
    assert_eq!(entry.timestamp, "2026-07-11 10:00");
    assert_eq!(entry.description, desc);
    assert_eq!(rest, before);
    assert_eq!(undo_change(&entry, &rest).unwrap(), (-30, 60));
    let (first, empty) = pop_log(&rest).unwrap().unwrap();
    assert_eq!(empty, "");
    assert_eq!(undo_change(&first, &empty).unwrap(), (-60, 0));
    assert!(pop_log("").unwrap().is_none());
    assert!(pop_log("\n\n").unwrap().is_none());
    assert!(matches!(pop_log("2026-07-11 09:00 = 1 hr\nbad\n"), Err(LogError::MalformedLine(l)) if l == "bad"));
    let odd = logged("2026-07-11 09:00", "just words");
    assert!(matches!(undo_change(&odd, ""), Err(UndoError::Entry(_))));
    let fine = logged("2026-07-11 09:00", "= 1 hr");
    assert!(matches!(undo_change(&fine, "2026-07-11 08:00 words\n"), Err(UndoError::Balance(BalanceError::Entry(_)))));
}

#[test]
fn balance_is_read_from_the_last_entry() {
    assert_eq!(read_minutes("").unwrap(), 0);
    assert_eq!(read_minutes("2026-07-11 09:00 = 2 hr\n2026-07-11 10:00 -30 min -> 1 hr 30 min\n").unwrap(), 90);
    assert_eq!(read_minutes("2026-07-11 09:00 +1 hr → 1 hr\n").unwrap(), 60);
    assert!(matches!(read_minutes("short\n"), Err(BalanceError::Log(LogError::MalformedLine(_)))));
    assert_eq!(read_minutes("garbage\n2026-07-11 09:00 = 1 hr\n").unwrap(), 60);
    assert!(matches!(read_minutes("2026-07-11 09:00 note only\n"), Err(BalanceError::Entry(_))));
    let es = read_log("2026-07-11T09:00:00+01:00 = 1 hr\n\n2026-07-12 10:00 = 2 hr\n").unwrap();
    assert_eq!(es.len(), 2);
    assert_eq!(es[0].timestamp, "2026-07-11T09:00:00+01:00");
    assert_eq!(es[1].description, "= 2 hr");
}

#[test]
fn notes_are_checked() {
    assert_eq!(parse_note("after lunch"), Ok("after lunch".to_string()));
    assert_eq!(parse_note("two\nlines"), Err(NoteError::Newline));
    assert_eq!(parse_note("cr\r"), Err(NoteError::Newline));
    assert_eq!(parse_note("   "), Err(NoteError::Empty));
}

#[test]
fn log_config_defaults_and_errors() {
    let c = resolve_log(raw_log_config(), Some("flexi.txt".to_string())).unwrap();
    assert_eq!(c.path, "flexi.txt");
    assert_eq!(c.timestamp_format, TimestampFormat::Simple);
    assert_eq!(c.week_start, WeekStart::Monday);
    assert_eq!(c.increment, 1);
    assert_eq!(c.max_session, None);
    assert_eq!(resolve_log(raw_log_config(), None).err(), Some(LogConfigError::NoDataDir));
    let mut r = raw_log_config();
    r.increment = Some(0);
    assert_eq!(resolve_log(r, Some("p".to_string())).err(), Some(LogConfigError::IncrementTooSmall));
    let mut r = raw_log_config();
    r.max_session = Some(0);
    assert_eq!(resolve_log(r, Some("p".to_string())).err(), Some(LogConfigError::MaxSessionZero));
    let mut r = raw_log_config();
    r.increment = Some(15);
    r.max_session = Some(600);
    r.timestamp_format = Some(TimestampFormat::Full);
    let c = resolve_log(r, Some("p".to_string())).unwrap();
    assert_eq!((c.increment, c.max_session, c.timestamp_format), (15, Some(600), TimestampFormat::Full));
    assert_eq!(
        resolve_flexi_path(Config { path: None }, None),
        Err(FlexiConfigError::NoDataDir)
    );
    assert_eq!(
        resolve_flexi_path(Config { path: Some("a".to_string()) }, Some("b".to_string())),
        Ok("a".to_string())
    );
}

#[test]
fn log_windows() {
    let today = log_day(2026, 3, 1);
    let mut f = no_log_filter();
    f.yesterday = true;
    assert_eq!(log_window(WeekStart::Monday, &f, today), Ok((Some(log_day(2026, 2, 28)), Some(log_day(2026, 2, 28)))));
    let mut f = no_log_filter();
    f.week = true;
    assert_eq!(
        log_window(WeekStart::Monday, &f, log_day(2026, 7, 15)),
        Ok((Some(log_day(2026, 7, 13)), Some(log_day(2026, 7, 15))))
    );
    let mut f = no_log_filter();
    f.month = true;
    assert_eq!(log_window(WeekStart::Monday, &f, log_day(2026, 7, 15)), Ok((Some(log_day(2026, 7, 1)), Some(log_day(2026, 7, 15)))));
    let mut f = no_log_filter();
    f.since = Some("yesterday".to_string());
    assert_eq!(log_window(WeekStart::Monday, &f, today), Err(FilterError::InvalidSince));
    let mut f = no_log_filter();
    f.since = Some("2026-01-01".to_string());
    f.until = Some("later".to_string());
    assert_eq!(log_window(WeekStart::Monday, &f, today), Err(FilterError::InvalidUntil));
    f.until = Some("2026-01-31".to_string());
    assert_eq!(log_window(WeekStart::Monday, &f, today), Ok((Some(log_day(2026, 1, 1)), Some(log_day(2026, 1, 31)))));
}

#[test]
fn entries_are_selected_by_window_and_count() {
    let es = vec![
        logged("2026-05-01 09:00", "+2 hr > 2 hr"),
        logged("2026-05-10T09:00:00+01:00", "+1 hr > 3 hr"),
        logged("2026-05-20 09:00", "-30 min > 2 hr 30 min"),
    ];
    let w = select_entries(&es, Some(log_day(2026, 5, 2)), None, None);
    assert_eq!(w.len(), 2);
    assert_eq!(w[0].description, "+1 hr > 3 hr");
    let w = select_entries(&es, None, Some(log_day(2026, 5, 10)), None);
    assert_eq!(w.len(), 2);
    let w = select_entries(&es, None, None, Some(1));
    assert_eq!(w.len(), 1);
    assert_eq!(w[0].description, "-30 min > 2 hr 30 min");
    assert_eq!(totals(&es), (180, -30));
    assert_eq!(stamp_for_display("2026-05-10T09:00:00+01:00"), "2026-05-10 09:00");
    assert_eq!(stamp_for_display("2026-05-01 09:00"), "2026-05-01 09:00");
}

#[test]
fn prose_sentences() {
    let text = |segs: Vec<flexi_tools::flexi::Segment>| segs.iter().map(|s| s.text.clone()).collect::<String>();
    assert_eq!(
        text(print_prose("Today", 120, -30, 90)),
        "Today: banked 1 hr 30 min (added 2 hr, removed 30 min). Balance now 1 hr 30 min."
    );
    assert_eq!(text(print_prose("Today", 120, 0, 120)), "Today: banked 2 hr. Balance now 2 hr.");
    assert_eq!(
        text(print_prose("Today", 30, -120, -90)),
        "Today: used 1 hr 30 min (added 30 min, removed 2 hr). Balance now -1 hr 30 min."
    );
    assert_eq!(
        text(print_prose("Today", 60, -60, 0)),
        "Today: net zero (added 1 hr, removed 1 hr). Balance now 0 min."
    );
    assert_eq!(text(print_prose("Yesterday", 0, 0, 60)), "Yesterday: no change. Balance now 1 hr.");
    let segs = print_prose("Today", 30, -120, -90);
    assert_eq!(segs[1].tone, Tone::Loss);
    assert_eq!(segs[3].tone, Tone::Loss);
    let mut f = no_log_filter();
    assert_eq!(prose_label(&f), "Overall");
    f.since = Some("2026-05-01".to_string());
    assert_eq!(prose_label(&f), "Since 2026-05-01");
    f.until = Some("2026-05-31".to_string());
    assert_eq!(prose_label(&f), "Between 2026-05-01 and 2026-05-31");
    f.since = None;
    assert_eq!(prose_label(&f), "Up to 2026-05-31");
    f.week = true;
    assert_eq!(prose_label(&f), "This week");
}

#[test]
fn summary_and_entry_rows() {
    let rows = summary_rows(180, -30);
    assert_eq!(rows[0].0, "Added:   ");
    assert_eq!(rows[0].1.text, "3 hr");
    assert_eq!(rows[1].1.text, "-30 min");
    assert_eq!(rows[2].0, "Net:     ");
    assert_eq!(rows[2].1.text, "+2 hr 30 min");
    assert_eq!(rows[2].1.tone, Tone::Gain);
    let r = print_log_entry(&logged("2026-05-10T09:00:00+01:00", "-30 min -> 1 hr # dentist"));
    assert_eq!(r.stamp, "2026-05-10 09:00");
    assert_eq!(r.body, "-30 min → 1 hr");
    assert_eq!(r.tone, Tone::Loss);
    assert_eq!(r.note, Some("dentist".to_string()));
    let r = print_log_entry(&logged("2026-05-10 09:00", "= 2 hr"));
    assert_eq!(r.tone, Tone::Plain);
    assert_eq!(r.note, None);
}

#[test]
fn flexi_sessions_bank_and_spend() {
    assert!(flexi_open("").unwrap().is_none());
    let (m, banks) = flexi_open("2026-07-11 08:00 = 1 hr\n2026-07-11 09:00 @in 1 hr # focus\n").unwrap().unwrap();
    assert!(banks);
    assert_eq!(m.description, "@in 1 hr # focus");
    assert!(flexi_open("2026-07-11 09:00 = 1 hr\n").unwrap().is_none());
    let span = session_span(log_time(9, 0), log_time(10, 35));
    assert_eq!(span, "09:00–10:35");
    let (desc, new) = close_flexi_session(&m, true, 95, 15, None, false, Some("done".to_string()), &span).unwrap();
    assert_eq!(new, 150);
    assert_eq!(desc, "+1 hr 30 min > 2 hr 30 min # 09:00–10:35; focus; done");
    assert_eq!(logged("2026-07-11 10:35", &desc).new_minutes().unwrap(), 150);
    let (away, banks) = flexi_open("2026-07-11 12:00 @out 2 hr\n").unwrap().unwrap();
    assert!(!banks);
    let (desc, new) = close_flexi_session(&away, false, 30, 1, None, false, None, "12:00–12:30").unwrap();
    assert_eq!((desc.as_str(), new), ("-30 min > 1 hr 30 min # 12:00–12:30", 90));
    assert!(matches!(close_flexi_session(&away, false, -1, 1, None, false, None, "x"), Err(SessionError::Future)));
    assert!(matches!(
        close_flexi_session(&away, false, 90, 1, Some(60), false, None, "x"),
        Err(SessionError::OverMax { elapsed: 90, cap: 60 })
    ));
    assert!(close_flexi_session(&away, false, 90, 1, Some(60), true, None, "x").is_ok());
    let broken = logged("2026-07-11 12:00", "@in lots");
    assert!(matches!(close_flexi_session(&broken, true, 5, 1, None, false, None, "x"), Err(SessionError::Balance(_))));
    let full = logged("2026-07-11 12:00", "@in 35791394 hr 7 min");
    assert!(matches!(close_flexi_session(&full, true, 1, 1, None, false, None, "x"), Err(SessionError::OutOfRange)));
}

#[test]
fn clocking_sessions_round_trip() {
    let content = "2026-07-11 07:00 08:00 = 1 hr\n2026-07-11 09:00 @in # proj\n";
    let open = clock_open(content).unwrap().unwrap();
    assert_eq!(open.timestamp, "2026-07-11 09:00");
    assert!(clock_open("2026-07-11 07:00 08:00 = 1 hr\n").unwrap().is_none());
    let (desc, mins) = close_session(&open, 125, 15, None, false, Some("wrap".to_string()), "11:05").unwrap();
    assert_eq!(mins, 120);
    assert_eq!(desc, "11:05 = 2 hr # proj; wrap");
    assert_eq!(logged("2026-07-11 09:00", &desc).session_minutes(), Some(120));
    assert_eq!(close_session(&open, -5, 1, None, false, None, "x"), Err(OutError::Future));
    assert_eq!(
        close_session(&open, 600, 1, Some(480), false, None, "x"),
        Err(OutError::OverMax { elapsed: 600, cap: 480 })
    );
    assert_eq!(clocked_in_status(-3, 15, Some(60)), (0, false));
    assert_eq!(clocked_in_status(70, 15, Some(60)), (75, true));
    assert_eq!(clocked_in_status(70, 1, None), (70, false));
    assert_eq!(in_description(None), "@in");
    assert_eq!(in_description(Some("x".to_string())), "@in # x");
    let start = log_day(2026, 7, 11);
    let same = DateTime { date: start, time: log_time(17, 30) };
    let next = DateTime { date: log_day(2026, 7, 12), time: log_time(1, 15) };
    assert_eq!(session_end_text(start, same, TimestampFormat::Simple, "unused"), "17:30");
    assert_eq!(session_end_text(start, next, TimestampFormat::Simple, "unused"), "2026-07-12 01:15");
    assert_eq!(
        session_end_text(start, next, TimestampFormat::Full, "2026-07-12T01:15:00+01:00"),
        "2026-07-12T01:15:00+01:00"
    );
    assert_eq!(sessions_word(1), "session");
    assert_eq!(sessions_word(2), "sessions");
}

#[test]
fn clocking_days_and_rows() {
    let es = vec![
        logged("2026-07-11 09:00", "17:00 = 8 hr"),
        logged("2026-07-12 09:00", "12:00 = 3 hr # morning"),
        logged("2026-07-12 13:00", "@in"),
    ];
    assert_eq!(summarize(&es), (660, 2));
    let day = entries_on_day(&es, "2026-07-12");
    assert_eq!(day.len(), 2);
    assert_eq!(summarize(&day), (180, 1));
    let r = session_row(&es[2]);
    assert!(r.open);
    assert_eq!(r.text, "clocked in 13:00 (open)");
    let r = session_row(&es[1]);
    assert!(!r.open);
    assert_eq!(r.text, "12:00 = 3 hr");
    assert_eq!(r.note, Some("morning".to_string()));
}

#[test]
fn balance_read_from_last_stamped_line_only() {
    let log = "garbage line\n\n2026-05-01 09:00 nonsense\n2026-05-02 10:15 \t +1 hr > 2 hr 30 min # x\n";
    assert_eq!(read_minutes(log).unwrap(), 150);
    let e = flexi_tools::log::parse_log_line("2026-05-02 10:15 \t +1 hr > 2 hr 30 min # x").unwrap();
    assert_eq!(e.timestamp, "2026-05-02 10:15");
    assert_eq!(e.description, "+1 hr > 2 hr 30 min # x");
}

#[test]
fn undo_of_stamped_append_leaves_old_lines() {
    let old = "2026-05-01 09:00 +2 hr > 2 hr\n\n2026-05-01 09:30 -30 min > 1 hr 30 min\n";
    let mut log = old.to_string();
    log.push_str(&log_line("2026-05-02 08:00", "= 5 hr # reset"));
    let (e, rest) = pop_log(&log).unwrap().unwrap();
    assert_eq!((e.timestamp.as_str(), e.description.as_str()), ("2026-05-02 08:00", "= 5 hr # reset"));
    assert_eq!(rest, "2026-05-01 09:00 +2 hr > 2 hr\n2026-05-01 09:30 -30 min > 1 hr 30 min\n");
    assert_eq!(read_minutes(&rest).unwrap(), 90);
}

#[test]
fn new_minutes_reads_every_description_form() {
    let e = |d: &str| LogEntry { timestamp: "2026-05-01 09:00".to_string(), description: d.to_string() };
    assert_eq!(e("+0 min > 1 hr 30 min # annual leave").new_minutes().ok(), Some(90));
    assert_eq!(e("+1 hr -> 2 hr").new_minutes().ok(), Some(120));
    assert_eq!(e("+1 hr → 2 hr").new_minutes().ok(), Some(120));
    assert_eq!(e("@in 2 hr").new_minutes().ok(), Some(120));
    assert_eq!(e("@out 1 hr # lunch").new_minutes().ok(), Some(60));
    assert_eq!(e("= 2 hr # fix").new_minutes().ok(), Some(120));
    assert_eq!(e("@out 1 hr # lunch").marker().map(|(banks, _)| banks), Some(false));
}
