//! The flexi command-line scenarios, run through the library on a log held
//! in memory: each step does what the command does with the log's text.
use chrono::{Datelike, Local};
use flexi_tools::dates::{Date, WeekStart};
use flexi_tools::flexi::{
    close_flexi_session, marker_description, open_session, parse_amount, print_log_entry,
    print_prose, prose_label, record_change, set_description, signed_duration, summary_rows,
    totals, undo_change,
};
use flexi_tools::log::{log_line, pop_log, read_log, read_minutes, LogEntry};
use flexi_tools::logview::{filter_window, select_entries, LogFilter};
use flexi_tools::time::format_duration;

struct Book {
    log: String,
    stamp: String,
}

fn now_stamp() -> String {
    Local::now().format("%Y-%m-%d %H:%M").to_string()
}

fn today_date() -> Date {
    let t = Local::now().date_naive();
    Date { year: t.year(), month: t.month(), day: t.day() }
}

fn day_offset(days: i64) -> String {
    (Local::now() - chrono::Duration::days(days)).format("%Y-%m-%d").to_string()
}

fn nofilter() -> LogFilter {
    LogFilter { last: None, today: false, yesterday: false, week: false, month: false, since: None, until: None }
}

impl Book {
    fn new() -> Book {
        Book { log: String::new(), stamp: now_stamp() }
    }

    fn with(log: &str) -> Book {
        Book { log: log.to_string(), stamp: now_stamp() }
    }

    fn balance(&self) -> i32 {
        read_minutes(&self.log).unwrap()
    }

    fn show(&self) -> String {
        format!("{}\n", format_duration(self.balance()))
    }

    fn append(&mut self, desc: &str) {
        let line = log_line(&self.stamp, desc);
        self.log.push_str(&line);
    }

    fn change(&mut self, words: &[&str], sign: i32, note: Option<&str>) -> String {
        let d = parse_amount(&words.join(" "), 1).unwrap();
        let cur = self.balance();
        let new = cur + sign * d;
        self.append(&record_change(cur, new, note.map(|n| n.to_string())));
        format!("{} → {}\n", signed_duration(new - cur), format_duration(new))
    }

    fn add(&mut self, words: &[&str]) -> String {
        self.change(words, 1, None)
    }

    fn remove(&mut self, words: &[&str]) -> String {
        self.change(words, -1, None)
    }

    fn set(&mut self, words: &[&str], note: Option<&str>) -> String {
        let mins = parse_amount(&words.join(" "), 1).unwrap();
        self.append(&set_description(mins, note.map(|n| n.to_string())));
        format!("{}\n", format_duration(mins))
    }

    fn undo(&mut self) -> String {
        match pop_log(&self.log).unwrap() {
            None => "nothing to undo\n".to_string(),
            Some((entry, rest)) => {
                self.log = rest;
                let (change, restored) = undo_change(&entry, &self.log).unwrap();
                format!("{} → {}\n", signed_duration(change), format_duration(restored))
            }
        }
    }

    fn shown(&self, f: &LogFilter) -> Vec<LogEntry> {
        let es = read_log(&self.log).unwrap();
        let (since, until) = filter_window(WeekStart::Monday, f, today_date()).unwrap();
        select_entries(&es, since, until, f.last)
    }

    fn lines(&self, f: &LogFilter) -> Vec<String> {
        self.shown(f)
            .iter()
            .map(|e| {
                let r = print_log_entry(e);
                match r.note {
                    Some(n) => format!("{}  {}  # {}", r.stamp, r.body, n),
                    None => format!("{}  {}", r.stamp, r.body),
                }
            })
            .collect()
    }

    fn summary(&self, f: &LogFilter) -> Vec<String> {
        let (added, removed) = totals(&self.shown(f));
        summary_rows(added, removed).iter().map(|(l, s)| format!("{}{}", l, s.text)).collect()
    }

    fn prose(&self, f: &LogFilter) -> String {
        let (added, removed) = totals(&self.shown(f));
        print_prose(&prose_label(f), added, removed, self.balance()).iter().map(|s| s.text.clone()).collect()
    }
}

#[test]
fn display_fresh() {
    assert_eq!(Book::new().show(), "0 min\n");
}

#[test]
fn add_and_display() {
    let mut b = Book::new();
    b.add(&["1", "hr", "30", "min"]);
    assert_eq!(b.show(), "1 hr 30 min\n");
}

#[test]
fn add_compact_format() {
    let mut b = Book::new();
    b.add(&["1h30m"]);
    assert_eq!(b.show(), "1 hr 30 min\n");
}

#[test]
fn remove_subtracts() {
    let mut b = Book::new();
    b.add(&["2", "hr"]);
    b.remove(&["30", "min"]);
    assert_eq!(b.show(), "1 hr 30 min\n");
}

#[test]
fn negative_balance() {
    let mut b = Book::new();
    b.remove(&["1", "hr"]);
    assert_eq!(b.show(), "-1 hr\n");
}

#[test]
fn set_exact_value() {
    let mut b = Book::new();
    b.add(&["3", "hr"]);
    b.set(&["2", "hr"], None);
    assert_eq!(b.show(), "2 hr\n");
}

#[test]
fn reset_to_zero() {
    let mut b = Book::new();
    b.add(&["1", "hr", "30", "min"]);
    b.set(&["0", "min"], None);
    assert_eq!(b.show(), "0 min\n");
}

#[test]
fn add_prints_delta() {
    let mut b = Book::new();
    assert_eq!(b.add(&["1", "hr", "30", "min"]), "+1 hr 30 min → 1 hr 30 min\n");
}

#[test]
fn remove_prints_delta() {
    let mut b = Book::new();
    b.add(&["2", "hr"]);
    assert_eq!(b.remove(&["30", "min"]), "-30 min → 1 hr 30 min\n");
}

#[test]
fn log_records_mutations() {
    let mut b = Book::new();
    b.add(&["1", "hr"]);
    b.remove(&["30", "min"]);
    let lines = b.lines(&nofilter());
    assert_eq!(lines.len(), 2);
    assert!(lines[0].contains("+1 hr → 1 hr"));
    assert!(lines[1].contains("-30 min → 30 min"));
}

#[test]
fn undo_reverses_last_change() {
    let mut b = Book::new();
    b.add(&["1", "hr"]);
    b.add(&["30", "min"]);
    assert_eq!(b.undo(), "-30 min → 1 hr\n");
    assert_eq!(b.show(), "1 hr\n");
}

#[test]
fn undo_empty_prints_message() {
    assert_eq!(Book::new().undo(), "nothing to undo\n");
}

#[test]
fn negative_roundtrip() {
    let mut b = Book::new();
    b.add(&["1", "hr", "30", "min"]);
    b.remove(&["3", "hr"]);
    b.remove(&["1", "hr"]);
    assert_eq!(b.show(), "-2 hr 30 min\n");
}

#[test]
fn reset_logs_set_zero() {
    let mut b = Book::new();
    b.add(&["1", "hr"]);
    b.set(&["0", "min"], None);
    let lines = b.lines(&nofilter());
    assert_eq!(lines.len(), 2);
    assert!(lines[1].contains("= 0 min"));
}

#[test]
fn undo_after_set() {
    let mut b = Book::new();
    b.add(&["2", "hr"]);
    b.set(&["30", "min"], None);
    assert_eq!(b.undo(), "+1 hr 30 min → 2 hr\n");
    assert_eq!(b.show(), "2 hr\n");
}

#[test]
fn undo_after_reset() {
    let mut b = Book::new();
    b.add(&["1", "hr"]);
    b.set(&["0", "min"], None);
    assert_eq!(b.undo(), "+1 hr → 1 hr\n");
    assert_eq!(b.show(), "1 hr\n");
}

#[test]
fn log_filter_today() {
    let mut b = Book::with("2020-01-01 09:00 = 1 hr\n");
    b.add(&["30", "min"]);
    let lines = b.lines(&LogFilter { today: true, ..nofilter() });
    assert_eq!(lines.len(), 1);
    assert!(lines[0].contains("+30 min"));
}

#[test]
fn log_filter_yesterday() {
    let mut b = Book::with(&format!("{} 09:00 = 1 hr\n", day_offset(1)));
    b.add(&["30", "min"]);
    let lines = b.lines(&LogFilter { yesterday: true, ..nofilter() });
    assert_eq!(lines.len(), 1);
    assert!(lines[0].contains("= 1 hr"));
}

#[test]
fn log_filter_week() {
    let mut b = Book::with("2020-01-01 09:00 = 1 hr\n");
    b.add(&["30", "min"]);
    let lines = b.lines(&LogFilter { week: true, ..nofilter() });
    assert_eq!(lines.len(), 1);
    assert!(lines[0].contains("+30 min"));
}

#[test]
fn log_filter_month() {
    let mut b = Book::with("2020-01-01 09:00 = 1 hr\n");
    b.add(&["30", "min"]);
    let lines = b.lines(&LogFilter { month: true, ..nofilter() });
    assert_eq!(lines.len(), 1);
    assert!(lines[0].contains("+30 min"));
}

const THREE: &str = "2026-05-01 09:00 = 1 hr\n2026-05-15 10:00 +30 min → 1 hr 30 min\n2026-06-01 09:00 +1 hr → 2 hr 30 min\n";

#[test]
fn log_filter_since() {
    let lines = Book::with(THREE).lines(&LogFilter { since: Some("2026-05-10".to_string()), ..nofilter() });
    assert_eq!(lines.len(), 2);
    assert!(lines[0].contains("2026-05-15"));
    assert!(lines[1].contains("2026-06-01"));
}

#[test]
fn log_filter_until() {
    let lines = Book::with(THREE).lines(&LogFilter { until: Some("2026-05-20".to_string()), ..nofilter() });
    assert_eq!(lines.len(), 2);
    assert!(lines[0].contains("2026-05-01"));
    assert!(lines[1].contains("2026-05-15"));
}

#[test]
fn log_filter_since_until_range() {
    let f = LogFilter { since: Some("2026-05-10".to_string()), until: Some("2026-05-20".to_string()), ..nofilter() };
    let lines = Book::with(THREE).lines(&f);
    assert_eq!(lines.len(), 1);
    assert!(lines[0].contains("2026-05-15"));
}

#[test]
fn log_filter_last() {
    let mut b = Book::new();
    b.add(&["1", "hr"]);
    b.add(&["30", "min"]);
    b.add(&["15", "min"]);
    let lines = b.lines(&LogFilter { last: Some(2), ..nofilter() });
    assert_eq!(lines.len(), 2);
    assert!(lines[0].contains("+30 min"));
    assert!(lines[1].contains("+15 min"));
}

#[test]
fn log_filter_last_with_since() {
    let b = Book::with(
        "2026-05-01 09:00 = 1 hr\n2026-05-10 10:00 +30 min → 1 hr 30 min\n2026-05-20 11:00 +15 min → 1 hr 45 min\n2026-05-25 12:00 +1 hr → 2 hr 45 min\n",
    );
    let lines = b.lines(&LogFilter { since: Some("2026-05-05".to_string()), last: Some(2), ..nofilter() });
    assert_eq!(lines.len(), 2);
    assert!(lines[0].contains("2026-05-20"));
    assert!(lines[1].contains("2026-05-25"));
}

#[test]
fn log_summary() {
    let b = Book::with("2026-05-01 09:00 +2 hr → 2 hr\n2026-05-02 09:00 +1 hr → 3 hr\n2026-05-03 09:00 -30 min → 2 hr 30 min\n");
    let lines = b.summary(&nofilter());
    assert_eq!(lines.len(), 3);
    assert!(lines[0].contains("3 hr"));
    assert!(lines[1].contains("30 min"));
    assert!(lines[2].contains("+2 hr 30 min"));
}

#[test]
fn log_summary_with_filter() {
    let b = Book::with("2026-05-01 09:00 +2 hr → 2 hr\n2026-05-10 09:00 +1 hr → 3 hr\n");
    let lines = b.summary(&LogFilter { since: Some("2026-05-09".to_string()), ..nofilter() });
    assert!(lines[0].contains("1 hr"));
    assert!(lines[2].contains("+1 hr"));
}

#[test]
fn log_summary_with_until() {
    let b = Book::with("2026-05-01 09:00 +1 hr → 1 hr\n2026-05-10 09:00 +30 min → 1 hr 30 min\n");
    let lines = b.summary(&LogFilter { until: Some("2026-05-05".to_string()), ..nofilter() });
    assert_eq!(lines.len(), 3);
    assert!(lines[0].contains("1 hr"));
    assert!(lines[2].contains("+1 hr"));
}

#[test]
fn prose_both_sides() {
    let today = day_offset(0);
    let b = Book::with(&format!("{today} 09:00 +2 hr → 2 hr\n{today} 12:00 -30 min → 1 hr 30 min\n"));
    assert_eq!(
        b.prose(&LogFilter { today: true, ..nofilter() }),
        "Today: banked 1 hr 30 min (added 2 hr, removed 30 min). Balance now 1 hr 30 min."
    );
}

#[test]
fn prose_only_adds_omits_breakdown() {
    let b = Book::with(&format!("{} 09:00 +2 hr → 2 hr\n", day_offset(0)));
    assert_eq!(b.prose(&LogFilter { today: true, ..nofilter() }), "Today: banked 2 hr. Balance now 2 hr.");
}

#[test]
fn prose_net_negative_uses_used() {
    let today = day_offset(0);
    let b = Book::with(&format!("{today} 09:00 +30 min → 30 min\n{today} 12:00 -2 hr → -1 hr 30 min\n"));
    assert_eq!(
        b.prose(&LogFilter { today: true, ..nofilter() }),
        "Today: used 1 hr 30 min (added 30 min, removed 2 hr). Balance now -1 hr 30 min."
    );
}

#[test]
fn prose_net_zero_when_changes_cancel() {
    let today = day_offset(0);
    let b = Book::with(&format!("{today} 09:00 +1 hr → 1 hr\n{today} 12:00 -1 hr → 0 min\n"));
    assert_eq!(
        b.prose(&LogFilter { today: true, ..nofilter() }),
        "Today: net zero (added 1 hr, removed 1 hr). Balance now 0 min."
    );
}

#[test]
fn prose_no_change_for_empty_window() {
    let b = Book::with(&format!("{} 09:00 +1 hr → 1 hr\n", day_offset(0)));
    assert_eq!(b.prose(&LogFilter { yesterday: true, ..nofilter() }), "Yesterday: no change. Balance now 1 hr.");
}

const HALF: &str = "2026-05-15 10:00 +30 min → 30 min\n";

#[test]
fn prose_label_since() {
    let f = LogFilter { since: Some("2026-05-01".to_string()), ..nofilter() };
    assert_eq!(Book::with(HALF).prose(&f), "Since 2026-05-01: banked 30 min. Balance now 30 min.");
}

#[test]
fn prose_label_until() {
    let f = LogFilter { until: Some("2026-05-31".to_string()), ..nofilter() };
    assert_eq!(Book::with(HALF).prose(&f), "Up to 2026-05-31: banked 30 min. Balance now 30 min.");
}

#[test]
fn prose_label_range() {
    let f = LogFilter { since: Some("2026-05-01".to_string()), until: Some("2026-05-31".to_string()), ..nofilter() };
    assert!(Book::with(HALF).prose(&f).starts_with("Between 2026-05-01 and 2026-05-31: banked 30 min"));
}

#[test]
fn prose_label_overall() {
    assert_eq!(Book::with(HALF).prose(&nofilter()), "Overall: banked 30 min. Balance now 30 min.");
}

#[test]
fn prose_label_yesterday() {
    let b = Book::with(&format!("{} 09:00 +30 min → 30 min\n", day_offset(1)));
    assert_eq!(b.prose(&LogFilter { yesterday: true, ..nofilter() }), "Yesterday: banked 30 min. Balance now 30 min.");
}

#[test]
fn prose_label_week() {
    let b = Book::with(&format!("{} 09:00 +30 min → 30 min\n", day_offset(0)));
    assert_eq!(b.prose(&LogFilter { week: true, ..nofilter() }), "This week: banked 30 min. Balance now 30 min.");
}

#[test]
fn prose_label_month() {
    let b = Book::with(&format!("{} 09:00 +30 min → 30 min\n", day_offset(0)));
    assert_eq!(b.prose(&LogFilter { month: true, ..nofilter() }), "This month: banked 30 min. Balance now 30 min.");
}

#[test]
fn prose_balance_reflects_set_but_excludes_from_totals() {
    let b = Book::with("2026-05-01 09:00 +1 hr → 1 hr\n2026-05-02 09:00 = 5 hr\n");
    assert_eq!(b.prose(&nofilter()), "Overall: banked 1 hr. Balance now 5 hr.");
}

#[test]
fn note_displayed_in_log() {
    let mut b = Book::new();
    b.change(&["30", "min"], 1, Some("overtime"));
    let lines = b.lines(&nofilter());
    assert_eq!(lines.len(), 1);
    assert!(lines[0].contains("# overtime"));
}

#[test]
fn note_does_not_break_balance() {
    let mut b = Book::new();
    b.change(&["1", "hr"], 1, Some("test note"));
    assert_eq!(b.show(), "1 hr\n");
}

#[test]
fn note_command_excluded_from_summary() {
    let b = Book::with("2026-05-01 09:00 +2 hr → 2 hr\n2026-05-02 09:00 +0 min → 2 hr # annual leave\n");
    let lines = b.summary(&nofilter());
    assert!(lines[0].contains("2 hr"));
    assert!(lines[1].contains("0 min"));
    assert!(lines[2].contains("+2 hr"));
}

#[test]
fn note_command_rejects_empty() {
    assert!(flexi_tools::log::parse_note("").is_err());
    assert!(flexi_tools::log::parse_note("   ").is_err());
}

#[test]
fn summary_command_matches_log_summary() {
    let b = Book::with("2026-05-01 09:00 +2 hr → 2 hr\n2026-05-02 09:00 +1 hr → 3 hr\n2026-05-03 09:00 -30 min → 2 hr 30 min\n");
    let lines = b.summary(&nofilter());
    assert_eq!(lines.len(), 3);
    assert!(lines[0].contains("3 hr"));
    assert!(lines[1].contains("30 min"));
    assert!(lines[2].contains("+2 hr 30 min"));
}

#[test]
fn summary_command_accepts_filter() {
    let b = Book::with("2026-05-01 09:00 +2 hr → 2 hr\n2026-05-10 09:00 +1 hr → 3 hr\n");
    let lines = b.summary(&LogFilter { since: Some("2026-05-05".to_string()), ..nofilter() });
    assert!(lines[0].contains("1 hr"));
    assert!(lines[2].contains("+1 hr"));
}

#[test]
fn prose_command_defaults_overall() {
    assert_eq!(Book::with(HALF).prose(&nofilter()), "Overall: banked 30 min. Balance now 30 min.");
}

#[test]
fn prose_command_accepts_filter() {
    let b = Book::with(&format!("{} 09:00 +30 min → 30 min\n", day_offset(0)));
    assert_eq!(b.prose(&LogFilter { today: true, ..nofilter() }), "Today: banked 30 min. Balance now 30 min.");
}

#[test]
fn json_entries_shape() {
    let b = Book::with(
        "2026-05-01 09:00 +2 hr → 2 hr\n2026-05-02 09:00 -30 min → 1 hr 30 min # lunch\n2026-05-03 09:00 = 1 hr\n",
    );
    let es = b.shown(&nofilter());
    assert_eq!(es.len(), 3);
    assert_eq!(es[0].timestamp, "2026-05-01 09:00");
    assert_eq!(es[0].delta_minutes(), Some(120));
    assert_eq!(es[0].new_minutes().ok(), Some(120));
    assert_eq!(es[0].note(), None);
    assert_eq!(es[1].delta_minutes(), Some(-30));
    assert_eq!(es[1].new_minutes().ok(), Some(90));
    assert_eq!(es[1].note(), Some("lunch".to_string()));
    assert_eq!(es[2].delta_minutes(), None);
    assert_eq!(es[2].new_minutes().ok(), Some(60));
}

#[test]
fn json_respects_filter() {
    let b = Book::with("2026-05-01 09:00 +2 hr → 2 hr\n2026-05-10 09:00 +1 hr → 3 hr\n");
    let es = b.shown(&LogFilter { since: Some("2026-05-05".to_string()), ..nofilter() });
    assert_eq!(es.len(), 1);
    assert_eq!(es[0].timestamp, "2026-05-10 09:00");
}

#[test]
fn json_summary_totals() {
    let b = Book::with("2026-05-01 09:00 +2 hr → 2 hr\n2026-05-02 09:00 +1 hr → 3 hr\n2026-05-03 09:00 -30 min → 2 hr 30 min\n");
    let (added, removed) = totals(&b.shown(&nofilter()));
    assert_eq!((added, removed, added + removed), (180, -30, 150));
}

/// Opens a session the way `in` does, with its marker stamped `mins` ago.
fn open_marker(b: &mut Book, banks: bool, mins: i64, note: Option<&str>) {
    let start = (Local::now() - chrono::Duration::minutes(mins)).format("%Y-%m-%d %H:%M").to_string();
    let desc = marker_description(banks, b.balance(), note.map(|n| n.to_string()));
    b.log.push_str(&log_line(&start, &desc));
}

/// Closes the open session the way `out` does, `elapsed` minutes long.
fn close_marker(b: &mut Book, elapsed: i64, note: Option<&str>) -> bool {
    let (marker, banks) = match open_session(&b.log).unwrap() {
        Some(m) => m,
        None => return false,
    };
    match close_flexi_session(&marker, banks, elapsed, 1, None, false, note.map(|n| n.to_string()), "09:00–10:30") {
        Ok((desc, _)) => {
            let (_, rest) = pop_log(&b.log).unwrap().unwrap();
            b.log = rest;
            b.append(&desc);
            true
        }
        Err(_) => false,
    }
}

#[test]
fn in_creates_open_marker() {
    let mut b = Book::new();
    b.add(&["2", "hr"]);
    open_marker(&mut b, true, 0, None);
    assert!(b.log.lines().last().unwrap().contains("@in 2 hr"));
}

#[test]
fn bare_balance_shows_clocked_in() {
    let mut b = Book::new();
    b.add(&["1", "hr"]);
    open_marker(&mut b, true, 0, None);
    assert!(open_session(&b.log).unwrap().is_some());
    assert_eq!(b.show(), "1 hr\n");
}

/// Runs a balance-changing command the way the program does: refused,
/// with the log left as it was, while a session is open.
fn guarded(b: &mut Book, step: impl FnOnce(&mut Book)) -> bool {
    if open_session(&b.log).unwrap().is_some() {
        return false;
    }
    step(b);
    true
}

#[test]
fn clocked_in_blocks_mutations() {
    let mut b = Book::new();
    open_marker(&mut b, true, 0, None);
    let before = b.log.clone();
    assert!(!guarded(&mut b, |b| {
        b.add(&["30", "min"]);
    }));
    assert!(!guarded(&mut b, |b| {
        b.remove(&["30", "min"]);
    }));
    assert!(!guarded(&mut b, |b| {
        b.set(&["1", "hr"], None);
    }));
    assert!(!guarded(&mut b, |b| {
        b.set(&["0"], None);
    }));
    assert!(!guarded(&mut b, |b| {
        b.change(&["0"], 1, Some("x"));
    }));
    assert!(!guarded(&mut b, |b| open_marker(b, true, 0, None)));
    assert_eq!(b.log, before);
    let (marker, banks) = open_session(&b.log).unwrap().unwrap();
    assert!(banks && marker.description.starts_with("@in"));
}

#[test]
fn away_blocks_mutations_too() {
    let mut b = Book::new();
    b.add(&["1", "hr"]);
    open_marker(&mut b, false, 0, None);
    assert!(!guarded(&mut b, |b| {
        b.add(&["30", "min"]);
    }));
    assert_eq!(open_session(&b.log).unwrap().map(|(_, banks)| banks), Some(false));
    assert!(close_marker(&mut b, 0, None));
    assert!(guarded(&mut b, |b| {
        b.add(&["30", "min"]);
    }));
}

#[test]
fn out_without_in_fails() {
    assert!(!close_marker(&mut Book::new(), 10, None));
}

#[test]
fn out_banks_elapsed_time() {
    let mut b = Book::with("2026-05-01 09:00 +2 hr > 2 hr\n");
    open_marker(&mut b, true, 90, Some("project x"));
    assert!(close_marker(&mut b, 90, None));
    let es = read_log(&b.log).unwrap();
    assert_eq!(es.len(), 2);
    let last = es.last().unwrap();
    assert_eq!(last.delta_minutes(), Some(90));
    assert_eq!(last.new_minutes().ok(), Some(210));
    let note = last.note().unwrap();
    assert!(note.contains('–') && note.contains("project x"), "note was {note}");
}

#[test]
fn out_rejects_future_clock_in() {
    let mut b = Book::new();
    open_marker(&mut b, true, -60, None);
    assert!(!close_marker(&mut b, -60, None));
}

#[test]
fn undo_aborts_clock_in() {
    let mut b = Book::new();
    b.add(&["1", "hr"]);
    open_marker(&mut b, true, 0, None);
    b.undo();
    assert!(open_session(&b.log).unwrap().is_none());
    b.add(&["30", "min"]);
    assert_eq!(b.show(), "1 hr 30 min\n");
}

#[test]
fn out_merges_in_and_out_notes() {
    let mut b = Book::new();
    open_marker(&mut b, true, 30, Some("project x"));
    assert!(close_marker(&mut b, 30, Some("wrapped up")));
    let note = read_log(&b.log).unwrap().last().unwrap().note().unwrap();
    assert!(note.contains("project x"), "note was {note}");
    assert!(note.contains("wrapped up"), "note was {note}");
}

#[test]
fn out_note_is_span_only_without_notes() {
    let mut b = Book::new();
    open_marker(&mut b, true, 30, None);
    assert!(close_marker(&mut b, 30, None));
    let note = read_log(&b.log).unwrap().last().unwrap().note().unwrap();
    assert!(note.contains('–'), "note was {note}");
    assert!(!note.contains(';'), "note was {note}");
}

#[test]
fn out_same_minute_banks_zero() {
    let mut b = Book::with(&format!("{} @in 1 hr\n", now_stamp()));
    assert!(close_marker(&mut b, 0, None));
    let delta = read_log(&b.log).unwrap().last().unwrap().delta_minutes().unwrap();
    assert!((0..=1).contains(&delta), "delta was {delta}");
}

#[test]
fn reset_with_note() {
    let mut b = Book::new();
    b.set(&["0", "min"], Some("end of month"));
    assert!(b.log.contains("= 0 min"));
    assert!(b.log.contains("# end of month"));
    assert_eq!(b.show(), "0 min\n");
}

#[test]
fn full_timestamp_format_round_trips() {
    let mut b = Book::new();
    b.stamp = Local::now().to_rfc3339_opts(chrono::SecondsFormat::Secs, false);
    b.add(&["2", "hr"]);
    b.add(&["30", "min"]);
    assert_eq!(b.show(), "2 hr 30 min\n");
    assert_eq!(b.undo(), "-30 min → 2 hr\n");
    assert_eq!(b.show(), "2 hr\n");
}

#[test]
fn hand_edited_log_with_spaces_is_readable() {
    assert_eq!(Book::with("2026-05-24 10:20 = 3 hr\n").show(), "3 hr\n");
}

#[test]
fn hand_edited_log_with_multiple_spaces_is_readable() {
    assert_eq!(Book::with("2026-05-24 10:20   = 3 hr\n").show(), "3 hr\n");
}

#[test]
fn hand_edited_log_with_tab_is_readable() {
    assert_eq!(Book::with("2026-05-24 10:20\t= 3 hr\n").show(), "3 hr\n");
}

#[test]
fn full_timestamp_log_display_format() {
    let mut b = Book::new();
    b.stamp = Local::now().to_rfc3339_opts(chrono::SecondsFormat::Secs, false);
    b.add(&["1", "hr"]);
    let lines = b.lines(&nofilter());
    let line = &lines[0];
    assert!(line.starts_with(&Local::now().format("%Y-%m-%d").to_string()));
    assert!(!line.contains('T'));
    assert!(line.contains("+1 hr → 1 hr"));
}

#[test]
fn log_filter_week_start_sunday() {
    let mut b = Book::with("2020-01-01 09:00 = 1 hr\n");
    b.add(&["30", "min"]);
    let es = read_log(&b.log).unwrap();
    let f = LogFilter { week: true, ..nofilter() };
    let (since, until) = filter_window(WeekStart::Sunday, &f, today_date()).unwrap();
    let shown = select_entries(&es, since, until, None);
    assert_eq!(shown.len(), 1);
    assert!(print_log_entry(&shown[0]).body.contains("+30 min"));
}

#[test]
fn note_stored_in_log() {
    let mut b = Book::new();
    b.change(&["30", "min"], 1, Some("overtime"));
    assert!(b.log.contains("# overtime"));
}

#[test]
fn note_on_set() {
    let mut b = Book::new();
    b.set(&["1", "hr"], Some("manual correction"));
    assert!(b.log.contains("# manual correction"));
    assert_eq!(b.show(), "1 hr\n");
}

#[test]
fn note_command_records_without_changing_balance() {
    let mut b = Book::new();
    b.add(&["1", "hr", "30", "min"]);
    assert_eq!(b.change(&["0", "min"], 1, Some("annual leave")), "+0 min → 1 hr 30 min\n");
    assert!(b.log.contains("+0 min > 1 hr 30 min # annual leave"));
    assert_eq!(b.show(), "1 hr 30 min\n");
}
