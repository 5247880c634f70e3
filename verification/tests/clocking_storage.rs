use flexi_tools::log::{parse_log_line, LogEntry};

fn entry(desc: &str) -> LogEntry {
    LogEntry { timestamp: "2026-07-11 17:30".to_string(), description: desc.to_string() }
}

#[test]
fn open_marker_detection() {
    assert!(entry("@in").is_open());
    assert!(entry("@in # project x").is_open());
    assert!(!entry("17:30 = 8 hr 30 min").is_open());
}

#[test]
fn session_minutes_parses_duration_after_equals() {
    assert_eq!(entry("17:30 = 8 hr 30 min").session_minutes(), Some(510));
}

#[test]
fn session_minutes_cross_day_end() {
    assert_eq!(entry("2026-07-12 04:00 = 8 hr").session_minutes(), Some(480));
}

#[test]
fn session_minutes_strips_note() {
    assert_eq!(entry("11:00 = 2 hr # standup").session_minutes(), Some(120));
}

#[test]
fn open_marker_has_no_session_minutes() {
    assert_eq!(entry("@in").session_minutes(), None);
    assert_eq!(entry("@in # note").session_minutes(), None);
}

#[test]
fn parse_log_line_simple_and_full() {
    let e = parse_log_line("2026-07-11 09:00 17:30 = 8 hr 30 min").unwrap();
    assert_eq!(e.timestamp, "2026-07-11 09:00");
    assert_eq!(e.description, "17:30 = 8 hr 30 min");
    let f = parse_log_line("2026-07-11T09:00:16+01:00 @in").unwrap();
    assert_eq!(f.timestamp, "2026-07-11T09:00:16+01:00");
    assert_eq!(f.description, "@in");
}

#[test]
fn parse_log_line_rejects_malformed() {
    assert!(parse_log_line("2026-07-11").is_err());
    assert!(parse_log_line("2026-07-11 17:30").is_err());
}
