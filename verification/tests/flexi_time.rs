use flexi_tools::flexi::apply_change;
use flexi_tools::time::{format_duration, parse_duration};

#[test]
fn time_parse_hr_and_min() {
    assert_eq!(parse_duration("1 hr 30 min").unwrap(), 90);
}

#[test]
fn time_parse_hr_only() {
    assert_eq!(parse_duration("2 hr").unwrap(), 120);
}

#[test]
fn time_parse_min_only() {
    assert_eq!(parse_duration("45 min").unwrap(), 45);
}

#[test]
fn time_parse_plural_forms() {
    assert_eq!(parse_duration("1 hour 30 minutes").unwrap(), 90);
    assert_eq!(parse_duration("2 hours").unwrap(), 120);
    assert_eq!(parse_duration("45 mins").unwrap(), 45);
}

#[test]
fn time_format_zero() {
    assert_eq!(format_duration(0), "0 min");
}

#[test]
fn time_format_hr_and_min() {
    assert_eq!(format_duration(90), "1 hr 30 min");
}

#[test]
fn time_format_hr_only() {
    assert_eq!(format_duration(120), "2 hr");
}

#[test]
fn time_format_min_only() {
    assert_eq!(format_duration(45), "45 min");
}

#[test]
fn time_format_negative() {
    assert_eq!(format_duration(-90), "-1 hr 30 min");
    assert_eq!(format_duration(-45), "-45 min");
}

#[test]
fn time_parse_negative_hr_and_min() {
    assert_eq!(parse_duration("-1 hr 30 min").unwrap(), -90);
}

#[test]
fn time_parse_negative_min_only() {
    assert_eq!(parse_duration("-45 min").unwrap(), -45);
}

#[test]
fn time_roundtrip_negative() {
    assert_eq!(parse_duration(&format_duration(-90)).unwrap(), -90);
    assert_eq!(parse_duration(&format_duration(-45)).unwrap(), -45);
    assert_eq!(parse_duration(&format_duration(-120)).unwrap(), -120);
}

#[test]
fn apply_change_adds_and_subtracts() {
    assert_eq!(apply_change(90, 30, false), Some((120, 30)));
    assert_eq!(apply_change(90, 120, true), Some((-30, -120)));
    assert_eq!(apply_change(0, 0, false), Some((0, 0)));
    assert_eq!(apply_change(i32::MAX - 5, 10, false), None);
    assert_eq!(apply_change(i32::MIN + 5, 10, true), None);
    assert_eq!(apply_change(-1, i32::MIN, true), None);
    assert_eq!(apply_change(i32::MAX, 0, true), Some((i32::MAX, 0)));
}
