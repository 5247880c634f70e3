use flexi_tools::time::{format_duration, parse_duration, round_to_increment};

#[test]
fn parse_hr_and_min() {
    assert_eq!(parse_duration("1 hr 30 min").unwrap(), 90);
}

#[test]
fn parse_hr_only() {
    assert_eq!(parse_duration("2 hr").unwrap(), 120);
}

#[test]
fn parse_min_only() {
    assert_eq!(parse_duration("45 min").unwrap(), 45);
}

#[test]
fn parse_plural_forms() {
    assert_eq!(parse_duration("1 hour 30 minutes").unwrap(), 90);
    assert_eq!(parse_duration("2 hours").unwrap(), 120);
    assert_eq!(parse_duration("45 mins").unwrap(), 45);
}

#[test]
fn format_zero() {
    assert_eq!(format_duration(0), "0 min");
}

#[test]
fn format_hr_and_min() {
    assert_eq!(format_duration(90), "1 hr 30 min");
}

#[test]
fn format_hr_only() {
    assert_eq!(format_duration(120), "2 hr");
}

#[test]
fn format_min_only() {
    assert_eq!(format_duration(45), "45 min");
}

#[test]
fn format_negative() {
    assert_eq!(format_duration(-90), "-1 hr 30 min");
    assert_eq!(format_duration(-45), "-45 min");
}

#[test]
fn parse_negative_hr_and_min() {
    assert_eq!(parse_duration("-1 hr 30 min").unwrap(), -90);
}

#[test]
fn parse_negative_min_only() {
    assert_eq!(parse_duration("-45 min").unwrap(), -45);
}

#[test]
fn roundtrip_negative() {
    assert_eq!(parse_duration(&format_duration(-90)).unwrap(), -90);
    assert_eq!(parse_duration(&format_duration(-45)).unwrap(), -45);
    assert_eq!(parse_duration(&format_duration(-120)).unwrap(), -120);
}

#[test]
fn parse_bare_integer_as_hours() {
    assert_eq!(parse_duration("2").unwrap(), 120);
    assert_eq!(parse_duration("1").unwrap(), 60);
}

#[test]
fn parse_missing_unit_errors() {
    assert!(parse_duration("1 hr 30").is_err());
    assert!(parse_duration("").is_err());
}

#[test]
fn parse_compact_formats() {
    assert_eq!(parse_duration("1h30m").unwrap(), 90);
    assert_eq!(parse_duration("1h").unwrap(), 60);
    assert_eq!(parse_duration("30m").unwrap(), 30);
    assert_eq!(parse_duration("1.5h").unwrap(), 90);
    assert_eq!(parse_duration("-1h30m").unwrap(), -90);
}

#[test]
fn parse_decimal_formats() {
    assert_eq!(parse_duration("1.5").unwrap(), 90);
    assert_eq!(parse_duration("0.5").unwrap(), 30);
    assert_eq!(parse_duration("1.5 hours").unwrap(), 90);
    assert_eq!(parse_duration("1.5 hr").unwrap(), 90);
}

#[test]
fn parse_european_decimal() {
    assert_eq!(parse_duration("1,5").unwrap(), 90);
    assert_eq!(parse_duration("1,5 hours").unwrap(), 90);
}

#[test]
fn round_increment_one_is_noop() {
    assert_eq!(round_to_increment(7, 1), 7);
    assert_eq!(round_to_increment(-7, 1), -7);
    assert_eq!(round_to_increment(7, 0), 7);
}

#[test]
fn round_increment_nearest() {
    assert_eq!(round_to_increment(7, 15), 0);
    assert_eq!(round_to_increment(8, 15), 15);
    assert_eq!(round_to_increment(22, 15), 15);
    assert_eq!(round_to_increment(23, 15), 30);
    assert_eq!(round_to_increment(0, 15), 0);
    assert_eq!(round_to_increment(15, 15), 15);
}

#[test]
fn round_increment_half_rounds_up() {
    assert_eq!(round_to_increment(5, 10), 10);
    assert_eq!(round_to_increment(4, 10), 0);
}

#[test]
fn round_increment_negative_symmetric() {
    assert_eq!(round_to_increment(-7, 15), 0);
    assert_eq!(round_to_increment(-8, 15), -15);
    assert_eq!(round_to_increment(-23, 15), -30);
}

#[test]
fn long_numbers_are_read_in_full() {
    assert_eq!(parse_duration("1234567890 min 1 min").unwrap(), 1234567891);
    assert_eq!(parse_duration("30 min 1 hr").unwrap(), 90);
    assert_eq!(parse_duration("0000000000001 hr").unwrap(), 60);
    assert_eq!(parse_duration("1.0000000001 hr").unwrap(), 60);
    assert_eq!(parse_duration("1234567890 hr").unwrap(), i32::MAX);
    assert_eq!(parse_duration("99999999999999999999999999999999 min").unwrap(), i32::MAX);
}

#[test]
fn exponents_and_special_numbers_read_as_floats_do() {
    assert_eq!(parse_duration("1e3").unwrap(), 60000);
    assert_eq!(parse_duration("1e3m").unwrap(), 1000);
    assert_eq!(parse_duration("2.5e1 min").unwrap(), 25);
    assert_eq!(parse_duration("1.25E2 MIN").unwrap(), 125);
    assert_eq!(parse_duration("15e-1 hr").unwrap(), 90);
    assert_eq!(parse_duration("1e-999999999999999999999999 min").unwrap(), 0);
    assert_eq!(parse_duration("1e400 min").unwrap(), i32::MAX);
    assert_eq!(parse_duration("inf min").unwrap(), i32::MAX);
    assert_eq!(parse_duration("-inf").unwrap(), -i32::MAX);
    assert_eq!(parse_duration("nan min").unwrap(), 0);
    assert_eq!(parse_duration("1h nan m").is_err(), true);
    assert!(parse_duration("1e min").is_err());
    assert!(parse_duration("e5 min").is_err());
}

#[test]
fn spaced_pairs_add_up() {
    let pairs = ["1 hr", "30 min", "2.5 hours", "1234567890 min", "0.4 mins", "1e2 minute"];
    for a in pairs {
        for b in pairs {
            let (x, y) = (parse_duration(a).unwrap() as i64, parse_duration(b).unwrap() as i64);
            if x + y <= i32::MAX as i64 {
                assert_eq!(parse_duration(&format!("{} {}", a, b)).unwrap() as i64, x + y, "{a} + {b}");
            }
        }
    }
    assert_eq!(parse_duration("30 min 1 hr").unwrap(), parse_duration("1 hr 30 min").unwrap());
}
