use std::time::Duration;

use fancy_duration::breakdown::DurationBreakdown;
use fancy_duration::fancy::duration_from_parts;
use fancy_duration::{DurationPart, FancyDuration, ParseError};

fn parse(s: &str) -> Result<(u64, u64), ParseError> {
    FancyDuration::<Duration>::parse_to_ns(s)
}

#[test]
fn zero_formats_as_single_digit() {
    assert_eq!(FancyDuration(Duration::new(0, 0)).format(), "0");
    assert_eq!(FancyDuration(Duration::new(0, 0)).format_compact(), "0");
}

#[test]
fn bare_zero_parses_to_zero() {
    assert_eq!(parse("0"), Ok((0, 0)));
    assert_eq!(parse(""), Ok((0, 0)));
    assert_eq!(
        FancyDuration::<Duration>::parse("0").unwrap().duration(),
        Duration::new(0, 0)
    );
}

#[test]
fn minutes_and_months_by_position() {
    let year = 365 * 86400;
    assert_eq!(parse("5y2d30m"), Ok((5 * year + 2 * 86400 + 30 * 60, 0)));
    assert_eq!(parse("5y30m2d"), Ok((5 * year + 30 * 30 * 86400 + 2 * 86400, 0)));
}

#[test]
fn year_is_365_days_both_ways() {
    assert_eq!(parse("1y"), Ok((31536000, 0)));
    assert_eq!(FancyDuration(Duration::new(31536000, 0)).format(), "1y");
    assert_eq!(
        FancyDuration::<Duration>::parse("1y 3m 2w 2d 10m 10s")
            .unwrap()
            .duration(),
        Duration::new(40695010, 0)
    );
}

#[test]
fn days_minutes_seconds_sum() {
    assert_eq!(parse("1d2m3s"), Ok((86523, 0)));
}

#[test]
fn scenario_formats() {
    assert_eq!(FancyDuration(Duration::new(185, 0)).format(), "3m 5s");
    assert_eq!(FancyDuration(Duration::new(185, 0)).format_compact(), "3m5s");
    assert_eq!(FancyDuration(Duration::new(600, 0)).format(), "10m");
    assert_eq!(FancyDuration(Duration::new(120, 0)).format(), "2m");
    assert_eq!(FancyDuration(Duration::new(20, 0)).format(), "20s");
}

#[test]
fn scenario_filter_and_truncate() {
    let d = FancyDuration::<Duration>::parse("1h 1m 30us").unwrap();
    assert_eq!(
        d.filter(&[DurationPart::Minutes, DurationPart::Microseconds]).format(),
        "1m 30us"
    );
    assert_eq!(d.truncate(3).format(), "1h 1m");
}

#[test]
fn stray_text_is_skipped() {
    assert_eq!(parse("about 3m and 5s, roughly"), Ok((185, 0)));
    assert_eq!(parse("12 7s"), Ok((7, 0)));
    assert_eq!(parse("5x 5s"), Ok((5, 0)));
    assert_eq!(parse("5abc"), Ok((0, 0)));
    assert_eq!(parse("3M"), Ok((0, 0)));
}

#[test]
fn two_letter_suffix_is_greedy() {
    assert_eq!(parse("10ms"), Ok((0, 10000000)));
    assert_eq!(parse("10mss"), Ok((0, 10000000)));
    assert_eq!(parse("10sm"), Ok((0, 0)));
}

#[test]
fn invalid_number_error() {
    assert_eq!(parse("99999999999999999999s"), Err(ParseError::InvalidNumber));
    assert_eq!(parse("99999999999999999999xy 4s"), Ok((4, 0)));
}

#[test]
fn out_of_range_error() {
    assert_eq!(parse("18446744073709551615s 1s"), Err(ParseError::OutOfRange));
    assert_eq!(parse("18446744073709551615y"), Err(ParseError::OutOfRange));
    assert_eq!(parse("18446744073709551615s"), Ok((u64::MAX, 0)));
}

#[test]
fn subsecond_nanoseconds_carry_into_duration() {
    assert_eq!(parse("2000ms"), Ok((0, 2000000000)));
    assert_eq!(
        FancyDuration::<Duration>::parse("1s 2000ms").unwrap().duration(),
        Duration::new(3, 0)
    );
    assert_eq!(
        FancyDuration::<Duration>::parse("5000000000ns"),
        Err(ParseError::OutOfRange)
    );
    assert_eq!(duration_from_parts(u64::MAX, 1_000_000_000), Err(ParseError::OutOfRange));
    assert_eq!(duration_from_parts(4, 1_500_000_000), Ok(Duration::new(5, 500_000_000)));
}

#[test]
fn format_parse_round_trip() {
    for secs in [1u64, 59, 61, 3599, 3661, 86399, 90061, 694861, 2678461, 31536000, 35000000] {
        for nanos in [0u64, 1, 999, 1000, 1_000_000, 123_456_789] {
            let d = Duration::new(secs, nanos as u32);
            let text = FancyDuration(d).format();
            assert_eq!(FancyDuration::<Duration>::parse(&text).unwrap().duration(), d);
            let compact = FancyDuration(d).format_compact();
            assert_eq!(FancyDuration::<Duration>::parse(&compact).unwrap().duration(), d);
        }
    }
}

#[test]
fn month_without_finer_unit_reads_as_minutes() {
    let d = Duration::new(90 * 86400, 0);
    assert_eq!(FancyDuration(d).format(), "3m");
    assert_eq!(
        FancyDuration::<Duration>::parse("3m").unwrap().duration(),
        Duration::new(180, 0)
    );
}

#[test]
fn filter_twice_is_filter_once() {
    let parts = [DurationPart::Weeks, DurationPart::Seconds, DurationPart::Nanoseconds];
    let d = FancyDuration::<Duration>::parse("1y 3m 2w 2d 10m 10s 5ms 7ns").unwrap();
    let once = d.filter(&parts);
    let twice = once.filter(&parts);
    assert_eq!(once.duration(), twice.duration());
    assert_eq!(once.format(), "2w 10s 7ns");
}

#[test]
fn truncate_grows_with_limit() {
    let d = FancyDuration::<Duration>::parse("1y 3m 2w 2d 10m 10s 5ms").unwrap();
    assert_eq!(d.truncate(0).format(), "0");
    assert_eq!(d.truncate(1).format(), "1y");
    assert_eq!(d.truncate(2).format(), "1y 3m");
    assert_eq!(d.truncate(4).format(), "1y 3m 2w 2d");
    assert_eq!(d.truncate(6).format(), "1y 3m 2w 2d 10m");
    assert_eq!(d.truncate(8).format(), "1y 3m 2w 2d 10m 10s 5ms");
    assert_eq!(d.truncate(10).duration(), d.duration());
}

#[test]
fn breakdown_counts() {
    let b = DurationBreakdown::new(99 * 86400 + 324, 123_456_789);
    assert_eq!(
        (b.years, b.months, b.weeks, b.days, b.hours, b.minutes, b.seconds),
        (0, 3, 1, 2, 0, 5, 24)
    );
    assert_eq!((b.milliseconds, b.microseconds, b.nanoseconds), (123, 456, 789));
    assert_eq!(b.as_times(), (99 * 86400 + 324, 123_456_789));
    let t = b.truncate(2);
    assert_eq!((t.months, t.weeks, t.days, t.minutes), (3, 1, 0, 0));
    let f = b.filter(&[DurationPart::Days, DurationPart::Microseconds]);
    assert_eq!(f.as_times(), (2 * 86400, 456_000));
}

#[test]
fn parses_through_from_str() {
    let d: FancyDuration<Duration> = "3m 5s".parse().unwrap();
    assert_eq!(d.duration(), Duration::new(185, 0));
}

#[test]
fn truncate_counts_zero_units_between_nonzero_ones() {
    let d = FancyDuration::<Duration>::parse("1h 30us").unwrap();
    assert_eq!(d.truncate(2).format(), "1h");
    assert_eq!(d.truncate(5).format(), "1h 30us");
    assert_eq!(d.truncate(5).duration(), d.duration());
}
