use std::time::Duration;

use fancy_duration::{AsFancyDuration, DurationPart, FancyDuration, ParseFancyDuration};

#[test]
fn test_fancy_duration_call() {
    assert_eq!(Duration::new(0, 600).fancy_duration().format(), "600ns");
    assert_eq!(
        Duration::parse_fancy_duration("600ns".to_string()).unwrap(),
        Duration::new(0, 600)
    );
}

#[test]
fn test_duration_to_string() {
    assert_eq!(FancyDuration(Duration::new(0, 600)).format(), "600ns");
    assert_eq!(FancyDuration(Duration::new(0, 600000)).format(), "600us");
    assert_eq!(FancyDuration(Duration::new(0, 600000000)).format(), "600ms");
    assert_eq!(FancyDuration(Duration::new(600, 0)).format(), "10m");
    assert_eq!(FancyDuration(Duration::new(120, 0)).format(), "2m");
    assert_eq!(FancyDuration(Duration::new(185, 0)).format(), "3m 5s");
    assert_eq!(FancyDuration(Duration::new(24 * 60 * 60, 0)).format(), "1d");
    assert_eq!(FancyDuration(Duration::new(324, 0)).format(), "5m 24s");
    assert_eq!(
        FancyDuration(Duration::new(24 * 60 * 60 + 324, 0)).format(),
        "1d 5m 24s"
    );
    assert_eq!(
        FancyDuration(Duration::new(27 * 24 * 60 * 60 + 324, 0)).format(),
        "3w 6d 5m 24s"
    );
    assert_eq!(
        FancyDuration(Duration::new(99 * 24 * 60 * 60 + 324, 0)).format(),
        "3m 1w 2d 5m 24s"
    );
    assert_eq!(FancyDuration(Duration::new(365 * 24 * 60 * 60, 0)).format(), "1y");
    assert_eq!(
        FancyDuration(Duration::new(365 * 24 * 60 * 60 + 10 * 24 * 60 * 60, 0)).format(),
        "1y 1w 3d"
    );
    assert_eq!(
        FancyDuration(Duration::new(365 * 24 * 60 * 60 + 10 * 24 * 60 * 60, 0)).format_compact(),
        "1y1w3d"
    );
    assert_eq!(FancyDuration(Duration::new(324, 0)).format_compact(), "5m24s");
    assert_eq!(
        FancyDuration(Duration::new(24 * 60 * 60 + 324, 0)).format_compact(),
        "1d5m24s"
    );
    assert_eq!(
        FancyDuration(Duration::new(27 * 24 * 60 * 60 + 324, 0)).format_compact(),
        "3w6d5m24s"
    );
    assert_eq!(
        FancyDuration(Duration::new(99 * 24 * 60 * 60 + 324, 0)).format_compact(),
        "3m1w2d5m24s"
    );
}

#[test]
fn test_parse_filter() {
    let duration_table = [
        (
            "1m 5s 10ms",
            vec![DurationPart::Minutes, DurationPart::Milliseconds],
            "1m 10ms",
        ),
        (
            "1h 1m 30us",
            vec![DurationPart::Minutes, DurationPart::Microseconds],
            "1m 30us",
        ),
        ("1d 1h 30ns", vec![DurationPart::Days], "1d"),
        (
            "10s",
            vec![DurationPart::Seconds, DurationPart::Minutes],
            "10s",
        ),
        (
            "3m 5s",
            vec![
                DurationPart::Hours,
                DurationPart::Minutes,
                DurationPart::Seconds,
            ],
            "3m 5s",
        ),
        (
            "3m 2w 2d 10m 10s",
            vec![
                DurationPart::Months,
                DurationPart::Weeks,
                DurationPart::Days,
            ],
            "3m 2w 2d",
        ),
    ];

    for (orig_duration, filter, new_duration) in &duration_table {
        assert_eq!(
            *new_duration,
            FancyDuration::<Duration>::parse(orig_duration)
                .unwrap()
                .filter(filter)
                .format()
        )
    }
}

#[test]
fn test_parse_truncate() {
    let duration_table = [
        ("1m 5s 10ms", 2, "1m 5s"),
        ("1h 1m 30us", 3, "1h 1m"),
        ("1d 1h 30ns", 1, "1d"),
        ("10s", 3, "10s"),
        ("3m 5s", 2, "3m 5s"),
        ("3m 2w 2d 10m 10s", 3, "3m 2w 2d"),
    ];

    for (orig_duration, truncate, new_duration) in &duration_table {
        assert_eq!(
            *new_duration,
            FancyDuration::<Duration>::parse(orig_duration)
                .unwrap()
                .truncate(*truncate)
                .format()
        )
    }
}

#[test]
fn test_parse_duration() {
    let duration_table = [
        ("1m 10ms", Duration::new(60, 10000000)),
        ("1h 30us", Duration::new(60 * 60, 30000)),
        ("1d 30ns", Duration::new(60 * 60 * 24, 30)),
        ("10s", Duration::new(10, 0)),
        ("3m 5s", Duration::new(185, 0)),
        ("3m 2w 2d 10m 10s", Duration::new(9159010, 0)),
    ];

    let compact_duration_table = [
        ("10s30ns", Duration::new(10, 30)),
        ("3m5s", Duration::new(185, 0)),
        ("3m2w2d10m10s", Duration::new(9159010, 0)),
    ];

    for item in duration_table {
        let fancy = FancyDuration::<Duration>::parse(item.0).unwrap();
        assert_eq!(fancy.duration(), item.1);
        assert_eq!(FancyDuration::new(item.1).format(), item.0);
    }

    for item in compact_duration_table {
        let fancy = FancyDuration::<Duration>::parse(item.0).unwrap();
        assert_eq!(fancy.duration(), item.1);
        assert_eq!(FancyDuration::new(item.1).format_compact(), item.0);
    }
}
