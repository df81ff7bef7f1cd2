use sizespan::duration::{format_duration, parse_duration, DurationError};
use std::time::Duration;

#[test]
fn parses_valid_durations() {
    let cases: &[(&str, u64)] = &[
        ("0s", 0),
        ("1d", 86_400_000),
        ("1h", 3_600_000),
        ("1h30m", 5_400_000),
        ("90m", 5_400_000),
        ("1.5h", 5_400_000),
        ("500ms", 500),
        ("1s500ms", 1_500),
        ("1d2h3m4s5ms", 93_784_005),
        (".5s", 500),
    ];
    for (input, expected_ms) in cases {
        match parse_duration(input) {
            Ok(d) => assert_eq!(d.as_millis() as u64, *expected_ms, "input: {input:?}"),
            Err(e) => panic!("expected {input:?} to parse as {expected_ms}ms, got error: {e:?}"),
        }
    }
}

#[test]
fn rejects_invalid_durations() {
    let cases: &[&str] = &[
        "",
        "   ",
        "h",
        "100",
        "1y",
        "-1s",
        "1h1h",
        "1m1h",
        "1h 30m",
        "1..5s",
        "1e3s",
    ];
    for input in cases {
        assert!(
            parse_duration(input).is_err(),
            "expected {input:?} to fail to parse"
        );
    }
}

#[test]
fn duration_overflow_is_rejected() {
    assert!(parse_duration("99999999999999999999999999d").is_err());
}

#[test]
fn formats_durations() {
    let cases: &[(u64, &str)] = &[
        (0, "0s"),
        (500, "500ms"),
        (1_500, "1s500ms"),
        (5_400_000, "1h30m"),
        (93_784_005, "1d2h3m4s5ms"),
    ];
    for (ms, expected) in cases {
        assert_eq!(
            format_duration(Duration::from_millis(*ms)),
            *expected,
            "ms: {ms}"
        );
    }
}

#[test]
fn readme_examples_for_durations() {
    let d = parse_duration("1h30m").unwrap();
    assert_eq!(d.as_secs(), 5400);
    assert_eq!(format_duration(d), "1h30m");
}

#[test]
fn each_duration_error_has_its_input() {
    let s = |x: &str| x.to_string();
    assert_eq!(parse_duration(""), Err(DurationError::Empty));
    assert_eq!(parse_duration(" \t"), Err(DurationError::Empty));
    assert_eq!(parse_duration("h"), Err(DurationError::MissingNumber(s("h"))));
    assert_eq!(parse_duration("1h 30m"), Err(DurationError::MissingNumber(s(" 30m"))));
    assert_eq!(parse_duration("-1s"), Err(DurationError::MissingNumber(s("-1s"))));
    assert_eq!(parse_duration("100"), Err(DurationError::MissingUnit(s("100"))));
    assert_eq!(parse_duration("1h30"), Err(DurationError::MissingUnit(s("30"))));
    assert_eq!(parse_duration("1y"), Err(DurationError::UnknownUnit(s("y"))));
    assert_eq!(parse_duration("1Min"), Err(DurationError::UnknownUnit(s("Min"))));
    assert_eq!(parse_duration("1..5s"), Err(DurationError::InvalidNumber(s("1..5"))));
    assert_eq!(parse_duration("1e3s"), Err(DurationError::UnknownUnit(s("e"))));
    assert_eq!(parse_duration(".s"), Err(DurationError::InvalidNumber(s("."))));
    assert_eq!(parse_duration("1h1H"), Err(DurationError::DuplicateUnit(s("H"))));
    assert_eq!(parse_duration("1m1h"), Err(DurationError::OutOfOrder(s("h"))));
    assert_eq!(
        parse_duration("99999999999999999999999999d"),
        Err(DurationError::Overflow)
    );
    // A later mistake is reported before an overflow.
    assert_eq!(
        parse_duration("99999999999999999999999999d1y"),
        Err(DurationError::UnknownUnit(s("y")))
    );
}

#[test]
fn durations_round_each_component() {
    assert_eq!(parse_duration("0.0005s").unwrap().as_millis(), 1);
    assert_eq!(parse_duration("0.0004s").unwrap().as_millis(), 0);
    assert_eq!(parse_duration("1.5ms").unwrap().as_millis(), 2);
    assert_eq!(parse_duration(" 2H15M ").unwrap().as_millis(), 8_100_000);
    // Each component goes through `f64`: the numeral is read as the nearest
    // `f64`, so 2^64 - 1 becomes 2^64, which is too large.
    assert_eq!(parse_duration("18446744073709551615ms"), Err(DurationError::Overflow));
    assert_eq!(parse_duration("18446744073709551616ms"), Err(DurationError::Overflow));
    assert_eq!(parse_duration("18446744073709551s615ms"), Err(DurationError::Overflow));
    // The largest `f64` below 2^64 is a count that fits.
    assert_eq!(
        parse_duration("18446744073709549568ms").unwrap().as_millis(),
        18_446_744_073_709_549_568
    );
    assert_eq!(parse_duration("9007199254740993ms").unwrap().as_millis(), 9_007_199_254_740_992);
    // 0.5005 is just below 0.5005 as an `f64`, and its product with 1000 is
    // just below 500.5.
    assert_eq!(parse_duration("0.5005s").unwrap().as_millis(), 500);
    assert_eq!(parse_duration("1.0005s").unwrap().as_millis(), 1_001);
}

#[test]
fn large_day_counts_lose_precision() {
    // 150000000001 days is not a whole number of `f64` milliseconds apart
    // from its neighbours: the product rounds to the nearest `f64`.
    assert_eq!(
        parse_duration("150000000001d").unwrap().as_millis(),
        12_960_000_000_086_401_024
    );
    assert_eq!(format_duration(Duration::from_millis(12_960_000_000_086_400_000)), "150000000001d");
}

#[test]
fn formatting_then_parsing_gives_the_duration_back() {
    let mut x: u64 = 0x2545_f491_4f6c_dd1d;
    let limit: u64 = 1 << 53;
    let mut samples: Vec<u64> = vec![
        0, 1, 999, 1000, 59_999, 60_000, 3_600_000, 86_400_000, limit - 1, u64::MAX,
    ];
    for _ in 0..5000 {
        x ^= x << 13;
        x ^= x >> 7;
        x ^= x << 17;
        samples.push(x % limit);
        samples.push(x % 1_000_000_000);
    }
    for ms in samples {
        let text = format_duration(Duration::from_millis(ms));
        assert_eq!(parse_duration(&text).unwrap().as_millis(), ms as u128, "text: {text}");
    }
}

#[test]
fn formats_long_durations() {
    assert_eq!(format_duration(Duration::from_secs(u64::MAX)), "213503982334601d7h15s");
    assert_eq!(format_duration(Duration::from_nanos(999_999)), "0s");
    assert_eq!(format_duration(Duration::from_micros(1_500)), "1ms");
}

#[test]
fn case_and_white_space_do_not_change_a_duration() {
    for s in ["1h30m", "1d2h3m4s5ms", ".5s", "500Ms", "100", "1h1h", "1y", "1m1h", "", "2H15M"] {
        let padded = format!(" \t{}\u{3000}\n", s.to_ascii_uppercase());
        assert_eq!(parse_duration(s).ok(), parse_duration(&padded).ok(), "text: {s:?}");
        let lowered = format!("\u{a0}{}", s.to_ascii_lowercase());
        assert_eq!(parse_duration(s).ok(), parse_duration(&lowered).ok(), "text: {s:?}");
    }
    assert_eq!(parse_duration(" 1H30M ").unwrap().as_millis(), 5_400_000);
}

#[test]
fn distinct_counts_are_written_differently() {
    let mut texts: Vec<String> = Vec::new();
    for ms in [0u64, 1, 999, 1000, 1001, 60_000, 60_001, 3_600_000, 86_400_000, 86_400_001] {
        texts.push(format_duration(Duration::from_millis(ms)));
    }
    texts.push(format_duration(Duration::from_secs(u64::MAX)));
    texts.push(format_duration(Duration::from_secs(u64::MAX - 1)));
    texts.push(format_duration(Duration::new(u64::MAX, 999_999_999)));
    for i in 0..texts.len() {
        for j in 0..i {
            assert_ne!(texts[i], texts[j]);
        }
    }
    assert_eq!(format_duration(Duration::new(u64::MAX, 999_999_999)), "213503982334601d7h15s999ms");
    // Only whole milliseconds count.
    assert_eq!(format_duration(Duration::new(1, 999_999)), format_duration(Duration::from_secs(1)));
}

#[test]
fn duration_errors_have_messages() {
    let s = |x: &str| x.to_string();
    assert_eq!(DurationError::Empty.message(), "input is empty");
    assert_eq!(DurationError::MissingNumber(s(" 30m")).message(), "expected a number, found: \" 30m\"");
    assert_eq!(
        DurationError::MissingUnit(s("100")).message(),
        "missing unit after \"100\" (expected d, h, m, s, or ms)"
    );
    assert_eq!(DurationError::UnknownUnit(s("y")).message(), "unrecognized duration unit: \"y\"");
    assert_eq!(DurationError::InvalidNumber(s("1..5")).message(), "invalid number: \"1..5\"");
    assert_eq!(DurationError::DuplicateUnit(s("H")).message(), "unit \"H\" used more than once");
    assert_eq!(
        DurationError::OutOfOrder(s("h")).message(),
        "unit \"h\" is out of order (units must go from largest to smallest: d, h, m, s, ms)"
    );
    assert_eq!(DurationError::Overflow.message(), "duration is too large to represent");
    assert_eq!(parse_duration("1\th").unwrap_err().message(), "missing unit after \"1\" (expected d, h, m, s, or ms)");
}
