use sizespan::bytes::{ByteSize, ByteSizeError};
use std::str::FromStr;

#[test]
fn parses_valid_sizes() {
    let cases: &[(&str, u64)] = &[
        ("0", 0),
        ("0B", 0),
        ("5", 5),
        ("5B", 5),
        ("1024", 1024),
        ("1KiB", 1024),
        ("1 KiB", 1024),
        ("1kib", 1024),
        ("1KIB", 1024),
        ("1kB", 1000),
        ("1kb", 1000),
        ("1.5MiB", 1_572_864),
        ("1.5MB", 1_500_000),
        ("2GiB", 2 * 1024 * 1024 * 1024),
        ("1TiB", 1024u64.pow(4)),
        (".5KiB", 512),
        ("1024.", 1024),
    ];
    for (input, expected) in cases {
        match ByteSize::from_str(input) {
            Ok(size) => assert_eq!(size.as_bytes(), *expected, "input: {input:?}"),
            Err(e) => panic!("expected {input:?} to parse as {expected}, got error: {e:?}"),
        }
    }
}

#[test]
fn rejects_invalid_sizes() {
    let cases: &[&str] = &[
        "",
        "   ",
        "-1B",
        "-1",
        "1XB",
        "MB",
        "B",
        "1e3MB",
        "1.5.3MB",
        "1,000B",
        "inf",
        "infB",
        "nan",
        "1..5MB",
        "+5MB",
    ];
    for input in cases {
        assert!(
            ByteSize::from_str(input).is_err(),
            "expected {input:?} to fail to parse"
        );
    }
}

#[test]
fn bytes_overflow_is_rejected() {
    assert!(ByteSize::from_str("999999999999999999999999TiB").is_err());
}

#[test]
fn formats_sizes() {
    let cases: &[(u64, &str)] = &[
        (0, "0 B"),
        (5, "5 B"),
        (1023, "1023 B"),
        (1024, "1 KiB"),
        (1536, "1.5 KiB"),
        (1_048_576, "1 MiB"),
        (1_572_864, "1.5 MiB"),
    ];
    for (bytes, expected) in cases {
        assert_eq!(
            ByteSize::from_bytes(*bytes).to_string(),
            *expected,
            "bytes: {bytes}"
        );
    }
}

#[test]
fn readme_examples_for_sizes() {
    assert_eq!(ByteSize::from_str("1.5 MiB").unwrap().as_bytes(), 1_572_864);
    assert_eq!(ByteSize::from_bytes(1536).to_string(), "1.5 KiB");
    assert_eq!(ByteSize::from_str("2048").unwrap().as_bytes(), 2048);
}

#[test]
fn each_size_error_has_its_input() {
    assert_eq!(ByteSize::from_str(""), Err(ByteSizeError::Empty));
    assert_eq!(ByteSize::from_str(" \t\n"), Err(ByteSizeError::Empty));
    assert_eq!(
        ByteSize::from_str("1XB"),
        Err(ByteSizeError::InvalidNumber("1X".to_string()))
    );
    assert_eq!(
        ByteSize::from_str("  1,000 B "),
        Err(ByteSizeError::InvalidNumber("1,000".to_string()))
    );
    assert_eq!(
        ByteSize::from_str("MB"),
        Err(ByteSizeError::InvalidNumber(String::new()))
    );
    assert_eq!(
        ByteSize::from_str("Inf"),
        Err(ByteSizeError::InvalidNumber("Inf".to_string()))
    );
    assert_eq!(ByteSize::from_str("16384PiB"), Err(ByteSizeError::Overflow));
}

#[test]
fn units_are_case_insensitive() {
    for (a, b) in [("3kib", "3KiB"), ("3KIB", "3kIb"), ("7Mb", "7mB"), ("2 gB", "2 GB")] {
        assert_eq!(ByteSize::from_str(a), ByteSize::from_str(b));
    }
}

#[test]
fn rounding_and_limits() {
    // Halves round up.
    assert_eq!(ByteSize::from_str("0.5").unwrap().as_bytes(), 1);
    assert_eq!(ByteSize::from_str("2.5B").unwrap().as_bytes(), 3);
    assert_eq!(ByteSize::from_str("0.49999").unwrap().as_bytes(), 0);
    assert_eq!(ByteSize::from_str("0.0005kB").unwrap().as_bytes(), 1);
    assert_eq!(ByteSize::from_str("1.0000000000000000000001KiB").unwrap().as_bytes(), 1024);
    // The largest count fits; one more does not.
    assert_eq!(
        ByteSize::from_str("18446744073709551615").unwrap().as_bytes(),
        u64::MAX
    );
    assert_eq!(
        ByteSize::from_str("18446744073709551615.4").unwrap().as_bytes(),
        u64::MAX
    );
    assert_eq!(
        ByteSize::from_str("18446744073709551615.5"),
        Err(ByteSizeError::Overflow)
    );
    assert_eq!(
        ByteSize::from_str("18446744073709551616"),
        Err(ByteSizeError::Overflow)
    );
    assert_eq!(ByteSize::from_str("16PiB").unwrap().as_bytes(), 16 * 1024u64.pow(5));
    assert_eq!(ByteSize::from_str("1.25 pb").unwrap().as_bytes(), 1_250_000_000_000_000);
}

#[test]
fn sizes_are_computed_in_double_precision() {
    // 0.5005 as an `f64` times 1000 is 500.49999999999994.
    assert_eq!(ByteSize::from_str("0.5005kB").unwrap().as_bytes(), 500);
    assert_eq!(ByteSize::from_str("0.5005 KB").unwrap().as_bytes(), 500);
    // 2^53 + 1 is read as 2^53.
    assert_eq!(ByteSize::from_str("9007199254740993").unwrap().as_bytes(), 1 << 53);
    assert_eq!(ByteSize::from_str("9007199254740995").unwrap().as_bytes(), (1 << 53) + 4);
    // A product that an `f64` cannot hold is rounded to one that it can.
    assert_eq!(
        ByteSize::from_str("1234567.891GiB").unwrap().as_bytes(),
        (1234567.891f64 * 1073741824.0).round() as u64
    );
    assert_eq!(
        ByteSize::from_str("16383.9999999PiB").unwrap().as_bytes(),
        (16383.9999999f64 * 1125899906842624.0).round() as u64
    );
}

/// What a parse with `f64` arithmetic gives: the numeral read as an `f64`,
/// times the unit, rounded.
fn float_parse(num: &str, factor: u64) -> u64 {
    (num.parse::<f64>().unwrap() * factor as f64).round() as u64
}

#[test]
fn parsing_agrees_with_float_arithmetic() {
    let units: [(&str, u64); 11] = [
        ("PiB", 1024u64.pow(5)),
        ("TiB", 1024u64.pow(4)),
        ("GiB", 1024u64.pow(3)),
        ("MiB", 1024u64.pow(2)),
        ("KiB", 1024),
        ("PB", 1000u64.pow(5)),
        ("TB", 1000u64.pow(4)),
        ("GB", 1000u64.pow(3)),
        ("MB", 1000u64.pow(2)),
        ("kB", 1000),
        ("B", 1),
    ];
    let mut x: u64 = 0x2545_f491_4f6c_dd1d;
    for _ in 0..20000 {
        x ^= x << 13;
        x ^= x >> 7;
        x ^= x << 17;
        let (name, factor) = units[(x % 11) as usize];
        let whole = (x >> 8) % 16_000;
        let digits = ((x >> 40) % 12) as usize;
        let frac = format!("{:012}", (x >> 4) % 1_000_000_000_000);
        let num = if digits == 0 {
            format!("{whole}")
        } else {
            format!("{whole}.{}", &frac[..digits])
        };
        let text = format!("{num}{name}");
        let expected = float_parse(&num, factor);
        assert_eq!(ByteSize::from_str(&text).unwrap().as_bytes(), expected, "text: {text}");
    }
}

/// The formatting as it is done with `f64`: the value over the unit with two
/// decimals, trailing zeros and dot trimmed.
fn float_format(n: u64) -> String {
    let steps: [(&str, u64); 5] = [
        ("PiB", 1024u64.pow(5)),
        ("TiB", 1024u64.pow(4)),
        ("GiB", 1024u64.pow(3)),
        ("MiB", 1024u64.pow(2)),
        ("KiB", 1024),
    ];
    for (name, size) in steps {
        if n >= size {
            let value = n as f64 / size as f64;
            let text = format!("{value:.2}");
            let text = text.trim_end_matches('0').trim_end_matches('.');
            return format!("{text} {name}");
        }
    }
    format!("{} B", n)
}

#[test]
fn formatting_agrees_with_float_formatting() {
    let mut samples: Vec<u64> = Vec::new();
    for n in 0..5000u64 {
        samples.push(n);
    }
    for size in [1024u64, 1024u64.pow(2), 1024u64.pow(3), 1024u64.pow(4), 1024u64.pow(5)] {
        for k in 1..2000u64 {
            // Exact ties at the second decimal, and their neighbours.
            let tie = k * size / 200;
            for d in [0u64, 1, 2] {
                samples.push(tie.saturating_sub(1) + d);
            }
            samples.push(k * size);
            samples.push(k * size - 1);
        }
    }
    let mut x: u64 = 0x9e37_79b9_7f4a_7c15;
    for _ in 0..20000 {
        x ^= x << 13;
        x ^= x >> 7;
        x ^= x << 17;
        samples.push(x);
        samples.push(x >> (x % 64));
    }
    samples.push(u64::MAX);
    samples.push(u64::MAX - 1);
    samples.push(1 << 53);
    samples.push((1 << 53) + 1);
    for n in samples {
        assert_eq!(ByteSize::from_bytes(n).to_string(), float_format(n), "bytes: {n}");
    }
}

#[test]
fn formatting_rounds_to_two_decimals() {
    assert_eq!(ByteSize::from_bytes(1025).to_string(), "1 KiB");
    assert_eq!(ByteSize::from_bytes(1034).to_string(), "1.01 KiB");
    assert_eq!(ByteSize::from_bytes(1126).to_string(), "1.1 KiB");
    assert_eq!(ByteSize::from_bytes(1_048_575).to_string(), "1024 KiB");
    assert_eq!(ByteSize::from_bytes(u64::MAX).to_string(), "16384 PiB");
}

#[test]
fn small_counts_survive_formatting_and_parsing() {
    for n in 0..1024u64 {
        let text = ByteSize::from_bytes(n).to_string();
        assert_eq!(ByteSize::from_str(&text).unwrap().as_bytes(), n);
    }
}

#[test]
fn from_str_trait_agrees() {
    let a: Result<ByteSize, ByteSizeError> = FromStr::from_str("1.5 MiB");
    assert_eq!(a.unwrap().as_bytes(), 1_572_864);
    let b: ByteSize = "10 kB".parse().unwrap();
    assert_eq!(b.as_bytes(), 10_000);
}

#[test]
fn size_errors_have_messages() {
    assert_eq!(ByteSizeError::Empty.message(), "input is empty");
    assert_eq!(
        ByteSizeError::InvalidNumber("1X".to_string()).message(),
        "invalid number: \"1X\""
    );
    assert_eq!(
        ByteSizeError::UnknownUnit("a\"b\\c\n".to_string()).message(),
        "unrecognized size or unit: \"a\\\"b\\\\c\\n\""
    );
    assert_eq!(ByteSizeError::Overflow.message(), "value is too large to represent");
    let e = ByteSize::from_str("1,000 B").unwrap_err();
    assert_eq!(e.message(), format!("invalid number: {:?}", "1,000"));
}

#[test]
fn formatting_then_parsing_stays_within_a_hundredth_of_the_unit() {
    let steps = [1024u64.pow(5), 1024u64.pow(4), 1024u64.pow(3), 1024u64.pow(2), 1024];
    let mut samples: Vec<u64> = vec![1024, 1025, 1535, 1536, 1_048_575, 16383 * 1024u64.pow(5)];
    let mut x: u64 = 0x853c_49e6_748f_ea9b;
    for _ in 0..20000 {
        x ^= x << 13;
        x ^= x >> 7;
        x ^= x << 17;
        let n = x >> (x % 54);
        if n >= 1024 && n <= 16383 * 1024u64.pow(5) {
            samples.push(n);
        }
    }
    for n in samples {
        let unit = *steps.iter().find(|&&s| n >= s).unwrap();
        let text = ByteSize::from_bytes(n).to_string();
        let m = ByteSize::from_str(&text).unwrap().as_bytes();
        assert!(100 * (m.abs_diff(n) as u128) <= unit as u128, "bytes: {n}, text: {text}, back: {m}");
    }
    assert_eq!(ByteSize::from_str("1.01 KiB").unwrap().as_bytes(), 1034);
    assert_eq!(ByteSize::from_bytes(1030).to_string(), "1.01 KiB");
}
