use sizespan::numeral::parse_strict_number;
use sizespan::text::{chars_of, lower_char, lowered, trimmed, white_space};

fn string_from_chars(chars: Vec<char>) -> String {
    chars.into_iter().collect()
}

#[test]
fn white_space_is_unicode_white_space() {
    for code in 0..0x11000u32 {
        if let Some(c) = char::from_u32(code) {
            assert_eq!(white_space(c), c.is_whitespace(), "char {code:#x}");
        }
    }
}

#[test]
fn trimming_agrees_with_str_trim() {
    for s in ["", "   ", " a ", "\u{3000}x\u{85}", "a b", "\t\n1 KiB\r\n", "é "] {
        let chars = chars_of(s);
        assert_eq!(string_from_chars(trimmed(&chars)), s.trim());
    }
}

#[test]
fn lowering_is_ascii_lowering() {
    for s in ["KiB", "MIXED case É", "ÀBC", "1H30M"] {
        let chars = chars_of(s);
        assert_eq!(string_from_chars(lowered(&chars)), s.to_ascii_lowercase());
    }
    assert_eq!(lower_char('Z'), 'z');
    assert_eq!(lower_char('É'), 'É');
}

#[test]
fn strict_numerals() {
    for ok in ["0", "5", "1.5", ".5", "5.", "007", "1234567890.0987654321"] {
        assert!(parse_strict_number(&chars_of(ok)).is_some(), "{ok:?}");
    }
    for bad in ["", ".", "..", "1.2.3", "-1", "+1", "1e3", "inf", "nan", "1,0", " 1", "1 "] {
        assert!(parse_strict_number(&chars_of(bad)).is_none(), "{bad:?}");
    }
    let d = parse_strict_number(&chars_of("12.50")).unwrap();
    assert_eq!(d.whole, vec!['1', '2']);
    assert_eq!(d.fraction, vec!['5', '0']);
    assert_eq!(d.scale(1), Some(13));
    assert_eq!(d.scale(4), Some(50));
    assert_eq!(d.scale(0), Some(0));
    let d = parse_strict_number(&chars_of("0.25")).unwrap();
    assert_eq!(d.scale(2), Some(1));
    assert_eq!(d.scale(6), Some(2));
    let d = parse_strict_number(&chars_of("18446744073709551616")).unwrap();
    assert_eq!(d.scale(1), None);
}
