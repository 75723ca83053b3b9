use foodloss::numbers::{check_float_text, parse_u32};

#[test]
fn parses_plain_decimal() {
    assert_eq!(parse_u32(b"0"), Some(0));
    assert_eq!(parse_u32(b"42"), Some(42));
    assert_eq!(parse_u32(b"2016"), Some(2016));
}

#[test]
fn accepts_one_leading_plus() {
    assert_eq!(parse_u32(b"+42"), Some(42));
    assert_eq!(parse_u32(b"++42"), None);
    assert_eq!(parse_u32(b"+"), None);
}

#[test]
fn rejects_empty_and_nonnumeric() {
    assert_eq!(parse_u32(b""), None);
    assert_eq!(parse_u32(b"abc"), None);
    assert_eq!(parse_u32(b"2020x"), None);
    assert_eq!(parse_u32(b"-1"), None);
    assert_eq!(parse_u32(b" 42"), None);
    assert_eq!(parse_u32(b"42 "), None);
    assert_eq!(parse_u32(b"4.2"), None);
}

#[test]
fn honours_the_u32_limit() {
    assert_eq!(parse_u32(b"4294967295"), Some(u32::MAX));
    assert_eq!(parse_u32(b"4294967296"), None);
    assert_eq!(parse_u32(b"99999999999999999999"), None);
}

#[test]
fn leading_zeroes_are_digits_like_any_other() {
    assert_eq!(parse_u32(b"007"), Some(7));
    assert_eq!(parse_u32(b"00000000000000000042"), Some(42));
}

#[test]
fn accepts_plain_float_forms() {
    assert!(check_float_text(b"12.5"));
    assert!(check_float_text(b"1"));
    assert!(check_float_text(b"-3"));
    assert!(check_float_text(b".5"));
    assert!(check_float_text(b"5."));
    assert!(check_float_text(b"-.5"));
    assert!(check_float_text(b"+3.25"));
}

#[test]
fn accepts_exponent_forms() {
    assert!(check_float_text(b"1e5"));
    assert!(check_float_text(b"1E+5"));
    assert!(check_float_text(b"-2.5e-10"));
    assert!(check_float_text(b"12.e3"));
}

#[test]
fn accepts_special_words_in_any_case() {
    assert!(check_float_text(b"inf"));
    assert!(check_float_text(b"-inf"));
    assert!(check_float_text(b"Infinity"));
    assert!(check_float_text(b"INFINITY"));
    assert!(check_float_text(b"nan"));
    assert!(check_float_text(b"NaN"));
    assert!(check_float_text(b"+NAN"));
}

#[test]
fn rejects_malformed_float_text() {
    assert!(!check_float_text(b""));
    assert!(!check_float_text(b"."));
    assert!(!check_float_text(b"-"));
    assert!(!check_float_text(b"e5"));
    assert!(!check_float_text(b"1e"));
    assert!(!check_float_text(b"1e+"));
    assert!(!check_float_text(b"1.2.3"));
    assert!(!check_float_text(b"abc"));
    assert!(!check_float_text(b"12.5x"));
    assert!(!check_float_text(b" 12.5"));
    assert!(!check_float_text(b"12.5 "));
    assert!(!check_float_text(b"+-1"));
    assert!(!check_float_text(b"infx"));
    assert!(!check_float_text(b"na"));
    assert!(!check_float_text(b"1e5.2"));
}
