use tailr::text::{parse_unsigned, push_decimal, push_padded_decimal, space, trimmed};

#[test]
fn decimal_numerals() {
    let mut s = String::from("n=");
    push_decimal(&mut s, 0);
    push_decimal(&mut s, 1);
    push_decimal(&mut s, u64::MAX);
    assert_eq!(s, "n=0118446744073709551615");
}

#[test]
fn padded_numerals() {
    let mut s = String::new();
    push_padded_decimal(&mut s, 42, 6);
    assert_eq!(s, "    42");
    let mut t = String::new();
    push_padded_decimal(&mut t, 1234567, 4);
    assert_eq!(t, "1234567");
}

#[test]
fn unsigned_numbers() {
    assert_eq!(parse_unsigned("+12", 255), Some(12));
    assert_eq!(parse_unsigned("0255", 255), Some(255));
    assert_eq!(parse_unsigned("256", 255), None);
    assert_eq!(parse_unsigned("18446744073709551615", u64::MAX), Some(u64::MAX));
    assert_eq!(parse_unsigned("18446744073709551616", u64::MAX), None);
    assert_eq!(parse_unsigned("+", 255), None);
    assert_eq!(parse_unsigned("-1", 255), None);
    assert_eq!(parse_unsigned("", 255), None);
}

#[test]
fn white_space_and_trim() {
    for c in ['\t', '\n', '\u{b}', '\u{c}', '\r', ' ', '\u{85}', '\u{a0}', '\u{2009}', '\u{3000}'] {
        assert!(space(c));
        assert_eq!(space(c), c.is_whitespace());
    }
    assert!(!space('x'));
    assert!(!space('\u{200b}'));
    assert_eq!(trimmed("\u{a0} a b \n"), "a b");
    assert_eq!(trimmed(" \t "), "");
}
