use day_skies::text::{byte_slice, eq_ignore_ascii_case, parse_i64, str_ge, trim, write_decimal};

fn chars(s: &str) -> Vec<char> {
    s.chars().collect()
}

#[test]
fn integers_parse_as_std_does() {
    for s in ["0", "42", "-7", "+12", "007", "9223372036854775807", "-9223372036854775808"] {
        assert_eq!(parse_i64(&chars(s)), s.parse::<i64>().ok(), "{s}");
    }
    for s in ["", "-", "+", "1a", " 1", "9223372036854775808", "-9223372036854775809", "--1", "٣"] {
        assert_eq!(parse_i64(&chars(s)), None, "{s}");
        assert!(s.parse::<i64>().is_err());
    }
}

#[test]
fn decimal_notation() {
    let mut s = String::from("n=");
    write_decimal(0, &mut s);
    assert_eq!(s, "n=0");
    let mut t = String::new();
    write_decimal(18446744073709551615, &mut t);
    assert_eq!(t, "18446744073709551615");
}

#[test]
fn trimming_whitespace() {
    assert_eq!(trim("  Lisbon \t\n"), "Lisbon");
    assert_eq!(trim("\u{3000}Kyoto\u{a0}"), "Kyoto");
    assert_eq!(trim("   "), "");
    assert_eq!(trim("a b"), "a b");
}

#[test]
fn byte_ranges() {
    assert_eq!(byte_slice("2026-07-15T06:12", 11, 16), Some("06:12"));
    assert_eq!(byte_slice("2026-07-15", 11, 16), None);
    assert_eq!(byte_slice("é", 0, 1), None);
    assert_eq!(byte_slice("é", 0, 2), Some("é"));
    assert_eq!(byte_slice("abc", 2, 1), None);
}

#[test]
fn string_order_and_case() {
    assert!(str_ge("2026-07-15T10:00", "2026-07-15T10"));
    assert!(!str_ge("2026-07-15T09:00", "2026-07-15T10"));
    assert!(str_ge("b", "abc"));
    assert!(eq_ignore_ascii_case(&chars("FaLsE"), &chars("false")));
    assert!(!eq_ignore_ascii_case(&chars("fals"), &chars("false")));
}
