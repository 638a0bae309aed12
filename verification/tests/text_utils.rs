use tailsync::text::{chars_of, decimal_string, next_token, parse_u64_at, string_of};

#[test]
fn decimal_digits() {
    assert_eq!(decimal_string(0), "0");
    assert_eq!(decimal_string(300), "300");
    assert_eq!(decimal_string(u64::MAX), "18446744073709551615");
}

#[test]
fn parse_u64_like_std() {
    for s in ["0", "42", "+7", "", "+", "-1", "1a", "18446744073709551615", "18446744073709551616"] {
        let v = chars_of(s);
        assert_eq!(parse_u64_at(&v, 0, v.len()), s.parse::<u64>().ok(), "{}", s);
    }
}

#[test]
fn words_and_substrings() {
    let v = chars_of("  读书 \u{3000}notes\tx");
    let (b, e) = next_token(&v, 0, v.len()).unwrap();
    assert_eq!(string_of(&v, b, e), "读书");
    let (b2, e2) = next_token(&v, e, v.len()).unwrap();
    assert_eq!(string_of(&v, b2, e2), "notes");
    let (b3, e3) = next_token(&v, e2, v.len()).unwrap();
    assert_eq!(string_of(&v, b3, e3), "x");
    assert!(next_token(&v, e3, v.len()).is_none());
}
