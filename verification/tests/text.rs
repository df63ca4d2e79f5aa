use http_serve::text::{
    bytes_eq, find_byte, parse_number, push_decimal, push_hex, push_text, rfind_byte, starts_with,
    trimmed, trimmed_end, trimmed_start,
};

#[test]
fn comparison_and_search() {
    assert!(bytes_eq(b"", b""));
    assert!(bytes_eq(b"abc", b"abc"));
    assert!(!bytes_eq(b"abc", b"abd"));
    assert!(!bytes_eq(b"abc", b"ab"));
    assert!(starts_with(b"abc", b"ab"));
    assert!(starts_with(b"abc", b""));
    assert!(!starts_with(b"ab", b"abc"));
    assert_eq!(find_byte(b"a,b,c", b','), 1);
    assert_eq!(find_byte(b"abc", b','), 3);
    assert_eq!(rfind_byte(b"a,b,c", b','), Some(3));
    assert_eq!(rfind_byte(b"abc", b','), None);
}

#[test]
fn trimming() {
    assert_eq!(trimmed_start(b" \ta b \t"), b"a b \t");
    assert_eq!(trimmed_end(b" \ta b \t"), b" \ta b");
    assert_eq!(trimmed(b" \ta b \t"), b"a b");
    assert_eq!(trimmed(b" \t "), b"");
    assert_eq!(trimmed(b"\n a"), b"\n a");
}

#[test]
fn numbers() {
    assert_eq!(parse_number(b""), None);
    assert_eq!(parse_number(b"+"), None);
    assert_eq!(parse_number(b"-1"), None);
    assert_eq!(parse_number(b"+1"), None);
    assert_eq!(parse_number(b" 1"), None);
    assert_eq!(parse_number(b"1a"), None);
    assert_eq!(parse_number(b"007"), Some(7));
    assert_eq!(parse_number(b"18446744073709551615"), Some(u64::MAX));
    assert_eq!(parse_number(b"18446744073709551616"), None);
    assert_eq!(parse_number(b"99999999999999999999999"), None);
    assert_eq!(parse_number(b"0000000000000000000000000000001"), Some(1));
}

#[test]
fn numerals() {
    for n in [0, 9, 10, 99, 100, 1234567890, u64::MAX] {
        let mut buf = b"x".to_vec();
        push_decimal(&mut buf, n);
        assert_eq!(buf, format!("x{}", n).into_bytes());
        assert_eq!(parse_number(&buf[1..]), Some(n));
        let mut buf = b"x".to_vec();
        push_hex(&mut buf, n);
        assert_eq!(buf, format!("x{:x}", n).into_bytes());
    }
    let mut buf = b"x".to_vec();
    push_text(&mut buf, "y\u{e9}");
    assert_eq!(buf, "xy\u{e9}".as_bytes());
}
