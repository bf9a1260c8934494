use torrent_core::decimal::{numeral_message, parse_i64, parse_usize, push_decimal, push_signed_decimal};

#[test]
fn parse_i64_follows_from_str() {
    for text in ["0", "+1", "-1", "007", "9223372036854775807", "-9223372036854775808", "", "+", "-", "1a", "9223372036854775808", "--1", " 1"] {
        assert_eq!(parse_i64(text.as_bytes()), text.parse::<i64>().ok(), "{:?}", text);
    }
}

#[test]
fn parse_usize_follows_from_str() {
    for text in ["0", "+1", "-1", "-0", "18446744073709551615", "18446744073709551616", "", "+", "12x"] {
        assert_eq!(parse_usize(text.as_bytes()), text.parse::<usize>().ok(), "{:?}", text);
    }
}

#[test]
fn numerals_follow_display() {
    for n in [0u64, 9, 10, 99, 100, 12345, u64::MAX] {
        let mut buf = Vec::new();
        push_decimal(&mut buf, n);
        assert_eq!(buf, n.to_string().into_bytes());
    }
    for i in [0i64, -1, 1, i64::MIN, i64::MAX, -100] {
        let mut buf = Vec::new();
        push_signed_decimal(&mut buf, i);
        assert_eq!(buf, i.to_string().into_bytes());
    }
    assert_eq!(numeral_message("at ", 507, " now"), "at 507 now");
}
