use serial_monitor::data::Packet;
use serial_monitor::data::SerialDirection;
use serial_monitor::data::console_text;
use serial_monitor::numeric::is_numeric_token;
use serial_monitor::text::parse_u64;
use serial_monitor::text::trim_of;
use serial_monitor::text::u64_to_string;

#[test]
fn decimal_rendering_is_exact() {
    assert_eq!(u64_to_string(0), "0");
    assert_eq!(u64_to_string(7), "7");
    assert_eq!(u64_to_string(1000), "1000");
    assert_eq!(u64_to_string(18446744073709551615), "18446744073709551615");
}

#[test]
fn decimal_parsing_is_exact_and_total_on_digits() {
    assert_eq!(parse_u64("0"), Some(0));
    assert_eq!(parse_u64("0100"), Some(100));
    assert_eq!(parse_u64("18446744073709551615"), Some(u64::MAX));
    assert_eq!(parse_u64("18446744073709551616"), None);
    assert_eq!(parse_u64(""), None);
    assert_eq!(parse_u64("1.0"), None);
    assert_eq!(parse_u64("-1"), None);
}

#[test]
fn trim_removes_surrounding_whitespace_only() {
    assert_eq!(trim_of("  a b \t"), "a b");
    assert_eq!(trim_of("\r\n1.5\r\n"), "1.5");
    assert_eq!(trim_of(""), "");
    assert_eq!(trim_of("   "), "");
}

#[test]
fn numeric_tokens_follow_the_float_grammar() {
    for good in [
        "1", "1.5", "1.", ".5", "+5", "-0.25", "1e5", "1.2e-3", "3E+7", "inf", "+inf",
        "-INF", "NaN", "infinity", "Infinity",
    ] {
        assert!(is_numeric_token(good), "{good} must parse");
    }
    for bad in [
        "", ".", "e5", "1e", "1e+", "--1", "1.2.3", "0x1A", "one", "infi", "nanx", "1 2",
        "+", "-",
    ] {
        assert!(!is_numeric_token(bad), "{bad} must not parse");
    }
}

#[test]
fn console_shows_received_lines_plainly() {
    let p = Packet {
        direction: SerialDirection::Receive,
        payload: "hello".to_string(),
        relative_time: 1234,
        absolute_time: 0,
    };
    assert_eq!(console_text(false, false, &p), Some("hello\n".to_string()));
    assert_eq!(console_text(false, true, &p), Some("t + 1.234s: hello\n".to_string()));
    assert_eq!(
        console_text(true, true, &p),
        Some("[RECV] t + 1.234s: hello\n".to_string())
    );
}

#[test]
fn console_hides_sent_lines_unless_asked() {
    let p = Packet {
        direction: SerialDirection::Send,
        payload: "go".to_string(),
        relative_time: 50,
        absolute_time: 0,
    };
    assert_eq!(console_text(false, false, &p), None);
    assert_eq!(console_text(false, true, &p), None);
    assert_eq!(console_text(true, false, &p), Some("[SEND]: go\n".to_string()));
    assert_eq!(console_text(true, true, &p), Some("[SEND] t + 0.050s: go\n".to_string()));
}
