use serial_monitor::codec::decode_lines;
use serial_monitor::codec::encode;
use serial_monitor::codec::is_interrupt_sentinel;
use serial_monitor::codec::is_reset_sentinel;
use serial_monitor::codec::unescape_eol;

#[test]
fn unescape_translates_cr_and_lf_tokens() {
    assert_eq!(unescape_eol("\\r\\n"), "\r\n");
    assert_eq!(unescape_eol("\\n"), "\n");
    assert_eq!(unescape_eol("x\\ry"), "x\ry");
}

#[test]
fn unescape_leaves_other_escapes_alone() {
    assert_eq!(unescape_eol("a\\b"), "a\\b");
    assert_eq!(unescape_eol("\\"), "\\");
    assert_eq!(unescape_eol(""), "");
}

#[test]
fn encode_appends_translated_eol() {
    assert_eq!(encode("hello", "\\r\\n"), "hello\r\n");
    assert_eq!(encode("cmd", ";"), "cmd;");
    assert_eq!(encode("", "\\n"), "\n");
}

#[test]
fn decode_splits_on_crlf() {
    assert_eq!(decode_lines("a\r\nb\r\n"), vec!["a", "b"]);
    assert_eq!(decode_lines("a\r\nb"), vec!["a", "b"]);
    assert_eq!(decode_lines("a\r\n\r\nb"), vec!["a", "", "b"]);
}

#[test]
fn decode_without_terminator_yields_whole_buffer() {
    assert_eq!(decode_lines("ab"), vec!["ab"]);
    assert!(decode_lines("").is_empty());
}

#[test]
fn decode_falls_back_to_double_nul() {
    assert_eq!(decode_lines("x\0\0y"), vec!["x", "y"]);
    assert_eq!(decode_lines("x\0\0y\0\0"), vec!["x", "y"]);
}

#[test]
fn decode_prefers_crlf_over_fallback() {
    assert_eq!(decode_lines("x\0\0y\r\n"), vec!["x\0\0y"]);
}

#[test]
fn sentinels_are_matched_exactly() {
    assert!(is_reset_sentinel("__RESET__\r\n"));
    assert!(!is_reset_sentinel("__RESET__"));
    assert!(is_interrupt_sentinel("__CTRLC__\r\n"));
    assert!(!is_interrupt_sentinel("__RESET__\r\n"));
}
