use serial_monitor::data::SerialDirection;
use serial_monitor::worker::LineOp;
use serial_monitor::worker::WriteAction;
use serial_monitor::worker::plan_write;
use serial_monitor::worker::reset_sequence;

#[test]
fn reset_sequence_toggles_lines_with_two_waits() {
    let ops = reset_sequence();
    assert_eq!(
        ops,
        vec![
            LineOp::SetDtr(false),
            LineOp::WaitMs(100),
            LineOp::SetRts(true),
            LineOp::SetDtr(false),
            LineOp::SetRts(true),
            LineOp::WaitMs(100),
            LineOp::SetRts(false),
        ]
    );
}

#[test]
fn reset_sentinel_transmits_nothing() {
    match plan_write("__RESET__\r\n", 5, 6) {
        WriteAction::Reset(ops) => {
            assert_eq!(ops, reset_sequence());
        }
        _ => panic!("reset sentinel must become a reset sequence"),
    }
}

#[test]
fn interrupt_sentinel_sends_one_byte_with_synthetic_log() {
    match plan_write("__CTRLC__\r\n", 7, 8) {
        WriteAction::Interrupt { wire, log } => {
            assert_eq!(wire, vec![0x03u8]);
            assert_eq!(log.payload, "Ctrl+R (0x03)");
            assert_ne!(log.payload, "__CTRLC__\r\n");
            assert_eq!(log.direction, SerialDirection::Send);
            assert_eq!(log.relative_time, 7);
            assert_eq!(log.absolute_time, 8);
        }
        _ => panic!("interrupt sentinel must become an interrupt"),
    }
}

#[test]
fn ordinary_command_is_transmitted_verbatim() {
    match plan_write("hi\r\n", 1, 2) {
        WriteAction::Transmit { wire, log } => {
            assert_eq!(wire, b"hi\r\n".to_vec());
            assert_eq!(log.payload, "hi\r\n");
            assert_eq!(log.direction, SerialDirection::Send);
        }
        _ => panic!("ordinary command must be transmitted"),
    }
}
