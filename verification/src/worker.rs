//! I/O worker decisions: what one queued outbound command turns into on the
//! wire. The two reserved sentinels are intercepted before generic encoding:
//! the reset sentinel becomes a sequence of control-line toggles and is never
//! transmitted nor logged as payload, the interrupt sentinel becomes a single
//! interrupt byte logged under a descriptive synthetic payload.
use vstd::prelude::*;

use crate::codec::interrupt_sentinel;
use crate::codec::is_interrupt_sentinel;
use crate::codec::is_reset_sentinel;
use crate::codec::reset_sentinel;
use crate::data::Packet;
use crate::data::PacketV;
use crate::data::SerialDirection;
use vstd::string::StringSliceAdditionalSpecFns;

verus! {

/// One step of the hardware reset sequence: drive a control line or wait.
#[derive(Clone, Copy, PartialEq, Eq, Structural, Debug)]
pub enum LineOp {
    SetDtr(bool),
    SetRts(bool),
    WaitMs(u64),
}

/// The fire-and-forget reset sequence: DTR low, a pulse on RTS with DTR
/// held low, and RTS released again, with two interleaved 100 ms waits.
pub open spec fn reset_ops() -> Seq<LineOp> {
    seq![
        LineOp::SetDtr(false),
        LineOp::WaitMs(100),
        LineOp::SetRts(true),
        LineOp::SetDtr(false),
        LineOp::SetRts(true),
        LineOp::WaitMs(100),
        LineOp::SetRts(false),
    ]
}

pub fn reset_sequence() -> (r: Vec<LineOp>)
    ensures
        r@ == reset_ops(),
{
    let mut r: Vec<LineOp> = Vec::new();
    r.push(LineOp::SetDtr(false));
    r.push(LineOp::WaitMs(100));
    r.push(LineOp::SetRts(true));
    r.push(LineOp::SetDtr(false));
    r.push(LineOp::SetRts(true));
    r.push(LineOp::WaitMs(100));
    r.push(LineOp::SetRts(false));
    proof {
        assert(r@ =~= reset_ops());
    }
    r
}

/// What the worker does with one outbound command.
pub enum WriteAction {
    /// Toggle control lines only; nothing is transmitted, nothing logged.
    Reset(Vec<LineOp>),
    /// Transmit the wire bytes and log the synthetic packet.
    Interrupt { wire: Vec<u8>, log: Packet },
    /// Transmit the wire bytes and log the command as a sent packet.
    Transmit { wire: Vec<u8>, log: Packet },
}

/// The mathematical value of a write action.
pub ghost enum WriteActionV {
    Reset(Seq<LineOp>),
    Interrupt { wire: Seq<u8>, log: PacketV },
    Transmit { wire: Seq<u8>, log: PacketV },
}

impl View for WriteAction {
    type V = WriteActionV;

    open spec fn view(&self) -> WriteActionV {
        match self {
            WriteAction::Reset(ops) => WriteActionV::Reset(ops@),
            WriteAction::Interrupt { wire, log } => WriteActionV::Interrupt {
                wire: wire@,
                log: log@,
            },
            WriteAction::Transmit { wire, log } => WriteActionV::Transmit {
                wire: wire@,
                log: log@,
            },
        }
    }
}

/// The bytes an action puts on the wire.
pub open spec fn wire_bytes(a: WriteActionV) -> Seq<u8> {
    match a {
        WriteActionV::Reset(_) => Seq::empty(),
        WriteActionV::Interrupt { wire, .. } => wire,
        WriteActionV::Transmit { wire, .. } => wire,
    }
}

/// The payload an action logs as a sent event, if any.
pub open spec fn logged_payload(a: WriteActionV) -> Option<Seq<char>> {
    match a {
        WriteActionV::Reset(_) => None,
        WriteActionV::Interrupt { log, .. } => Some(log.payload),
        WriteActionV::Transmit { log, .. } => Some(log.payload),
    }
}

/// The synthetic payload logged for the interrupt sentinel.
pub open spec fn interrupt_log_payload() -> Seq<char> {
    "Ctrl+R (0x03)"@
}

/// What one command turns into: the reset sentinel is matched by exact
/// string equality before the interrupt sentinel, which is matched before
/// generic transmission of the command's own bytes.
pub open spec fn plan_model(cmd: Seq<char>, cmd_bytes: Seq<u8>, rel: u64, abs: u64)
    -> WriteActionV {
    if cmd == reset_sentinel() {
        WriteActionV::Reset(reset_ops())
    } else if cmd == interrupt_sentinel() {
        WriteActionV::Interrupt {
            wire: seq![3u8],
            log: PacketV {
                direction: SerialDirection::Send,
                payload: interrupt_log_payload(),
                relative_time: rel,
                absolute_time: abs,
            },
        }
    } else {
        WriteActionV::Transmit {
            wire: cmd_bytes,
            log: PacketV {
                direction: SerialDirection::Send,
                payload: cmd,
                relative_time: rel,
                absolute_time: abs,
            },
        }
    }
}

/// Plans one queued outbound command, stamped with the elapsed and
/// wall-clock times the logged packet is to carry.
pub fn plan_write(cmd: &str, rel: u64, abs: u64) -> (a: WriteAction)
    ensures
        a@ == plan_model(cmd@, cmd.spec_bytes(), rel, abs),
{
    if is_reset_sentinel(cmd) {
        WriteAction::Reset(reset_sequence())
    } else if is_interrupt_sentinel(cmd) {
        let mut wire: Vec<u8> = Vec::new();
        wire.push(3u8);
        proof {
            assert(wire@ =~= seq![3u8]);
        }
        WriteAction::Interrupt {
            wire,
            log: Packet {
                direction: SerialDirection::Send,
                payload: String::from_str("Ctrl+R (0x03)"),
                relative_time: rel,
                absolute_time: abs,
            },
        }
    } else {
        WriteAction::Transmit {
            wire: cmd.as_bytes_vec(),
            log: Packet {
                direction: SerialDirection::Send,
                payload: cmd.to_owned(),
                relative_time: rel,
                absolute_time: abs,
            },
        }
    }
}

/// Sentinel exclusion: a planned reset transmits nothing and logs nothing,
/// and a planned interrupt transmits the single interrupt byte and logs a
/// payload that is neither sentinel string, so neither sentinel ever
/// appears verbatim as the bytes on the wire or as a sent-event payload.
pub proof fn lemma_sentinel_exclusion(cmd_bytes: Seq<u8>, rel: u64, abs: u64)
    ensures
        wire_bytes(plan_model(reset_sentinel(), cmd_bytes, rel, abs)).len() == 0,
        logged_payload(plan_model(reset_sentinel(), cmd_bytes, rel, abs)) is None,
        wire_bytes(plan_model(interrupt_sentinel(), cmd_bytes, rel, abs)) == seq![3u8],
        logged_payload(plan_model(interrupt_sentinel(), cmd_bytes, rel, abs))
            != Some(interrupt_sentinel()),
        logged_payload(plan_model(interrupt_sentinel(), cmd_bytes, rel, abs))
            != Some(reset_sentinel()),
{
    reveal_strlit("__RESET__\r\n");
    reveal_strlit("__CTRLC__\r\n");
    reveal_strlit("Ctrl+R (0x03)");
    assert(reset_sentinel()[2] == 'R');
    assert(interrupt_sentinel()[2] == 'C');
    assert(interrupt_log_payload().len() == 13);
    assert(interrupt_sentinel().len() == 11);
    assert(reset_sentinel().len() == 11);
}

} // verus!
