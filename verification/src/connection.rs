//! Connection manager decisions: which endpoint to open while searching
//! (reconnection memory wins over the configured endpoint) and how a held
//! connection ends (user intent or physical disappearance), together with
//! the state updates each outcome demands.
use vstd::prelude::*;

use crate::text::name_in_list;
use crate::text::str_eq;

verus! {

#[derive(Clone, Copy, PartialEq, Eq, Structural, Debug)]
pub enum DataBits {
    Five,
    Six,
    Seven,
    Eight,
}

#[derive(Clone, Copy, PartialEq, Eq, Structural, Debug)]
pub enum Parity {
    NoParity,
    Odd,
    Even,
}

#[derive(Clone, Copy, PartialEq, Eq, Structural, Debug)]
pub enum StopBits {
    One,
    Two,
}

#[derive(Clone, Copy, PartialEq, Eq, Structural, Debug)]
pub enum FlowControl {
    NoFlow,
    Software,
    Hardware,
}

/// An addressable serial endpoint and its link parameters.
pub struct Device {
    pub name: String,
    pub baud_rate: u32,
    pub data_bits: DataBits,
    pub flow_control: FlowControl,
    pub parity: Parity,
    pub stop_bits: StopBits,
    pub timeout_ms: u64,
}

/// The mathematical value of an endpoint descriptor.
pub ghost struct DeviceV {
    pub name: Seq<char>,
    pub baud_rate: u32,
    pub data_bits: DataBits,
    pub flow_control: FlowControl,
    pub parity: Parity,
    pub stop_bits: StopBits,
    pub timeout_ms: u64,
}

impl View for Device {
    type V = DeviceV;

    open spec fn view(&self) -> DeviceV {
        DeviceV {
            name: self.name@,
            baud_rate: self.baud_rate,
            data_bits: self.data_bits,
            flow_control: self.flow_control,
            parity: self.parity,
            stop_bits: self.stop_bits,
            timeout_ms: self.timeout_ms,
        }
    }
}

impl DeepView for Device {
    type V = DeviceV;

    open spec fn deep_view(&self) -> DeviceV {
        self.view()
    }
}

/// The descriptor of a not-yet-selected endpoint: no name, 9600 baud,
/// eight data bits, one stop bit, no parity, no flow control, zero timeout.
pub open spec fn default_device() -> DeviceV {
    DeviceV {
        name: Seq::empty(),
        baud_rate: 9600,
        data_bits: DataBits::Eight,
        flow_control: FlowControl::NoFlow,
        parity: Parity::NoParity,
        stop_bits: StopBits::One,
        timeout_ms: 0,
    }
}

impl Default for Device {
    fn default() -> (d: Device)
        ensures
            d@ == default_device(),
    {
        let d = Device {
            name: String::new(),
            baud_rate: 9600,
            data_bits: DataBits::Eight,
            flow_control: FlowControl::NoFlow,
            parity: Parity::NoParity,
            stop_bits: StopBits::One,
            timeout_ms: 0,
        };
        proof {
            assert(d@.name =~= default_device().name);
        }
        d
    }
}

impl Device {
    /// A copy of the descriptor, equal to it.
    pub fn duplicate(&self) -> (r: Device)
        ensures
            r@ == self@,
    {
        Device {
            name: self.name.clone(),
            baud_rate: self.baud_rate,
            data_bits: self.data_bits,
            flow_control: self.flow_control,
            parity: self.parity,
            stop_bits: self.stop_bits,
            timeout_ms: self.timeout_ms,
        }
    }
}

/// Resolves which endpoint to open this poll cycle, from the enumerated
/// live endpoints, the consumer-configured endpoint and the reconnection
/// memory. The memory endpoint wins whenever it is present in the live
/// set, so a dropped device is preferred once it reappears; otherwise the
/// configured endpoint is chosen if present; otherwise the search goes on.
pub fn get_device(live: &Vec<String>, configured: &Device, memory: &Device) -> (r: Option<
    Device,
>)
    ensures
        live.deep_view().contains(memory@.name) ==> (r matches Some(d) && d@ == memory@),
        !live.deep_view().contains(memory@.name) && live.deep_view().contains(configured@.name)
            ==> (r matches Some(d) && d@ == configured@),
        !live.deep_view().contains(memory@.name) && !live.deep_view().contains(configured@.name)
            ==> r is None,
{
    if name_in_list(live, memory.name.as_str()) {
        Some(memory.duplicate())
    } else if name_in_list(live, configured.name.as_str()) {
        Some(configured.duplicate())
    } else {
        None
    }
}

/// How a held connection ended this poll cycle, if it did.
#[derive(Clone, Copy, PartialEq, Eq, Structural, Debug)]
pub enum DisconnectKind {
    /// The session endpoint is still configured and still enumerated.
    Connected,
    /// The consumer changed or cleared the configured endpoint name.
    UserRequested,
    /// The session endpoint disappeared from the enumerated set.
    DeviceLost,
}

/// Classifies the state of the held connection: an explicit disconnect is
/// detected by the configured name differing from the name captured at
/// connect time, a physical one by the session endpoint missing from the
/// live set.
pub fn disconnected(session: &Device, configured_name: &str, live: &Vec<String>) -> (r:
    DisconnectKind)
    ensures
        (r == DisconnectKind::UserRequested) == (session@.name != configured_name@),
        (r == DisconnectKind::DeviceLost) == (session@.name == configured_name@
            && !live.deep_view().contains(session@.name)),
        (r == DisconnectKind::Connected) == (session@.name == configured_name@
            && live.deep_view().contains(session@.name)),
{
    if !str_eq(session.name.as_str(), configured_name) {
        DisconnectKind::UserRequested
    } else if !name_in_list(live, session.name.as_str()) {
        DisconnectKind::DeviceLost
    } else {
        DisconnectKind::Connected
    }
}

/// The state update a disconnect demands: the new reconnection memory and
/// whether the configured endpoint name is to be cleared. A user-requested
/// disconnect clears the memory, so no automatic reconnect follows; a lost
/// device becomes the memory and its configured name is cleared, so the
/// search prefers it once it reappears.
pub fn after_disconnect(kind: DisconnectKind, session: &Device) -> (r: (Device, bool))
    requires
        kind != DisconnectKind::Connected,
    ensures
        kind == DisconnectKind::UserRequested ==> r.0@ == default_device() && r.1 == false,
        kind == DisconnectKind::DeviceLost ==> r.0@ == session@ && r.1 == true,
{
    match kind {
        DisconnectKind::UserRequested => (Device::default(), false),
        DisconnectKind::DeviceLost => (session.duplicate(), true),
        DisconnectKind::Connected => (session.duplicate(), false),
    }
}


/// The fixed set of standard baud rates offered for an endpoint.
pub open spec fn standard_bauds() -> Seq<u32> {
    seq![
        300u32, 1200, 2400, 4800, 9600, 19200, 38400, 57600, 74880, 115200, 230400, 128000,
        460800, 576000, 921600,
    ]
}

pub fn standard_baud_rates() -> (r: Vec<u32>)
    ensures
        r@ == standard_bauds(),
{
    let mut r: Vec<u32> = Vec::new();
    r.push(300);
    r.push(1200);
    r.push(2400);
    r.push(4800);
    r.push(9600);
    r.push(19200);
    r.push(38400);
    r.push(57600);
    r.push(74880);
    r.push(115200);
    r.push(230400);
    r.push(128000);
    r.push(460800);
    r.push(576000);
    r.push(921600);
    proof {
        assert(r@ =~= standard_bauds());
    }
    r
}

} // verus!
