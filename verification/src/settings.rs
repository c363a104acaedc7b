//! Device-history persisted state: the previously used endpoint
//! descriptors with, per descriptor, the saved plot count, highlight-rule
//! count, highlight strings and display labels. Loaded at startup and
//! rewritten whenever a descriptor's settings change or a new descriptor
//! is first used; the on-disk exchange itself is the caller's part.
use vstd::prelude::*;

use crate::connection::Device;
use crate::connection::DeviceV;
use crate::connection::default_device;
use crate::text::str_eq;

verus! {

/// The persisted device history: five parallel lists, one entry per
/// previously used endpoint.
pub struct SerialDevices {
    pub devices: Vec<Device>,
    pub labels: Vec<Vec<String>>,
    pub highlight_labels: Vec<Vec<String>>,
    pub number_of_plots: Vec<usize>,
    pub number_of_highlights: Vec<usize>,
}

/// The mathematical value of the device history.
pub ghost struct SerialDevicesV {
    pub devices: Seq<DeviceV>,
    pub labels: Seq<Seq<Seq<char>>>,
    pub highlight_labels: Seq<Seq<Seq<char>>>,
    pub number_of_plots: Seq<usize>,
    pub number_of_highlights: Seq<usize>,
}

impl View for SerialDevices {
    type V = SerialDevicesV;

    open spec fn view(&self) -> SerialDevicesV {
        SerialDevicesV {
            devices: self.devices.deep_view(),
            labels: self.labels.deep_view(),
            highlight_labels: self.highlight_labels.deep_view(),
            number_of_plots: self.number_of_plots@,
            number_of_highlights: self.number_of_highlights@,
        }
    }
}

/// The lists run in parallel: one entry of each per device.
pub open spec fn serial_devices_wf(s: SerialDevicesV) -> bool {
    &&& s.labels.len() == s.devices.len()
    &&& s.highlight_labels.len() == s.devices.len()
    &&& s.number_of_plots.len() == s.devices.len()
    &&& s.number_of_highlights.len() == s.devices.len()
}

/// The history a fresh installation starts from: one unnamed default
/// device with one plot, one highlight slot, one column label.
pub open spec fn default_serial_devices() -> SerialDevicesV {
    SerialDevicesV {
        devices: seq![default_device()],
        labels: seq![seq!["Column 0"@]],
        highlight_labels: seq![seq![""@]],
        number_of_plots: seq![1usize],
        number_of_highlights: seq![1usize],
    }
}

impl SerialDevices {
    pub open spec fn wf(&self) -> bool {
        serial_devices_wf(self@)
    }
}

impl Default for SerialDevices {
    fn default() -> (s: SerialDevices)
        ensures
            s@ == default_serial_devices(),
            s.wf(),
    {
        let mut devices: Vec<Device> = Vec::new();
        devices.push(Device::default());
        let mut label_row: Vec<String> = Vec::new();
        label_row.push(String::from_str("Column 0"));
        let mut labels: Vec<Vec<String>> = Vec::new();
        labels.push(label_row);
        let mut highlight_row: Vec<String> = Vec::new();
        highlight_row.push(String::new());
        let mut highlight_labels: Vec<Vec<String>> = Vec::new();
        highlight_labels.push(highlight_row);
        let mut number_of_plots: Vec<usize> = Vec::new();
        number_of_plots.push(1);
        let mut number_of_highlights: Vec<usize> = Vec::new();
        number_of_highlights.push(1);
        let s = SerialDevices {
            devices,
            labels,
            highlight_labels,
            number_of_plots,
            number_of_highlights,
        };
        proof {
            reveal_strlit("");
            assert(""@ =~= Seq::<char>::empty());
            assert(s@.devices =~~= default_serial_devices().devices);
            assert(s@.labels =~~= default_serial_devices().labels);
            assert(s@.highlight_labels =~~= default_serial_devices().highlight_labels);
            assert(s@.number_of_plots =~= default_serial_devices().number_of_plots);
            assert(s@.number_of_highlights =~= default_serial_devices().number_of_highlights);
        }
        s
    }
}

/// The settings to persist in place of whatever is stored: the defaults,
/// so the stored history is wiped.
pub fn clear_serial_settings() -> (s: SerialDevices)
    ensures
        s@ == default_serial_devices(),
        s.wf(),
{
    SerialDevices::default()
}

/// Selects the history entry for an endpoint name, creating it first when
/// the name is new: a new entry starts from the default device with the
/// given name, one plot, one highlight slot and one column label. Returns
/// the entry's index; an existing history is never rewritten, and a new
/// name is always appended at the end.
pub fn select_device(sd: &mut SerialDevices, name: &str) -> (idx: usize)
    requires
        old(sd).wf(),
    ensures
        final(sd).wf(),
        idx < final(sd)@.devices.len(),
        ({
            let devs = old(sd)@.devices;
            if exists|i: int| 0 <= i < devs.len() && (#[trigger] devs[i]).name == name@ {
                &&& final(sd)@ == old(sd)@
                &&& devs[idx as int].name == name@
                &&& forall|j: int| idx < j < devs.len() ==> (#[trigger] devs[j]).name != name@
            } else {
                &&& idx == devs.len()
                &&& final(sd)@.devices == devs.push(
                    DeviceV { name: name@, ..default_device() },
                )
                &&& final(sd)@.labels == old(sd)@.labels.push(seq!["Column 0"@])
                &&& final(sd)@.highlight_labels == old(sd)@.highlight_labels.push(seq![""@])
                &&& final(sd)@.number_of_plots == old(sd)@.number_of_plots.push(1usize)
                &&& final(sd)@.number_of_highlights == old(sd)@.number_of_highlights.push(1usize)
            }
        }),
{
    let ghost devs = sd@.devices;
    let mut found = false;
    let mut idx: usize = 0;
    let mut i: usize = 0;
    while i < sd.devices.len()
        invariant
            0 <= i <= sd.devices@.len(),
            devs == sd@.devices,
            sd.wf(),
            found == (exists|k: int| 0 <= k < i && (#[trigger] devs[k]).name == name@),
            found ==> idx < i && devs[idx as int].name == name@
                && (forall|j: int| idx < j < i ==> (#[trigger] devs[j]).name != name@),
            !found ==> idx == 0,
        decreases sd.devices@.len() - i,
    {
        proof {
            assert(devs[i as int] == sd.devices@[i as int]@);
        }
        if str_eq(sd.devices[i].name.as_str(), name) {
            found = true;
            idx = i;
        }
        i = i + 1;
    }
    if found {
        idx
    } else {
        let mut device = Device::default();
        device.name = name.to_owned();
        let last = sd.devices.len();
        let ghost pre = sd@;
        sd.devices.push(device);
        let mut label_row: Vec<String> = Vec::new();
        label_row.push(String::from_str("Column 0"));
        sd.labels.push(label_row);
        let mut highlight_row: Vec<String> = Vec::new();
        highlight_row.push(String::new());
        sd.highlight_labels.push(highlight_row);
        sd.number_of_plots.push(1);
        sd.number_of_highlights.push(1);
        proof {
            reveal_strlit("");
            assert(""@ =~= Seq::<char>::empty());
            assert(sd@.devices =~~= pre.devices.push(
                DeviceV { name: name@, ..default_device() },
            ));
            assert(sd@.labels =~~= pre.labels.push(seq!["Column 0"@]));
            assert(sd@.highlight_labels =~~= pre.highlight_labels.push(seq![""@]));
            assert(sd@.number_of_plots =~= pre.number_of_plots.push(1usize));
            assert(sd@.number_of_highlights =~= pre.number_of_highlights.push(1usize));
        }
        last
    }
}

} // verus!
