//! The exchanged units (packets) and the aggregated dataset that the
//! consumer snapshots: an ordered time axis, equal-length numeric columns,
//! the append-only raw-event log and the file-origin flag.
use vstd::prelude::*;

use crate::text::dec_str;
use crate::text::u64_to_string;

verus! {

/// Direction of one exchanged unit on the serial link.
#[derive(Clone, Copy, PartialEq, Eq, Structural, Debug)]
pub enum SerialDirection {
    Send,
    Receive,
}

/// One exchanged unit: direction, payload text, time offset since the
/// connection started and wall-clock time, both in milliseconds.
pub struct Packet {
    pub direction: SerialDirection,
    pub payload: String,
    pub relative_time: u64,
    pub absolute_time: u64,
}

/// The mathematical value of a packet.
pub ghost struct PacketV {
    pub direction: SerialDirection,
    pub payload: Seq<char>,
    pub relative_time: u64,
    pub absolute_time: u64,
}

impl View for Packet {
    type V = PacketV;

    open spec fn view(&self) -> PacketV {
        PacketV {
            direction: self.direction,
            payload: self.payload@,
            relative_time: self.relative_time,
            absolute_time: self.absolute_time,
        }
    }
}

impl DeepView for Packet {
    type V = PacketV;

    open spec fn deep_view(&self) -> PacketV {
        self.view()
    }
}

impl Packet {
    /// A copy of the packet, equal to it.
    pub fn duplicate(&self) -> (r: Packet)
        ensures
            r@ == self@,
    {
        Packet {
            direction: self.direction,
            payload: self.payload.clone(),
            relative_time: self.relative_time,
            absolute_time: self.absolute_time,
        }
    }
}

/// The authoritative aggregated state: relative and wall-clock time axes,
/// one vector per column (samples carried as their token text), the raw
/// event log, and whether the data came from a loaded file.
pub struct DataContainer {
    pub time: Vec<u64>,
    pub absolute_time: Vec<u64>,
    pub dataset: Vec<Vec<String>>,
    pub raw_traffic: Vec<Packet>,
    pub loaded_from_file: bool,
}

/// The mathematical value of the aggregated dataset.
pub ghost struct DataV {
    pub time: Seq<u64>,
    pub absolute_time: Seq<u64>,
    pub dataset: Seq<Seq<Seq<char>>>,
    pub raw_traffic: Seq<PacketV>,
    pub loaded_from_file: bool,
}

impl View for DataContainer {
    type V = DataV;

    open spec fn view(&self) -> DataV {
        DataV {
            time: self.time@,
            absolute_time: self.absolute_time@,
            dataset: self.dataset.deep_view(),
            raw_traffic: self.raw_traffic.deep_view(),
            loaded_from_file: self.loaded_from_file,
        }
    }
}

/// The dataset one gets from a fresh start or a clear: everything empty,
/// live origin.
pub open spec fn empty_data() -> DataV {
    DataV {
        time: Seq::empty(),
        absolute_time: Seq::empty(),
        dataset: Seq::empty(),
        raw_traffic: Seq::empty(),
        loaded_from_file: false,
    }
}

/// A dataset is in a stable format epoch when both time axes and every
/// column have the same length.
pub open spec fn data_wf(d: DataV) -> bool {
    &&& d.absolute_time.len() == d.time.len()
    &&& forall|i: int| 0 <= i < d.dataset.len() ==> (#[trigger] d.dataset[i]).len() == d.time.len()
}

impl DataContainer {
    pub open spec fn wf(&self) -> bool {
        data_wf(self@)
    }
}

impl Default for DataContainer {
    fn default() -> (d: DataContainer)
        ensures
            d@ == empty_data(),
            d.wf(),
    {
        let d = DataContainer {
            time: Vec::new(),
            absolute_time: Vec::new(),
            dataset: Vec::new(),
            raw_traffic: Vec::new(),
            loaded_from_file: false,
        };
        proof {
            assert(d@.time =~= empty_data().time);
            assert(d@.absolute_time =~= empty_data().absolute_time);
            assert(d@.dataset =~= empty_data().dataset);
            assert(d@.raw_traffic =~= empty_data().raw_traffic);
        }
        d
    }
}

/// The console label of a direction.
pub open spec fn direction_label(d: SerialDirection) -> Seq<char> {
    match d {
        SerialDirection::Send => "SEND"@,
        SerialDirection::Receive => "RECV"@,
    }
}

pub fn direction_label_of(d: SerialDirection) -> (r: String)
    ensures
        r@ == direction_label(d),
{
    match d {
        SerialDirection::Send => String::from_str("SEND"),
        SerialDirection::Receive => String::from_str("RECV"),
    }
}

/// A millisecond count shown as seconds with three decimal places.
pub open spec fn seconds_str(ms: u64) -> Seq<char> {
    dec_str((ms / 1000) as nat) + "."@ + pad3((ms % 1000) as nat)
}

pub open spec fn pad3(r: nat) -> Seq<char> {
    if r < 10 {
        "00"@ + dec_str(r)
    } else if r < 100 {
        "0"@ + dec_str(r)
    } else {
        dec_str(r)
    }
}

fn seconds_of(ms: u64) -> (s: String)
    ensures
        s@ == seconds_str(ms),
{
    let mut s = u64_to_string(ms / 1000);
    s.append(".");
    let r = ms % 1000;
    if r < 10 {
        s.append("00");
    } else if r < 100 {
        s.append("0");
    }
    let tail = u64_to_string(r);
    s.append(tail.as_str());
    proof {
        assert(s@ =~= seconds_str(ms));
    }
    s
}

/// The text a packet contributes to the console view, depending on whether
/// sent commands and timestamps are shown; sent packets are hidden when
/// `show_sent` is off.
pub open spec fn console_model(show_sent: bool, show_ts: bool, p: PacketV) -> Option<Seq<char>> {
    if show_sent && show_ts {
        Some(
            "["@ + direction_label(p.direction) + "] t + "@ + seconds_str(p.relative_time)
                + "s: "@ + p.payload + "\n"@,
        )
    } else if show_sent {
        Some("["@ + direction_label(p.direction) + "]: "@ + p.payload + "\n"@)
    } else if show_ts && p.direction == SerialDirection::Receive {
        Some("t + "@ + seconds_str(p.relative_time) + "s: "@ + p.payload + "\n"@)
    } else if !show_ts && p.direction == SerialDirection::Receive {
        Some(p.payload + "\n"@)
    } else {
        None
    }
}

/// Renders one packet for the console view.
pub fn console_text(show_sent: bool, show_ts: bool, p: &Packet) -> (r: Option<String>)
    ensures
        match r {
            Some(s) => console_model(show_sent, show_ts, p@) == Some(s@),
            None => console_model(show_sent, show_ts, p@) is None,
        },
{
    if show_sent && show_ts {
        let mut s = String::from_str("[");
        let lab = direction_label_of(p.direction);
        s.append(lab.as_str());
        s.append("] t + ");
        let secs = seconds_of(p.relative_time);
        s.append(secs.as_str());
        s.append("s: ");
        s.append(p.payload.as_str());
        s.append("\n");
        proof {
            assert(s@ =~= console_model(show_sent, show_ts, p@)->Some_0);
        }
        Some(s)
    } else if show_sent {
        let mut s = String::from_str("[");
        let lab = direction_label_of(p.direction);
        s.append(lab.as_str());
        s.append("]: ");
        s.append(p.payload.as_str());
        s.append("\n");
        proof {
            assert(s@ =~= console_model(show_sent, show_ts, p@)->Some_0);
        }
        Some(s)
    } else if p.direction == SerialDirection::Receive {
        if show_ts {
            let mut s = String::from_str("t + ");
            let secs = seconds_of(p.relative_time);
            s.append(secs.as_str());
            s.append("s: ");
            s.append(p.payload.as_str());
            s.append("\n");
            proof {
                assert(s@ =~= console_model(show_sent, show_ts, p@)->Some_0);
            }
            Some(s)
        } else {
            let mut s = p.payload.clone();
            s.append("\n");
            proof {
                assert(s@ =~= console_model(show_sent, show_ts, p@)->Some_0);
            }
            Some(s)
        }
    } else {
        None
    }
}


fn copy_u64s(v: &Vec<u64>) -> (r: Vec<u64>)
    ensures
        r@ == v@,
{
    let mut r: Vec<u64> = Vec::new();
    let mut i: usize = 0;
    while i < v.len()
        invariant
            0 <= i <= v@.len(),
            r@ =~= v@.subrange(0, i as int),
        decreases v@.len() - i,
    {
        r.push(v[i]);
        proof {
            assert(r@ =~= v@.subrange(0, i as int + 1));
        }
        i = i + 1;
    }
    proof {
        assert(v@.subrange(0, v@.len() as int) =~= v@);
    }
    r
}

fn copy_strings(v: &Vec<String>) -> (r: Vec<String>)
    ensures
        r.deep_view() == v.deep_view(),
{
    let mut r: Vec<String> = Vec::new();
    let mut i: usize = 0;
    while i < v.len()
        invariant
            0 <= i <= v@.len(),
            r.deep_view() =~= v.deep_view().subrange(0, i as int),
        decreases v@.len() - i,
    {
        let ghost pre = r.deep_view();
        r.push(v[i].clone());
        proof {
            assert(v.deep_view()[i as int] == v@[i as int]@);
            assert(r.deep_view() =~= pre.push(v.deep_view()[i as int]));
            assert(r.deep_view() =~= v.deep_view().subrange(0, i as int + 1));
        }
        i = i + 1;
    }
    proof {
        assert(v.deep_view().subrange(0, v.deep_view().len() as int) =~= v.deep_view());
        assert(r.deep_view() =~= v.deep_view());
    }
    r
}

impl DataContainer {
    /// The read-only copy the consumer holds: equal to the live dataset,
    /// never a reference into it.
    pub fn snapshot(&self) -> (r: DataContainer)
        ensures
            r@ == self@,
    {
        let time = copy_u64s(&self.time);
        let absolute_time = copy_u64s(&self.absolute_time);
        let mut dataset: Vec<Vec<String>> = Vec::new();
        let mut i: usize = 0;
        while i < self.dataset.len()
            invariant
                0 <= i <= self.dataset@.len(),
                dataset.deep_view() =~= self.dataset.deep_view().subrange(0, i as int),
            decreases self.dataset@.len() - i,
        {
            let ghost pre = dataset.deep_view();
            let col = copy_strings(&self.dataset[i]);
            dataset.push(col);
            proof {
                assert(self.dataset.deep_view()[i as int] == self.dataset@[i as int].deep_view());
                assert(dataset.deep_view() =~= pre.push(self.dataset.deep_view()[i as int]));
                assert(dataset.deep_view()
                    =~= self.dataset.deep_view().subrange(0, i as int + 1));
            }
            i = i + 1;
        }
        let mut raw_traffic: Vec<Packet> = Vec::new();
        let mut k: usize = 0;
        while k < self.raw_traffic.len()
            invariant
                0 <= k <= self.raw_traffic@.len(),
                raw_traffic.deep_view() =~= self.raw_traffic.deep_view().subrange(0, k as int),
            decreases self.raw_traffic@.len() - k,
        {
            let ghost pre = raw_traffic.deep_view();
            let p = self.raw_traffic[k].duplicate();
            raw_traffic.push(p);
            proof {
                assert(self.raw_traffic.deep_view()[k as int] == self.raw_traffic@[k as int]@);
                assert(raw_traffic.deep_view()
                    =~= pre.push(self.raw_traffic.deep_view()[k as int]));
                assert(raw_traffic.deep_view()
                    =~= self.raw_traffic.deep_view().subrange(0, k as int + 1));
            }
            k = k + 1;
        }
        let r = DataContainer {
            time,
            absolute_time,
            dataset,
            raw_traffic,
            loaded_from_file: self.loaded_from_file,
        };
        proof {
            assert(self.dataset.deep_view().subrange(0, self.dataset.deep_view().len() as int)
                =~= self.dataset.deep_view());
            assert(self.raw_traffic.deep_view().subrange(0,
                self.raw_traffic.deep_view().len() as int) =~= self.raw_traffic.deep_view());
            assert(r@.dataset =~~= self@.dataset);
            assert(r@.raw_traffic =~= self@.raw_traffic);
        }
        r
    }
}

} // verus!
