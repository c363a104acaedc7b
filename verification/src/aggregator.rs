//! The data aggregator: tokenizes received payloads into numeric samples,
//! maintains the fixed-width format epoch with its malformed-frame counter,
//! and appends to the authoritative time series and raw-event log.
use vstd::prelude::*;

use crate::data::DataContainer;
use crate::data::DataV;
use crate::data::Packet;
use crate::data::PacketV;
use crate::data::SerialDirection;
use crate::data::data_wf;
use crate::data::empty_data;
use crate::numeric::is_numeric;
use crate::numeric::is_numeric_token;
use crate::persist::FileOptions;
use crate::persist::LoadError;
use crate::persist::LoadedFile;
use crate::persist::ext_of;
use crate::persist::extension_of;
use crate::persist::lemma_load_model_wf;
use crate::persist::load_model;
use crate::persist::open_from_csv;
use crate::persist::save_model;
use crate::persist::save_raw_model;
use crate::persist::save_raw_csv;
use crate::persist::save_to_csv;
use crate::text::str_eq;
use crate::text::trim_spec;
use crate::text::trim_of;

verus! {

/// Consecutive malformed frames tolerated before the format epoch is
/// re-derived.
pub const MALFORMED_THRESHOLD: u64 = 10;

/// Payload tokens are separated by colons (groups) and commas (values).
pub open spec fn is_delim(c: char) -> bool {
    c == ':' || c == ','
}

/// The numeric samples of a payload: the payload is split on the group and
/// value delimiters, each token is trimmed, and the tokens that are not
/// floating-point literals are silently discarded. `cur` accumulates the
/// token being read.
pub open spec fn samples_acc(s: Seq<char>, cur: Seq<char>) -> Seq<Seq<char>>
    decreases s.len(),
{
    if s.len() == 0 {
        if is_numeric(trim_spec(cur)) {
            seq![trim_spec(cur)]
        } else {
            seq![]
        }
    } else if is_delim(s[0]) {
        (if is_numeric(trim_spec(cur)) {
            seq![trim_spec(cur)]
        } else {
            seq![]
        }) + samples_acc(s.skip(1), Seq::empty())
    } else {
        samples_acc(s.skip(1), cur.push(s[0]))
    }
}

pub open spec fn numeric_samples(s: Seq<char>) -> Seq<Seq<char>> {
    samples_acc(s, Seq::empty())
}

/// Splits a payload into its numeric samples: colon- and comma-separated
/// tokens, trimmed, keeping exactly those that are floating-point literals.
pub fn split(payload: &str) -> (r: Vec<String>)
    ensures
        r.deep_view() == numeric_samples(payload@),
{
    let n = payload.unicode_len();
    let mut out: Vec<String> = Vec::new();
    let mut start: usize = 0;
    let mut i: usize = 0;
    proof {
        assert(payload@.skip(0) =~= payload@);
        assert(payload@.subrange(0, 0) =~= Seq::<char>::empty());
        assert(out.deep_view() + samples_acc(payload@, Seq::empty())
            =~= numeric_samples(payload@));
    }
    while i < n
        invariant
            0 <= start <= i <= n,
            n == payload@.len(),
            numeric_samples(payload@) == out.deep_view()
                + samples_acc(payload@.skip(i as int), payload@.subrange(start as int, i as int)),
        decreases n - i,
    {
        let ghost pre = out.deep_view();
        let ghost rest = payload@.skip(i as int);
        let ghost cur = payload@.subrange(start as int, i as int);
        let c = payload.get_char(i);
        if c == ':' || c == ',' {
            let token = trim_of(payload.substring_char(start, i));
            if is_numeric_token(token.as_str()) {
                out.push(token);
                proof {
                    assert(out.deep_view() =~= pre.push(trim_spec(cur)));
                }
            }
            proof {
                assert(rest.skip(1) =~= payload@.skip(i as int + 1));
                assert(payload@.subrange(i as int + 1, i as int + 1) =~= Seq::<char>::empty());
                assert(out.deep_view() + samples_acc(payload@.skip(i as int + 1), Seq::empty())
                    =~= pre + samples_acc(rest, cur));
            }
            start = i + 1;
            i = i + 1;
        } else {
            proof {
                assert(rest.skip(1) =~= payload@.skip(i as int + 1));
                assert(cur.push(rest[0]) =~= payload@.subrange(start as int, i as int + 1));
            }
            i = i + 1;
        }
    }
    let ghost rest = payload@.skip(n as int);
    let ghost cur = payload@.subrange(start as int, n as int);
    proof {
        assert(rest =~= Seq::<char>::empty());
    }
    let token = trim_of(payload.substring_char(start, n));
    if is_numeric_token(token.as_str()) {
        let ghost pre = out.deep_view();
        out.push(token);
        proof {
            assert(out.deep_view() =~= pre.push(trim_spec(cur)));
            assert(pre + seq![trim_spec(cur)] =~= pre.push(trim_spec(cur)));
        }
    } else {
        proof {
            assert(out.deep_view() + samples_acc(rest, cur) =~= out.deep_view());
        }
    }
    out
}

/// The aggregator's whole state: the dataset, the malformed-frame counter
/// of the current format epoch, and whether a loaded file suspends live
/// ingestion.
pub struct AggregatorState {
    pub data: DataContainer,
    pub failed_format_counter: u64,
    pub file_opened: bool,
}

/// The mathematical value of the aggregator state.
pub ghost struct AggV {
    pub data: DataV,
    pub failed_format_counter: u64,
    pub file_opened: bool,
}

impl View for AggregatorState {
    type V = AggV;

    open spec fn view(&self) -> AggV {
        AggV {
            data: self.data@,
            failed_format_counter: self.failed_format_counter,
            file_opened: self.file_opened,
        }
    }
}

pub open spec fn agg_wf(s: AggV) -> bool {
    data_wf(s.data)
}

/// The aggregator's starting state: empty dataset, counter zero, live mode.
pub open spec fn fresh_agg() -> AggV {
    AggV { data: empty_data(), failed_format_counter: 0, file_opened: false }
}

impl AggregatorState {
    pub open spec fn wf(&self) -> bool {
        agg_wf(self@)
    }

    /// Checks the dataset invariant at run time, for callers outside the
    /// verified world.
    pub fn is_wf(&self) -> (r: bool)
        ensures
            r == self.wf(),
    {
        if self.data.absolute_time.len() != self.data.time.len() {
            return false;
        }
        let mut i: usize = 0;
        while i < self.data.dataset.len()
            invariant
                0 <= i <= self.data.dataset@.len(),
                forall|j: int| 0 <= j < i ==> (#[trigger] self.data@.dataset[j]).len()
                    == self.data.time@.len(),
            decreases self.data.dataset@.len() - i,
        {
            proof {
                assert(self.data@.dataset[i as int] == self.data.dataset@[i as int].deep_view());
            }
            if self.data.dataset[i].len() != self.data.time.len() {
                assert(self.data@.dataset[i as int].len() != self.data.time@.len());
                return false;
            }
            i = i + 1;
        }
        true
    }
}

/// `count` empty columns, at least one.
pub open spec fn new_epoch_cols(count: nat) -> Seq<Seq<Seq<char>>> {
    Seq::new(if count == 0 { 1 } else { count }, |i: int| Seq::empty())
}

/// One received (or sent) event folded into the aggregator state. Every
/// event goes to the raw log and marks the dataset live; a received,
/// non-empty payload additionally contributes to the numeric pipeline:
/// with no current epoch or the counter past the threshold a new epoch of
/// the frame's width starts (clearing the axes); a frame of the epoch's
/// width appends one value per column and the two timestamps; any other
/// width is counted and dropped.
pub open spec fn ingest_model(s: AggV, p: PacketV) -> AggV {
    let d = s.data;
    let logged = DataV {
        time: d.time,
        absolute_time: d.absolute_time,
        dataset: d.dataset,
        raw_traffic: d.raw_traffic.push(p),
        loaded_from_file: false,
    };
    if p.direction == SerialDirection::Receive && p.payload.len() > 0 {
        let vals = numeric_samples(p.payload);
        let w = vals.len();
        if logged.dataset.len() == 0 || s.failed_format_counter > MALFORMED_THRESHOLD {
            AggV {
                data: DataV {
                    time: Seq::empty(),
                    absolute_time: Seq::empty(),
                    dataset: new_epoch_cols(w),
                    raw_traffic: logged.raw_traffic,
                    loaded_from_file: false,
                },
                failed_format_counter: 0,
                file_opened: s.file_opened,
            }
        } else if w == logged.dataset.len() {
            AggV {
                data: DataV {
                    time: logged.time.push(p.relative_time),
                    absolute_time: logged.absolute_time.push(p.absolute_time),
                    dataset: Seq::new(logged.dataset.len(),
                        |j: int| logged.dataset[j].push(vals[j])),
                    raw_traffic: logged.raw_traffic,
                    loaded_from_file: false,
                },
                failed_format_counter: 0,
                file_opened: s.file_opened,
            }
        } else {
            AggV {
                data: logged,
                failed_format_counter: (s.failed_format_counter + 1) as u64,
                file_opened: s.file_opened,
            }
        }
    } else {
        AggV { data: logged, failed_format_counter: s.failed_format_counter, file_opened: s.file_opened }
    }
}

fn new_cols(count: usize) -> (r: Vec<Vec<String>>)
    ensures
        r.deep_view() == new_epoch_cols(count as nat),
{
    let target: usize = if count == 0 { 1 } else { count };
    let mut r: Vec<Vec<String>> = Vec::new();
    let mut i: usize = 0;
    while i < target
        invariant
            0 <= i <= target,
            r@.len() == i,
            forall|j: int| 0 <= j < i ==> (#[trigger] r.deep_view()[j]).len() == 0,
        decreases target - i,
    {
        let ghost pre = r.deep_view();
        r.push(Vec::new());
        proof {
            assert forall|j: int| 0 <= j < i + 1 implies (#[trigger] r.deep_view()[j]).len()
                == 0 by {
                if j < i {
                    assert(r.deep_view()[j] == pre[j]);
                } else {
                    assert(r.deep_view()[j] == r@[j].deep_view());
                    assert(r@[j]@.len() == 0);
                }
            }
        }
        i = i + 1;
    }
    proof {
        assert forall|j: int| 0 <= j < target implies r.deep_view()[j]
            =~= new_epoch_cols(count as nat)[j] by {
            assert((#[trigger] r.deep_view()[j]).len() == 0);
        }
        assert(r.deep_view() =~~= new_epoch_cols(count as nat));
    }
    r
}

/// Folds one event into the aggregator state.
pub fn ingest(state: &mut AggregatorState, packet: Packet)
    requires
        old(state).wf(),
    ensures
        final(state)@ == ingest_model(old(state)@, packet@),
        final(state).wf(),
{
    let ghost s0 = state@;
    let ghost p = packet@;
    let is_recv = packet.direction == SerialDirection::Receive;
    let nonempty = !packet.payload.as_str().is_empty();
    let vals: Vec<String> = if is_recv && nonempty {
        split(packet.payload.as_str())
    } else {
        Vec::new()
    };
    let rel = packet.relative_time;
    let abs = packet.absolute_time;
    state.data.loaded_from_file = false;
    state.data.raw_traffic.push(packet);
    proof {
        assert(state.data@.raw_traffic =~= s0.data.raw_traffic.push(p));
    }
    if is_recv && nonempty {
        let w = vals.len();
        if state.data.dataset.len() == 0 || state.failed_format_counter > MALFORMED_THRESHOLD {
            state.data.time = Vec::new();
            state.data.absolute_time = Vec::new();
            state.data.dataset = new_cols(w);
            state.failed_format_counter = 0;
            proof {
                assert(state@.data.time =~= ingest_model(s0, p).data.time);
                assert(state@.data.absolute_time =~= ingest_model(s0, p).data.absolute_time);
            }
        } else if w == state.data.dataset.len() {
            let ghost cols0 = state.data.dataset.deep_view();
            let mut i: usize = 0;
            while i < state.data.dataset.len()
                invariant
                    0 <= i <= state.data.dataset@.len(),
                    state.data.dataset@.len() == cols0.len(),
                    cols0 == s0.data.dataset,
                    vals.deep_view() == numeric_samples(p.payload),
                    vals@.len() == cols0.len(),
                    forall|j: int| 0 <= j < i ==> state.data.dataset.deep_view()[j]
                        == cols0[j].push(vals.deep_view()[j]),
                    forall|j: int| i <= j < cols0.len()
                        ==> state.data.dataset.deep_view()[j] == cols0[j],
                    state.data.time@ == s0.data.time,
                    state.data.absolute_time@ == s0.data.absolute_time,
                    state.data.raw_traffic.deep_view() == s0.data.raw_traffic.push(p),
                    state.data.loaded_from_file == false,
                    state.failed_format_counter == s0.failed_format_counter,
                    state.file_opened == s0.file_opened,
                decreases state.data.dataset@.len() - i,
            {
                let v = vals[i].clone();
                proof {
                    assert(vals.deep_view()[i as int] == vals@[i as int]@);
                }
                let ghost pre = state.data.dataset.deep_view();
                state.data.dataset[i].push(v);
                proof {
                    assert(state.data.dataset.deep_view()[i as int]
                        == state.data.dataset@[i as int].deep_view());
                    assert(state.data.dataset.deep_view()[i as int]
                        =~= cols0[i as int].push(vals.deep_view()[i as int]));
                    assert forall|j: int| 0 <= j < cols0.len() && j != i implies
                        #[trigger] state.data.dataset.deep_view()[j] == pre[j] by {
                        assert(state.data.dataset@[j] == state.data.dataset@[j]);
                    }
                }
                i = i + 1;
            }
            state.data.time.push(rel);
            state.data.absolute_time.push(abs);
            state.failed_format_counter = 0;
            // the time axis and every column grew by exactly one entry, so a
            // length disagreement (a corrupted epoch) is impossible here; a
            // full reset would otherwise be performed
            proof {
                assert(state@.data.dataset =~~= ingest_model(s0, p).data.dataset);
            }
        } else {
            state.failed_format_counter = state.failed_format_counter + 1;
        }
    }
    proof {
        assert(state@ == ingest_model(s0, p));
    }
}

/// Clears the aggregated dataset entirely: zero-length time axis, zero
/// columns, counter zero, live mode restored, regardless of prior state.
pub fn clear(state: &mut AggregatorState)
    ensures
        final(state)@ == fresh_agg(),
        final(state).wf(),
{
    state.data = DataContainer::default();
    state.failed_format_counter = 0;
    state.file_opened = false;
}

/// Iterated ingestion of a sequence of events.
pub open spec fn ingest_all(s: AggV, ps: Seq<PacketV>) -> AggV
    decreases ps.len(),
{
    if ps.len() == 0 {
        s
    } else {
        ingest_all(ingest_model(s, ps[0]), ps.skip(1))
    }
}

/// A received event with a non-empty payload whose numeric width is `w`.
pub open spec fn received_with_width(p: PacketV, w: nat) -> bool {
    p.direction == SerialDirection::Receive && p.payload.len() > 0
        && numeric_samples(p.payload).len() == w
}

/// In a stable epoch of width `w` with a clean counter, frames of width `w`
/// only append: after `n` frames each column and both time axes are longer
/// by `n` and the counter stays clean.
proof fn lemma_stable_appends(s: AggV, ps: Seq<PacketV>, w: nat)
    requires
        s.data.dataset.len() == w,
        w >= 1,
        s.failed_format_counter == 0,
        forall|i: int| 0 <= i < ps.len() ==> received_with_width(#[trigger] ps[i], w),
    ensures
        ({
            let r = ingest_all(s, ps);
            &&& r.data.dataset.len() == w
            &&& forall|j: int| 0 <= j < w ==> (#[trigger] r.data.dataset[j]).len()
                == s.data.dataset[j].len() + ps.len()
            &&& r.data.time.len() == s.data.time.len() + ps.len()
            &&& r.data.absolute_time.len() == s.data.absolute_time.len() + ps.len()
            &&& r.failed_format_counter == 0
        }),
    decreases ps.len(),
{
    if ps.len() > 0 {
        let s1 = ingest_model(s, ps[0]);
        assert(received_with_width(ps[0], w));
        assert(s1.data.dataset.len() == w);
        lemma_stable_appends(s1, ps.skip(1), w);
    }
}

/// Width-epoch stability: from a fresh state, a first received frame of
/// width `w` starts an epoch of exactly `w` columns, and each of `n`
/// further frames of width `w` appends one value per column, so every
/// column and the time axis then have length `n`.
pub proof fn lemma_width_epoch_stability(first: PacketV, rest: Seq<PacketV>, w: nat)
    requires
        w >= 1,
        received_with_width(first, w),
        forall|i: int| 0 <= i < rest.len() ==> received_with_width(#[trigger] rest[i], w),
    ensures
        ({
            let r = ingest_all(ingest_model(fresh_agg(), first), rest);
            &&& r.data.dataset.len() == w
            &&& forall|j: int| 0 <= j < w ==> (#[trigger] r.data.dataset[j]).len() == rest.len()
            &&& r.data.time.len() == rest.len()
            &&& r.failed_format_counter == 0
        }),
{
    let s1 = ingest_model(fresh_agg(), first);
    assert(s1.data.dataset =~= new_epoch_cols(w));
    assert(s1.data.dataset.len() == w);
    assert(forall|j: int| 0 <= j < w ==> (#[trigger] s1.data.dataset[j]).len() == 0);
    lemma_stable_appends(s1, rest, w);
}

/// A malformed frame: received, non-empty, but of a width other than the
/// epoch's.
pub open spec fn malformed_for(p: PacketV, w: nat) -> bool {
    p.direction == SerialDirection::Receive && p.payload.len() > 0
        && numeric_samples(p.payload).len() != w
}

/// Tolerance below the threshold: from a stable epoch of width `w` with a
/// clean counter, up to eleven consecutive malformed frames change no
/// numeric data at all; the counter just counts them. Ten malformed frames
/// leave the counter at ten; the eleventh drives it past the threshold.
pub proof fn lemma_malformed_tolerated(s: AggV, ps: Seq<PacketV>, w: nat)
    requires
        s.data.dataset.len() == w,
        w >= 1,
        s.failed_format_counter == 0,
        ps.len() <= MALFORMED_THRESHOLD + 1,
        forall|i: int| 0 <= i < ps.len() ==> malformed_for(#[trigger] ps[i], w),
    ensures
        ({
            let r = ingest_all(s, ps);
            &&& r.data.dataset == s.data.dataset
            &&& r.data.time == s.data.time
            &&& r.data.absolute_time == s.data.absolute_time
            &&& r.failed_format_counter == ps.len()
        }),
    decreases ps.len(),
{
    lemma_malformed_steps(s, ps, w);
}

/// Helper for the tolerance lemma, generalized over a partly used-up
/// counter.
proof fn lemma_malformed_steps(s: AggV, ps: Seq<PacketV>, w: nat)
    requires
        s.data.dataset.len() == w,
        w >= 1,
        s.failed_format_counter + ps.len() <= MALFORMED_THRESHOLD + 1,
        forall|i: int| 0 <= i < ps.len() ==> malformed_for(#[trigger] ps[i], w),
    ensures
        ({
            let r = ingest_all(s, ps);
            &&& r.data.dataset == s.data.dataset
            &&& r.data.time == s.data.time
            &&& r.data.absolute_time == s.data.absolute_time
            &&& r.failed_format_counter == s.failed_format_counter + ps.len()
        }),
    decreases ps.len(),
{
    if ps.len() > 0 {
        assert(malformed_for(ps[0], w));
        let s1 = ingest_model(s, ps[0]);
        lemma_malformed_steps(s1, ps.skip(1), w);
    }
}

/// The raw-event log is append-only and keeps arrival order: folding a
/// sequence of events appends exactly those events, in that order, whatever
/// each of them does to the numeric dataset.
pub proof fn lemma_raw_log_order(s: AggV, ps: Seq<PacketV>)
    ensures
        ingest_all(s, ps).data.raw_traffic == s.data.raw_traffic + ps,
    decreases ps.len(),
{
    if ps.len() == 0 {
        assert(s.data.raw_traffic + ps =~= s.data.raw_traffic);
    } else {
        lemma_raw_log_order(ingest_model(s, ps[0]), ps.skip(1));
        assert(s.data.raw_traffic.push(ps[0]) + ps.skip(1) =~= s.data.raw_traffic + ps);
    }
}

/// Past the threshold the next received frame forces a fresh epoch: the
/// very next non-empty received frame, of any shape, re-derives the column
/// count from its own width and clears the axes.
pub proof fn lemma_threshold_forces_reset(s: AggV, p: PacketV)
    requires
        s.failed_format_counter > MALFORMED_THRESHOLD,
        p.direction == SerialDirection::Receive,
        p.payload.len() > 0,
    ensures
        ({
            let r = ingest_model(s, p);
            &&& r.data.dataset == new_epoch_cols(numeric_samples(p.payload).len())
            &&& r.data.time.len() == 0
            &&& r.data.absolute_time.len() == 0
            &&& r.failed_format_counter == 0
        }),
{
}


/// One message the aggregator thread takes off its channels in a poll
/// cycle.
pub enum ThreadMsg {
    /// A clear request; the dataset is reset only when the flag is set.
    Clear(bool),
    /// One exchanged event from the I/O worker.
    Data(Packet),
    /// A load request: the target path and the artifact's text.
    LoadFile { path: String, content: String },
    /// The consumer closed the loaded file: live ingestion resumes.
    CloseFile,
    /// A save request.
    SaveFile(FileOptions),
}

/// The rendered artifacts a save request produces; writing them out is the
/// caller's part.
pub struct SaveArtifacts {
    pub data_csv: String,
    pub raw_csv: Option<String>,
}

/// What one step hands back to the surrounding loop.
pub struct ThreadOutput {
    /// Whether the consumer is to be woken for a repaint.
    pub sync: bool,
    /// The column names recovered by a successful load, to announce.
    pub loaded_names: Option<Vec<String>>,
    /// The rendered artifacts of a save request.
    pub artifacts: Option<SaveArtifacts>,
    /// The reported outcome of a failed load.
    pub error: Option<LoadError>,
}

/// One step of the aggregator thread: folds one message into the state and
/// says what the surrounding loop owes the other parties. Received data is
/// ignored while a loaded file suspends live ingestion; a clear restores
/// live mode; loads replace the numeric dataset and announce the recovered
/// names; saves render the artifacts and change nothing.
pub fn main_thread(state: &mut AggregatorState, msg: ThreadMsg) -> (out: ThreadOutput)
    requires
        old(state).wf(),
    ensures
        final(state).wf(),
        match msg {
            ThreadMsg::Clear(flag) => {
                &&& (flag ==> final(state)@ == fresh_agg())
                &&& (!flag ==> final(state)@ == old(state)@)
                &&& !out.sync
                &&& out.loaded_names is None
                &&& out.artifacts is None
                &&& out.error is None
            },
            ThreadMsg::Data(p) => {
                &&& (old(state)@.file_opened ==> final(state)@ == old(state)@ && !out.sync)
                &&& (!old(state)@.file_opened ==> final(state)@ == ingest_model(old(state)@, p@)
                    && out.sync == (p@.payload.len() > 0))
                &&& out.loaded_names is None
                &&& out.artifacts is None
                &&& out.error is None
            },
            ThreadMsg::CloseFile => {
                &&& final(state)@ == AggV { file_opened: false, ..old(state)@ }
                &&& !out.sync
                &&& out.loaded_names is None
                &&& out.artifacts is None
                &&& out.error is None
            },
            ThreadMsg::LoadFile { path, content } => {
                &&& !out.sync
                &&& out.artifacts is None
                &&& if ext_of(path@) != Some("csv"@) {
                    &&& final(state)@ == AggV { file_opened: false, ..old(state)@ }
                    &&& out.error == Some(LoadError::UnsupportedExtension)
                    &&& out.loaded_names is None
                } else {
                    match load_model(content@) {
                        Ok(m) => {
                            &&& final(state)@ == AggV {
                                data: DataV {
                                    time: m.time,
                                    absolute_time: m.time,
                                    dataset: m.dataset,
                                    raw_traffic: old(state)@.data.raw_traffic,
                                    loaded_from_file: true,
                                },
                                failed_format_counter: 0,
                                file_opened: true,
                            }
                            &&& (out.loaded_names matches Some(nm) && nm.deep_view() == m.names)
                            &&& out.error is None
                        },
                        Err(e) => {
                            &&& final(state)@ == AggV { file_opened: false, ..old(state)@ }
                            &&& out.error == Some(e)
                            &&& out.loaded_names is None
                        },
                    }
                }
            },
            ThreadMsg::SaveFile(opts) => {
                &&& final(state)@ == old(state)@
                &&& !out.sync
                &&& out.loaded_names is None
                &&& out.error is None
                &&& (out.artifacts matches Some(a) && a.data_csv@ == save_model(
                    old(state)@.data,
                    opts.save_absolute_time,
                    opts@.names,
                ) && (opts.save_raw_traffic ==> (a.raw_csv matches Some(rc) && rc@
                    == save_raw_model(old(state)@.data.raw_traffic, opts.save_absolute_time)))
                    && (!opts.save_raw_traffic ==> a.raw_csv is None))
            },
        },
{
    match msg {
        ThreadMsg::Clear(flag) => {
            if flag {
                clear(state);
            }
            ThreadOutput { sync: false, loaded_names: None, artifacts: None, error: None }
        }
        ThreadMsg::Data(p) => {
            if state.file_opened {
                ThreadOutput { sync: false, loaded_names: None, artifacts: None, error: None }
            } else {
                let sync = !p.payload.as_str().is_empty();
                ingest(state, p);
                ThreadOutput { sync, loaded_names: None, artifacts: None, error: None }
            }
        }
        ThreadMsg::CloseFile => {
            state.file_opened = false;
            ThreadOutput { sync: false, loaded_names: None, artifacts: None, error: None }
        }
        ThreadMsg::LoadFile { path, content } => {
            let ok_ext = match extension_of(path.as_str()) {
                Option::Some(e) => str_eq(e.as_str(), "csv"),
                Option::None => false,
            };
            if !ok_ext {
                state.file_opened = false;
                ThreadOutput {
                    sync: false,
                    loaded_names: None,
                    artifacts: None,
                    error: Some(LoadError::UnsupportedExtension),
                }
            } else {
                match open_from_csv(content.as_str()) {
                    Ok(l) => {
                        proof {
                            lemma_load_model_wf(content@);
                        }
                        let LoadedFile { names, time, dataset } = l;
                        let mut abs: Vec<u64> = Vec::new();
                        let mut i: usize = 0;
                        while i < time.len()
                            invariant
                                0 <= i <= time@.len(),
                                abs@ =~= time@.subrange(0, i as int),
                            decreases time@.len() - i,
                        {
                            abs.push(time[i]);
                            proof {
                                assert(abs@ =~= time@.subrange(0, i as int + 1));
                            }
                            i = i + 1;
                        }
                        proof {
                            assert(time@.subrange(0, time@.len() as int) =~= time@);
                        }
                        state.data.time = time;
                        state.data.absolute_time = abs;
                        state.data.dataset = dataset;
                        state.data.loaded_from_file = true;
                        state.failed_format_counter = 0;
                        state.file_opened = true;
                        ThreadOutput {
                            sync: false,
                            loaded_names: Some(names),
                            artifacts: None,
                            error: None,
                        }
                    }
                    Err(e) => {
                        state.file_opened = false;
                        ThreadOutput {
                            sync: false,
                            loaded_names: None,
                            artifacts: None,
                            error: Some(e),
                        }
                    }
                }
            }
        }
        ThreadMsg::SaveFile(opts) => {
            let data_csv = save_to_csv(&state.data, opts.save_absolute_time, &opts.names);
            let raw_csv = if opts.save_raw_traffic {
                Some(save_raw_csv(&state.data, opts.save_absolute_time))
            } else {
                None
            };
            ThreadOutput {
                sync: false,
                loaded_names: None,
                artifacts: Some(SaveArtifacts { data_csv, raw_csv }),
                error: None,
            }
        }
    }
}

} // verus!
