//! Core of a serial-monitor application: the framing codec for outbound
//! commands and inbound lines, the connection-management decisions, the
//! aggregation of received payloads into a column-aligned time series, and
//! the persistence bridge for saving and restoring the dataset. Every
//! function here carries a contract; the surrounding process (ports,
//! channels, files, rendering) lives outside the crate and exchanges plain
//! values with it.
pub mod aggregator;
pub mod codec;
pub mod connection;
pub mod data;
pub mod numeric;
pub mod persist;
pub mod settings;
pub mod text;
pub mod worker;

use vstd::prelude::*;

verus! {

/// What the consumer's file dialog is currently for.
#[derive(Clone)]
pub enum FileDialogState {
    Open,
    Save,
    SavePlot,
    NoDialog,
}

/// The consumer's answer to the clear-data warning.
#[derive(PartialEq, Eq, Structural)]
pub enum WindowFeedback {
    NoFeedback,
    Waiting,
    Clear,
    Cancel,
}

} // verus!
