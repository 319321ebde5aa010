//! A sample-accurate audio gate driven by MIDI notes and program changes.
//!
//! `midi` turns MIDI wire bytes into the few events a `Gate` reacts to;
//! `processor` holds a `Gate`'s state and fills output blocks segment by
//! segment; `laws` states and proves what holds of every processing cycle.

pub mod laws;
pub mod midi;
pub mod processor;

pub use midi::MidiEvent;
pub use processor::{ControlEvent, Gate, GateMode};
