//! Correlation of the send and receive events of a message trace.
//!
//! A trace is a sequence of text lines. [`extract`] reads one line into an
//! event, [`binner`] groups the events of a trace by direction and rank pair,
//! and [`correlate`] pairs the send events of each rank pair with its receive
//! events. [`analysis`] runs the three in a row, and [`laws`] states what
//! holds of them together.

pub mod analysis;
pub mod binner;
pub mod bins;
pub mod chunks;
pub mod correlate;
pub mod event;
pub mod extract;
pub mod laws;
pub mod pattern;
