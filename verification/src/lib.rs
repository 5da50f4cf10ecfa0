//! Bounded in-memory retention of time-stamped metric samples, range queries
//! over them, a compact wire format for sample batches, point-budget
//! decimation for charts, derived metrics and threshold alerting.
use vstd::prelude::*;

pub mod alert;
pub mod buf;
pub mod codec;
pub mod consumer;
pub mod exporter;
pub mod keys;
pub mod range;
pub mod view;

verus! {

/// Name of one metric series.
pub type MetricKey = String;

/// Logical timestamp of a sample.
pub type Time = u64;

/// One measurement: when it was taken and what was measured.
///
/// `value` holds the IEEE-754 bit pattern of a 64-bit float, so that a sample
/// is carried around and put on the wire bit for bit, whatever the float is.
#[derive(Debug, Clone, Copy, PartialEq, Eq, Structural)]
pub struct Sample {
    pub time: Time,
    pub value: u64,
}

/// Number of bytes one sample takes on the wire.
pub const SAMPLE_SIZE: usize = 16;

} // verus!
