//! Measurement core of a pointing-device analyser: raw motion events are
//! timestamped into bounded histories, turned into a polling rate on a fixed
//! tick, and into a speed over an adjustable averaging window.
//!
//! All quantities are integers: times in microseconds since start, path lengths
//! in millionths of a device count, sensitivity in thousandths of a count per
//! inch, speeds in nanometres per second, polling rates in events per second.

pub mod history;
pub mod parse;
pub mod speed;
pub mod state;
