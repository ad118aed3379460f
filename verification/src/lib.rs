//! Synchronised audio recording: what an audio recorder has to get right for its timestamps
//! to be believed.
//!
//! Takes are stamped from a clock that the recorder can vouch for, which is its own model of a
//! time server or the timecode of a leader on the network, and never from the OS clock. One
//! sample is anchored and the rest are counted; the rate that the device really ran at is
//! measured over the take, and a correction replaces the raw capture only where it can be
//! trusted.

pub mod audio;
pub mod bwf;
pub mod calendar;
pub mod clock;
pub mod drift;
pub mod ethersync;
pub mod finalize;
pub mod float;
pub mod instants;
pub mod latency;
pub mod least_squares;
pub mod order;
pub mod permission;
pub mod platform;
pub mod scatter;
pub mod settings;
pub mod text;
pub mod time;
pub mod trend;
pub mod ui;
