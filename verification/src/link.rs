//! Adaptive link control: which speed level to use, when the short cyclic
//! prefix is safe, and when the channel is busy.
//!
//! Measurements are floats. They are computed outside and handed in as the bit
//! patterns of single-precision numbers, which `float_order` compares.
pub mod busy_gate;
pub mod cp_gate;
pub mod float_order;
pub mod mcs;
pub mod rate_loop;
pub mod registry;

pub use busy_gate::BusyGate;
pub use cp_gate::{CpGate, CpRecommendation};
pub use mcs::{select_speed_level, select_speed_level_calibrated};
pub use rate_loop::{RateLoop, VALID_SPEED_LEVELS};
