//! Support of the 128-bit layout with its own signed 256-bit number.
pub mod i256;
