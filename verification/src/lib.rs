//! Parsing and formatting of byte sizes and durations.

pub mod text;
pub mod float;
pub mod numeral;
pub mod bytes;
pub mod duration;
pub mod cli;
