//! A verified parser for flat, indentation-delimited text listings (the shape
//! of `pactl list` output) and a query over the parsed sections that answers
//! which audio outputs exist and which one is running.

pub mod laws;
pub mod parser;
pub mod sinks;
pub mod text;
