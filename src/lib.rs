//! Splits a byte sequence into interleaved parts and merges such parts back.

pub mod command;
pub mod interleave;
