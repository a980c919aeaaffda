//! A byte-level stream inspector: renders bytes as rows of hexadecimal
//! groups beside a printable-text sidebar, with a configurable group size,
//! byte order, row width, byte limit and starting offset.

pub mod parse;
pub mod render;
