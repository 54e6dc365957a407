//! Verified core of a small system-information fetcher: colour-code
//! decoding for themed output, and the text processing that turns raw
//! readings (command output, file contents, counters) into display strings.

pub mod text;
pub mod color;
pub mod color_iter;
pub mod style;
pub mod info;
pub mod packages;
