//! Core of a log-archive harvester: link discovery with date filtering,
//! multi-format archive decoding, and byte-pattern scanning with
//! line-boundary extraction and a per-buffer match cap.
//!
//! Network I/O and the surrounding command-line program live outside this
//! library; everything here is a function of plain values.

pub mod archive;
pub mod crawl;
pub mod dates;
pub mod links;
pub mod render;
pub mod scan;
