//! Fuzzy marker detection for sequencing reads.
//!
//! The crate builds a one-substitution-tolerant lookup table from a whitelist
//! of short marker sequences, infers the read offset at which markers most
//! reliably occur, and decides which label, if any, to attach to each record.
//! All record and file I/O lives outside this crate; the library works on
//! plain byte sequences and is verified.

pub mod metrics;
pub mod pipeline;
pub mod seq;
pub mod target;
pub mod util;
