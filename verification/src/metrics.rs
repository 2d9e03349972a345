//! Per-file counters gathered during the tagging pass.

use crate::util::Histogram;
use vstd::prelude::*;

verus! {

/// Counters for one input file: records seen, exact and one-mismatch matches,
/// and the offset histogram the frequency pass produced.
pub struct Metrics {
    pub input_bam: String,
    pub read_count: u64,
    pub target_position_frequency: Histogram,
    pub exact_count: u64,
    pub mismatch_count: u64,
}

impl Metrics {
    /// Fresh counters for one input file, all starting at zero.
    pub fn new(target_position_frequency: Histogram, input_bam: String) -> (r: Self)
        ensures
            r.input_bam == input_bam,
            r.read_count == 0,
            r.target_position_frequency == target_position_frequency,
            r.exact_count == 0,
            r.mismatch_count == 0,
    {
        Metrics {
            input_bam,
            read_count: 0,
            target_position_frequency,
            exact_count: 0,
            mismatch_count: 0,
        }
    }
}

} // verus!
