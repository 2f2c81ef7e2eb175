//! Shellsort gap sequences and instrumented sorts, with the statistics that
//! compare them over repeated trials.

pub mod gap_sequences;
pub mod sort;
