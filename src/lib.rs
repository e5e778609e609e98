//! Overlap-aware merging of per-source interval streams into one stream whose
//! value at every position is the sum of the sources' values there.
//!
//! `section` splits two overlapping sections, `queue` places a section into
//! a sorted queue, `merge` drives any number of sources through the queue,
//! and `chroms` checks the inputs' chromosome lengths and tags the output.

pub mod section;
pub mod queue;
pub mod merge;
pub mod chroms;
