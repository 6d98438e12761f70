//! Enumeration of non-decreasing integer sequences of a fixed length whose
//! arithmetic mean and sample standard deviation fall inside given windows.
//!
//! All arithmetic is exact: sums and sums of squares are integers, the window
//! bounds are fractions, and standard-deviation comparisons are carried out by
//! cross-multiplication, so the search itself is free of rounding.

pub mod frac;
pub mod stats;
pub mod params;
pub mod tables;
pub mod partition;
pub mod search;
pub mod pipeline;
