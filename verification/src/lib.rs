//! Decision and text-processing core of the cable token-savings benchmark.
pub mod text;
pub mod think;
pub mod signal;
pub mod words;
pub mod reply;
pub mod plan;
pub mod tally;
pub mod compare;
