//! Runs payloads at their due dates, lane by lane, and moves each task on by its repetition
//! rule after it fires.
//!
//! `repetitions` holds the rules and their date computations, `schedulers` the lanes, the
//! catch-up and fire passes and the steps of a run, `sleeptype` the ways of waiting, and
//! `timestamp` the instants the rest works on.

pub mod repetitions;
pub mod schedulers;
pub mod sleeptype;
pub mod timestamp;
