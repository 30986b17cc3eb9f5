//! A habit-tracking engine: frequency specifications, rolling-window
//! evaluation of each day, streaks and aggregate statistics.

pub mod frequency;
pub mod habit;
pub mod stats;
