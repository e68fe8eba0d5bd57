//! Resolves a school timetable for a calendar date from week-granular data:
//! week-keyed fetch caching, per-day extraction and validation of lesson
//! records, a bounded forward search past holidays, and the transformation of
//! per-level lesson lists into an hour-by-class display grid.

pub mod dates;
pub mod extract;
pub mod merge;
pub mod records;
pub mod search;
