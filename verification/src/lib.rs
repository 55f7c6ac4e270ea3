//! Verified core of a subtitle translation pipeline.
//!
//! The crate parses SRT subtitle tracks into timed blocks, schedules batches
//! of lines for translation by a pluggable provider, reassembles results that
//! may complete out of order, and derives resume points and progress
//! estimates.  Everything here is plain computation over strings and blocks;
//! file and network I/O live with the callers.

pub mod chars;
pub mod checkpoint;
pub mod paths;
pub mod srt;
pub mod translate;
pub mod video;
