//! A parallel partitioned streaming aggregation engine.
//!
//! The input is a byte buffer holding `key;value` records separated by
//! newlines, where `value` is a signed fixed-point decimal with one
//! fractional digit.  The engine divides the buffer into contiguous
//! partitions, scans each partition into a private fixed-capacity
//! open-addressing table of per-key running statistics (minimum, maximum,
//! sum and count, with the sum and the extremes kept in tenths), and merges
//! the per-partition tables into one final table.
//!
//! Reading the buffer from a file, spawning one worker per partition and
//! rendering the final table are left to the embedding program; the
//! modules here hold the record grammar, the scanner, the table, the
//! partition planner and the sequential driver, each with a contract that
//! pins its result down to the record sequence of the buffer.

pub mod affinity;
pub mod engine;
pub mod model;
pub mod planner;
pub mod records;
pub mod table;
