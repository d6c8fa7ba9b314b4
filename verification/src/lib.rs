//! Merging pre-sorted chunks of unsigned 64-bit values into one sorted sequence
//! by partitioning the key range.
//!
//! The key range `0 ..= u64::MAX` is split into `2^part_exp` partitions of equal
//! width. Each partition is resolved on its own: the values that fall into it are
//! gathered from the chunks, sorted and appended to the result. The partitions are
//! resolved in increasing order, so the result is sorted from end to end.
//!
//! Chunks, staging buckets and the result hold their values as text: decimal
//! digits, delimited by whitespace. What the library writes has one space behind
//! each value. The library works on the bytes of these texts; reading and writing
//! the files that hold them is left to the caller.
//!
//! - [`decimal`]: the text of one value.
//! - [`reader`]: the values of a chunk, read one at a time.
//! - [`writer`]: the text of a sequence of values.
//! - [`partition`]: the ranges of the partitions.
//! - [`sorter`]: sorting the values of one partition.
//! - [`merger`]: the merge itself, by either of two strategies, and what holds of
//!   its result.

pub mod decimal;
pub mod error;
pub mod merger;
pub mod partition;
pub mod reader;
pub mod sorter;
pub mod writer;
