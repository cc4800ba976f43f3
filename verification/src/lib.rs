//! Minimum, mean and maximum per station over a stream of `name;value`
//! lines, computed chunk by chunk and merged.
//!
//! - [`decimal`]: values as whole numbers of tenths, read from and written
//!   as text;
//! - [`station`]: the running statistic of one name and its algebra;
//! - [`ledger`]: what a table of stations means, as mathematics, with the
//!   laws that make the order of work irrelevant;
//! - [`table`]: the table itself, a hash map from name to station;
//! - [`record`]: lines and records, and folding a buffer into a table;
//! - [`cursor`]: cutting a stream into chunks that end at line boundaries;
//! - [`recycler`]: a pool of buffers to read into;
//! - [`pipeline`]: cursor and records together on a stream in memory;
//! - [`report`]: the summary line;
//! - [`error`]: why a run ends early.

pub mod cursor;
pub mod decimal;
pub mod error;
pub mod ledger;
pub mod pipeline;
pub mod record;
pub mod recycler;
pub mod report;
pub mod station;
pub mod table;
