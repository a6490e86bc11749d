//! Merges keyword tags from a tabular export into a line-oriented
//! bibliographic exchange-format stream, matching records by title.
pub mod text;
pub mod tags;
pub mod index;
pub mod scan;
pub mod load;
pub mod laws;
