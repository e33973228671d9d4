//! Streaming per-key statistics over `key;value` text.
//!
//! A [`scanner::LineScanner`] turns a sequence of byte chunks into logical
//! lines, whatever the chunk boundaries are. Each line is a record
//! ([`record::parse_line`]) whose value is an exact fixed-point number
//! ([`decimal::Decimal`]); a [`table::Aggregator`] folds the records into one
//! [`stats::Statistic`] per key and hands them out ordered by key.
//!
//! Every function is verified against the mathematical model stated in its
//! contract: lines are `Seq<Seq<u8>>`, values are `int`, a table is a
//! `Map<Seq<u8>, Summary>`.

pub mod bytes;
pub mod decimal;
pub mod error;
pub mod fold;
pub mod lines;
pub mod order;
pub mod pipeline;
pub mod record;
pub mod scanner;
pub mod stats;
pub mod table;
