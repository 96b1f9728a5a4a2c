//! An embedded, single-node, log-structured key/value storage engine in
//! the Bitcask family: an append-only set of numbered log files and an
//! in-memory index from every live key to the position of its newest
//! record.

pub mod data_file;
pub mod db;
pub mod errors;
pub mod fio;
pub mod index;
pub mod options;
pub mod record;
