//! A per-key store of timestamped text records kept in one flat file.
//!
//! A store file is UTF-8 text: three header lines (oldest timestamp, newest
//! timestamp, record count) followed by one line per record, newest first.
//!
//! - [`log`] holds the record, its line, and the merge of two runs of
//!   records;
//! - [`log_file`] holds the file format, the page that a read returns and
//!   the file that a write leaves;
//! - [`tail`] holds the scanner that pages through a text from its end in
//!   chunks;
//! - [`laws`] states what holds of files, reads and writes;
//! - [`decimal`], [`lines`] and [`text`] hold what these are built from,
//!   and [`error`] what can go wrong.

pub mod decimal;
pub mod error;
pub mod laws;
pub mod lines;
pub mod log;
pub mod log_file;
pub mod tail;
pub mod text;
