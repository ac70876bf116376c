//! Codec for a self-describing, line-oriented, text-based tabular
//! serialization format.
//!
//! The format stores a table as bracket-delimited fields separated by a
//! single row-delimiter byte that the table itself declares.  The crate
//! provides a lexical tokenizer over a borrowed byte buffer, the
//! escape/unescape transform for the six reserved bytes, a table assembler
//! that validates the four schema rows and the data rows, and a writer that
//! serializes a table back to bytes.

pub mod codec;
pub mod decimal;
pub mod reader;
pub mod records;
pub mod table;
pub mod utils;
pub mod writer;
