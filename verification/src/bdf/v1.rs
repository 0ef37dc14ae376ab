//! Bulk data read in two stages: each line becomes an unparsed card of
//! fixed-width byte fields, then each field is parsed on its own.
pub mod deck;
pub mod error;
pub mod field;
pub mod line;
pub mod parser;
