//! Reader for NASTRAN bulk data: fixed-column and comma separated lines,
//! continuation handling, and a deck of the card types the library knows.
pub mod cards;
pub mod deck;
pub mod error;
pub mod field;
pub mod lines;
pub mod parser;
pub mod v1;

pub use error::{Error, ErrorView};
