//! Expressions: their values, their syntax trees, and the parser that reads
//! them from text.

pub mod error;
pub mod format;
pub mod grammar;
pub mod laws;
pub mod node;
pub mod numeral;
pub mod parse;
pub mod position;
pub mod reading;
pub mod rereading;
pub mod value;
