//! The ways in which reading an expression fails.

use vstd::prelude::*;
use crate::expression::node::Position;
use crate::expression::position::ParsePosition;

verus! {

/// Why a text could not be read as an expression, and the span of the text
/// that is at fault.
#[derive(Debug, Clone, Copy, PartialEq, Eq, Structural)]
pub enum ParsingError {
    /// No other error describes the failure.
    Unknown(ParsePosition),
    /// The text ended where more of the expression was expected.
    EndOfInput(ParsePosition),
    /// The text goes on after the expression.
    ExtraInput(ParsePosition),
    /// A number was expected, or the number is out of range.
    Number(ParsePosition),
}

impl ParsingError {
    /// What went wrong, in words.
    pub fn message(&self) -> (text: &'static str)
        ensures
            text@ == match self {
                ParsingError::Unknown(_) => "Unknown parsing error"@,
                ParsingError::EndOfInput(_) => "Unexpected end of input parsing expression"@,
                ParsingError::ExtraInput(_) => "Unexpected input after expression"@,
                ParsingError::Number(_) => "Error parsing number"@,
            },
    {
        match self {
            ParsingError::Unknown(_) => "Unknown parsing error",
            ParsingError::EndOfInput(_) => "Unexpected end of input parsing expression",
            ParsingError::ExtraInput(_) => "Unexpected input after expression",
            ParsingError::Number(_) => "Error parsing number",
        }
    }
}

impl Position for ParsingError {
    open spec fn span(&self) -> ParsePosition {
        match self {
            ParsingError::Unknown(position) => *position,
            ParsingError::EndOfInput(position) => *position,
            ParsingError::ExtraInput(position) => *position,
            ParsingError::Number(position) => *position,
        }
    }

    fn position(&self) -> (position: ParsePosition) {
        match self {
            ParsingError::Unknown(position) => *position,
            ParsingError::EndOfInput(position) => *position,
            ParsingError::ExtraInput(position) => *position,
            ParsingError::Number(position) => *position,
        }
    }
}

/// Why an expression could not be evaluated.
#[derive(Debug, Clone)]
pub enum EvaluationError {
    Number { msg: String },
}

} // verus!
