//! Error taxonomy of the engine.
//!
//! Dictionary import distinguishes a line that is not JSON at all from three
//! shape violations inside a parsed line; every variant carries the number of
//! the offending line so the caller can point at the damaged record.

use vstd::prelude::*;

verus! {

/// Why an operation on the engine failed.
#[derive(Clone, Copy, PartialEq, Eq, Structural, Debug)]
pub enum Error {
    /// A line of the dictionary dump was not valid JSON.
    SerdeFailed { line: usize },
    /// A required field was absent from a JSON object on the line.
    GetValueFailed { line: usize },
    /// A field on the line held a JSON value of the wrong type.
    ValueConversionFailed { line: usize },
    /// An array that must not be empty was empty on the line.
    EmptyJSONArray { line: usize },
}

impl Error {
    /// The number of the input line the error points at.
    pub open spec fn spec_line(self) -> usize {
        match self {
            Error::SerdeFailed { line } => line,
            Error::GetValueFailed { line } => line,
            Error::ValueConversionFailed { line } => line,
            Error::EmptyJSONArray { line } => line,
        }
    }

    /// The number of the input line the error points at.
    #[verifier::when_used_as_spec(spec_line)]
    pub fn line(self) -> (r: usize)
        ensures
            r == self.spec_line(),
    {
        match self {
            Error::SerdeFailed { line } => line,
            Error::GetValueFailed { line } => line,
            Error::ValueConversionFailed { line } => line,
            Error::EmptyJSONArray { line } => line,
        }
    }

    /// A short human-readable phrase naming the failure; the caller appends
    /// the line number from [`Error::line`].
    pub fn message(self) -> (r: String)
        ensures
            self is SerdeFailed ==> r@ == "error reading from jsonl file at line"@,
            self is GetValueFailed ==> r@ == "error getting value from json value at line"@,
            self is ValueConversionFailed ==> r@ == "error converting json value at line"@,
            self is EmptyJSONArray ==> r@ == "json array is empty at line"@,
    {
        match self {
            Error::SerdeFailed { .. } => "error reading from jsonl file at line".to_owned(),
            Error::GetValueFailed { .. } => "error getting value from json value at line".to_owned(),
            Error::ValueConversionFailed { .. } => "error converting json value at line".to_owned(),
            Error::EmptyJSONArray { .. } => "json array is empty at line".to_owned(),
        }
    }
}

} // verus!
