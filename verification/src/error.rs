//! What a request can fail with.

use vstd::prelude::*;
use vstd::string::*;

verus! {

/// A failure that is reported to whoever sent a request.
#[derive(Debug)]
pub enum Error {
    /// The request is malformed; the text says how.
    InvalidRequest(String),
    /// No data is held for the symbol named.
    SymbolNotFound(String),
    /// The batch holds more values than a batch may.
    TooManyValues,
    /// Something failed inside; the text says what.
    Internal(String),
}

impl Error {
    /// The status code that the failure is reported with.
    pub open spec fn status_spec(&self) -> u16 {
        match self {
            Error::InvalidRequest(_) => 400,
            Error::TooManyValues => 400,
            Error::SymbolNotFound(_) => 404,
            Error::Internal(_) => 500,
        }
    }

    /// The text that the failure is reported with.
    pub open spec fn message_spec(&self) -> Seq<char> {
        match self {
            Error::InvalidRequest(detail) => "Invalid request: "@ + detail@,
            Error::SymbolNotFound(symbol) => "Symbol not found: "@ + symbol@,
            Error::TooManyValues => "Too many values in batch (max is 10,000)"@,
            Error::Internal(detail) => "Internal error: "@ + detail@,
        }
    }

    /// The status code that the failure is reported with: 400 for a request
    /// that is malformed or too large, 404 for an unknown symbol, 500 otherwise.
    pub fn status(&self) -> (code: u16)
        ensures
            code == self.status_spec(),
    {
        match self {
            Error::InvalidRequest(_) => 400,
            Error::TooManyValues => 400,
            Error::SymbolNotFound(_) => 404,
            Error::Internal(_) => 500,
        }
    }

    /// The text that the failure is reported with.
    pub fn message(&self) -> (text: String)
        ensures
            text@ == self.message_spec(),
    {
        match self {
            Error::InvalidRequest(detail) => String::from_str("Invalid request: ").concat(
                detail.as_str(),
            ),
            Error::SymbolNotFound(symbol) => String::from_str("Symbol not found: ").concat(
                symbol.as_str(),
            ),
            Error::TooManyValues => String::from_str("Too many values in batch (max is 10,000)"),
            Error::Internal(detail) => String::from_str("Internal error: ").concat(
                detail.as_str(),
            ),
        }
    }
}

} // verus!
