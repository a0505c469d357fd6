//! The error of parsing.

use vstd::prelude::*;
use crate::text::{push_str, string_of};

verus! {

/// Why a text could not be parsed.
#[derive(Debug)]
pub enum Error {
    /// The text could not be processed at all; the message says why.
    ParseError(String),
}

/// The text that describes a parse failure with the message `msg`.
pub open spec fn error_text(msg: Seq<char>) -> Seq<char> {
    "Parse error: "@ + msg
}

impl Error {
    /// The message of this error.
    pub open spec fn message(&self) -> Seq<char> {
        match self {
            Error::ParseError(msg) => msg@,
        }
    }

    /// A description of this error: `Parse error: ` and the message.
    pub fn to_string(&self) -> (r: String)
        ensures
            r@ == error_text(self.message()),
    {
        let mut out: Vec<char> = Vec::new();
        push_str(&mut out, "Parse error: ");
        match self {
            Error::ParseError(msg) => {
                push_str(&mut out, msg.as_str());
            },
        }
        assert(out@ =~= error_text(self.message()));
        string_of(out.as_slice())
    }
}

} // verus!
