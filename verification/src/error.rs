//! Errors an agent can act on: what was attempted, on what input, why it
//! failed, and how to fix it.
use vstd::prelude::*;

verus! {

/// An error an agent can act on: what was attempted, on what input, and how to fix it.
#[derive(Debug)]
pub struct Error {
    operation: String,
    input: String,
    cause: String,
    remediation: String,
}

/// The four texts an [`Error`] carries.
pub struct ErrorView {
    pub operation: Seq<char>,
    pub input: Seq<char>,
    pub cause: Seq<char>,
    pub remediation: Seq<char>,
}

impl View for Error {
    type V = ErrorView;

    closed spec fn view(&self) -> ErrorView {
        ErrorView {
            operation: self.operation@,
            input: self.input@,
            cause: self.cause@,
            remediation: self.remediation@,
        }
    }
}

/// The rendering of an error: operation, offending input, cause, remediation,
/// in that order.
pub open spec fn error_message(e: ErrorView) -> Seq<char> {
    "failed to "@ + e.operation + ": input "@ + e.input + ": "@ + e.cause + ": "@ + e.remediation
}

impl Error {
    pub fn new(operation: &str, input: &str, cause: &str, remediation: &str) -> (e: Error)
        ensures
            e@ == (ErrorView {
                operation: operation@,
                input: input@,
                cause: cause@,
                remediation: remediation@,
            }),
    {
        Error {
            operation: operation.to_owned(),
            input: input.to_owned(),
            cause: cause.to_owned(),
            remediation: remediation.to_owned(),
        }
    }

    /// The one-line rendering of this error.
    pub fn message(&self) -> (r: String)
        ensures
            r@ == error_message(self@),
    {
        let mut r = String::from_str("failed to ");
        r.append(self.operation.as_str());
        r.append(": input ");
        r.append(self.input.as_str());
        r.append(": ");
        r.append(self.cause.as_str());
        r.append(": ");
        r.append(self.remediation.as_str());
        r
    }
}

pub type Result<T> = core::result::Result<T, Error>;

} // verus!
