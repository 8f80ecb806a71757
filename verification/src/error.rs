//! The single error kind shared by both bridge directions.

use vstd::prelude::*;

verus! {

/// The one error kind of this crate: a free-text message, constructed
/// uniformly whether the failure came from shape validation, a length
/// mismatch, or a type mismatch.
#[derive(Debug, PartialEq)]
pub enum Error {
    /// A malformed or unsupported value was met while converting.
    Syntax(String),
}

impl Error {
    /// Builds the uniform error from a free-text message.
    pub fn custom(msg: &str) -> (r: Error)
        ensures
            (match r {
                Error::Syntax(m) => m@ == msg@,
            }),
    {
        Error::Syntax(msg.to_owned())
    }

    /// A fixed description of what this error kind reports.
    pub fn description(&self) -> (r: &'static str)
        ensures
            r@ == "error while decoding value"@,
    {
        "error while decoding value"
    }

    /// The free-text message carried by this error.
    pub fn message(self) -> (r: String)
        ensures
            self == Error::Syntax(r),
    {
        match self {
            Error::Syntax(msg) => msg,
        }
    }
}

} // verus!
