//! The error that stops a run, and how it reaches the user.

use vstd::prelude::*;

use crate::jev::error::{message_spec, Error as JevError};

verus! {

/// An error that stops the run before or instead of linting: a bad argument,
/// config file, git command or credentials file. It is printed as
/// `lintus: <message>` and the command exits with status 2.
#[derive(Debug, Clone, PartialEq, Eq)]
pub struct Error {
    message: String,
}

impl View for Error {
    type V = Seq<char>;

    closed spec fn view(&self) -> Seq<char> {
        self.message@
    }
}

impl Error {
    pub fn new(message: String) -> (e: Error)
        ensures
            e@ == message@,
    {
        Error { message }
    }

    /// The message, as printed after `lintus: `.
    pub fn message(&self) -> (r: &str)
        ensures
            r@ == self@,
    {
        self.message.as_str()
    }
}

/// A failed request stops the run with the client's message.
impl From<JevError> for Error {
    fn from(error: JevError) -> (r: Error)
        ensures
            r@ == message_spec(error),
    {
        Error { message: error.message() }
    }
}

impl vstd::std_specs::convert::FromSpecImpl<JevError> for Error {
    /// The message is a `String` the conversion builds, which a spec
    /// function cannot name; `from` states it in its own contract.
    open spec fn obeys_from_spec() -> bool {
        false
    }

    open spec fn from_spec(error: JevError) -> Error {
        arbitrary()
    }
}

} // verus!
