//! The one error of the library.

use vstd::prelude::*;

verus! {

/// What [`ParseError`] says of a text that is in neither notation.
pub const UNRECOGNIZED: &'static str = "Couldn't parse given time.";

/// What [`ParseError`] says of a text in decimal notation that holds no digit.
pub const NO_DIGITS: &'static str = "Couldn't read a number from given time.";

/// What [`ParseError`] says of a text for which no conversion can be picked.
pub const NO_CONVERSION: &'static str = "Couldn't match input to conversion.";

/// A text could not be read as a time. Carries a message for the user.
#[derive(Debug, Clone, PartialEq, Eq)]
pub struct ParseError {
    message: String,
}

impl View for ParseError {
    type V = Seq<char>;

    /// The message.
    closed spec fn view(&self) -> Seq<char> {
        self.message@
    }
}

impl ParseError {
    /// An error with the given message.
    pub fn new(message: &str) -> (error: ParseError)
        ensures
            error@ == message@,
    {
        ParseError { message: message.to_owned() }
    }

    /// The message.
    pub fn as_str(&self) -> (message: &str)
        ensures
            message@ == self@,
    {
        self.message.as_str()
    }

    /// The message, as an owned string.
    pub fn to_string(&self) -> (message: String)
        ensures
            message@ == self@,
    {
        self.message.clone()
    }
}

} // verus!
