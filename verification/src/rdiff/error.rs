//! The error type of the library.

use vstd::prelude::*;

pub mod messages;

verus! {

/// An error of the differencing engine: a message that says what went wrong.
#[derive(Debug, PartialEq)]
pub struct RollingHashError {
    message: String,
}

/// A [`RollingHashError`] in a box.
pub type RdiffError = Box<RollingHashError>;

impl View for RollingHashError {
    type V = Seq<char>;

    /// The message, as a sequence of characters.
    closed spec fn view(&self) -> Seq<char> {
        self.message@
    }
}

impl RollingHashError {
    /// An error that carries `msg`.
    pub fn new(msg: &str) -> (error: RollingHashError)
        ensures
            error@ == msg@,
    {
        let message = msg.to_owned();
        RollingHashError { message }
    }

    /// A boxed error that carries `msg`.
    pub fn rdiff_error(msg: &str) -> (error: RdiffError)
        ensures
            error@ == msg@,
    {
        let error = RollingHashError::new(msg);
        Box::new(error)
    }

    /// The message of the error.
    pub fn to_string(&self) -> (text: String)
        ensures
            text@ == self@,
    {
        self.message.clone()
    }
}

} // verus!
