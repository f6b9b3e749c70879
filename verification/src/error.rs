//! The one error of the application: a message for its user.

use vstd::prelude::*;

verus! {

/// What went wrong, in words for the user.
#[derive(Debug)]
pub struct AppError {
    message: String,
}

/// A result whose error is a message for the user.
pub type AppResult<T> = Result<T, AppError>;

impl View for AppError {
    type V = Seq<char>;

    /// The message.
    closed spec fn view(&self) -> Seq<char> {
        self.message@
    }
}

impl AppError {
    /// An error with the given message.
    pub fn other(message: String) -> (r: AppError)
        ensures
            r@ == message@,
    {
        AppError { message }
    }

    /// The message.
    pub fn to_string(&self) -> (r: String)
        ensures
            r@ == self@,
    {
        self.message.clone()
    }
}

} // verus!
