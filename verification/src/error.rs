//! The library's error: a message for the user.
use vstd::prelude::*;

verus! {

/// An error carrying a user-facing message.
#[derive(Debug, Clone)]
pub struct AppError {
    pub message: String,
}

impl AppError {
    pub fn msg(message: &str) -> (e: AppError)
        ensures
            e.message@ == message@,
    {
        AppError { message: message.to_string() }
    }

    pub fn from_string(message: String) -> (e: AppError)
        ensures
            e.message@ == message@,
    {
        AppError { message }
    }

    /// The message, as `Display` shows it.
    pub fn text(&self) -> (s: String)
        ensures
            s@ == self.message@,
    {
        self.message.clone()
    }
}

} // verus!
