//! The single error type that every command of the app returns: a message.
use vstd::prelude::*;

verus! {

/// An error carried as its message; the app hands the message to its
/// frontend as a plain string.
pub struct AppError(pub String);

impl AppError {
    /// The message, as shown to the user.
    pub fn message(&self) -> (m: String)
        ensures
            m@ == self.0@,
    {
        self.0.clone()
    }
}

impl From<String> for AppError {
    fn from(s: String) -> (e: AppError) {
        AppError(s)
    }
}

impl vstd::std_specs::convert::FromSpecImpl<String> for AppError {
    open spec fn obeys_from_spec() -> bool {
        true
    }

    open spec fn from_spec(v: String) -> AppError {
        AppError(v)
    }
}

impl AppError {
    /// An error with the given message.
    pub fn new(msg: &str) -> (e: AppError)
        ensures
            e.0@ == msg@,
    {
        AppError(String::from_str(msg))
    }
}

} // verus!
