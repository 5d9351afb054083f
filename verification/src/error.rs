//! The library's error: a message for the person who wrote the plan.

use vstd::prelude::*;

verus! {

/// An error carrying the text that explains it.
#[derive(Debug, PartialEq, Eq)]
pub struct CuError {
    message: String,
}

pub type CuResult<T> = Result<T, CuError>;

impl View for CuError {
    type V = Seq<char>;

    closed spec fn view(&self) -> Seq<char> {
        self.message@
    }
}

impl CuError {
    /// An error with the given text.
    pub fn new(message: String) -> (e: Self)
        ensures
            e@ == message@,
    {
        CuError { message }
    }

    /// An error with the given fixed text.
    pub fn of(message: &str) -> (e: Self)
        ensures
            e@ == message@,
    {
        CuError { message: message.to_owned() }
    }

    /// The text of the error.
    pub fn message(&self) -> (m: &str)
        ensures
            m@ == self@,
    {
        self.message.as_str()
    }

    /// A copy of the text of the error.
    pub fn to_string(&self) -> (m: String)
        ensures
            m@ == self@,
    {
        self.message.clone()
    }
}

impl Clone for CuError {
    fn clone(&self) -> (r: Self)
        ensures
            r@ == self@,
    {
        CuError { message: self.message.clone() }
    }
}

/// The text that a failed result carries, nothing for a success.
pub open spec fn failure_text<T>(r: CuResult<T>) -> Option<Seq<char>> {
    match r {
        Ok(_) => None,
        Err(e) => Some(e@),
    }
}

} // verus!
