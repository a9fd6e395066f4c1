//! The error that every fallible function of the crate returns.
use vstd::prelude::*;

use crate::text::join3;

verus! {

/// `String::from` copies a string slice.
pub assume_specification<'a>[ <String as From<&'a str>>::from ](s: &str) -> (r: String)
    ensures
        r@ == s@,
;

/// An error: a stable code to branch on and a message to read.
#[derive(Debug, Clone)]
pub struct SolverError {
    pub code: &'static str,
    pub message: String,
}

/// What an error says.
pub struct Fault {
    pub code: Seq<char>,
    pub message: Seq<char>,
}

/// The fault with the given code and message.
pub open spec fn fault(code: &str, message: Seq<char>) -> Fault {
    Fault { code: code@, message }
}

impl View for SolverError {
    type V = Fault;

    open spec fn view(&self) -> Fault {
        Fault { code: self.code@, message: self.message@ }
    }
}

/// A result with its error read as a fault.
pub open spec fn outcome<T>(r: Result<T, SolverError>) -> Result<T, Fault> {
    match r {
        Ok(v) => Ok(v),
        Err(e) => Err(e@),
    }
}

impl SolverError {
    /// An error with the given code and message.
    pub fn new<M: Into<String>>(code: &'static str, message: M) -> (r: Self)
        ensures
            r.code@ == code@,
            call_ensures(<M as Into<String>>::into, (message,), r.message),
    {
        Self { code, message: message.into() }
    }

    /// The error on one line: its code, a colon, its message.
    pub fn to_text(&self) -> (r: String)
        ensures
            r@ == self@.code + ": "@ + self@.message,
    {
        join3(self.code, ": ", self.message.as_str())
    }
}

} // verus!
