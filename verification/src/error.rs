//! The error that every fallible function of the crate reports.

use vstd::prelude::*;

verus! {

/// Why a conversion was refused. An error is told from another by its
/// message.
#[derive(Debug)]
pub struct Error {
    message: &'static str,
}

impl View for Error {
    type V = Seq<char>;

    /// The characters of the message.
    closed spec fn view(&self) -> Seq<char> {
        self.message@
    }
}

impl Error {
    /// The error that carries `message`.
    pub closed spec fn of(message: &'static str) -> Error {
        Error { message }
    }

    /// The numeric part of the input is malformed or missing.
    pub open spec fn invalid_value() -> Error {
        Error::of("invalid value")
    }

    /// The suffix is none of the spellings of a unit.
    pub open spec fn invalid_postfix() -> Error {
        Error::of("invalid postfix")
    }

    /// The duration is negative, and a `Duration` holds no negative value.
    pub open spec fn negative_duration_unsupported() -> Error {
        Error::of("time.Duration cannot work with negative values")
    }

    /// Makes the error that carries `message`.
    pub fn new(message: &'static str) -> (e: Error)
        ensures
            e == Error::of(message),
            e@ == message@,
    {
        Error { message }
    }

    /// The message of the error.
    pub fn message(&self) -> (m: &'static str)
        ensures
            m@ == self@,
            *self == Error::of(m),
    {
        self.message
    }
}

/// The three errors that the crate reports differ from one another.
pub proof fn lemma_errors_differ()
    ensures
        Error::invalid_value() != Error::invalid_postfix(),
        Error::invalid_value() != Error::negative_duration_unsupported(),
        Error::invalid_postfix() != Error::negative_duration_unsupported(),
{
    reveal_strlit("invalid value");
    reveal_strlit("invalid postfix");
    reveal_strlit("time.Duration cannot work with negative values");
    assert(Error::invalid_value()@.len() == 13);
    assert(Error::invalid_postfix()@.len() == 15);
    assert(Error::negative_duration_unsupported()@.len() == 46);
}

} // verus!
