//! The single failure value shared by both directions of the codec.

use vstd::prelude::*;

verus! {

/// A codec failure: a human-readable message and an optional wrapped
/// causal error (for example, the underlying numeric-parse failure).
#[derive(Debug)]
pub struct Error {
    pub message: String,
    pub cause: Option<Box<Error>>,
}

/// The mathematical value of an [`Error`]: the message text and the
/// cause chain.
pub struct ErrorModel {
    pub message: Seq<char>,
    pub cause: Option<Box<ErrorModel>>,
}

/// An error with no cause.
pub open spec fn leaf_error(message: Seq<char>) -> ErrorModel {
    ErrorModel { message, cause: Option::None }
}

/// An error wrapping a causal one.
pub open spec fn wrapped_error(message: Seq<char>, cause: ErrorModel) -> ErrorModel {
    ErrorModel { message, cause: Option::Some(Box::new(cause)) }
}

impl Error {
    pub open spec fn model(self) -> ErrorModel
        decreases self,
    {
        ErrorModel {
            message: self.message@,
            cause: match self.cause {
                Option::Some(c) => Option::Some(Box::new((*c).model())),
                Option::None => Option::None,
            },
        }
    }
}

impl Error {
    /// Spec-level text of this error: the message, with the causal chain
    /// appended as `message: cause`.
    pub open spec fn spec_describe(self) -> Seq<char>
        decreases self,
    {
        match self.cause {
            Option::Some(c) => self.message@ + ": "@ + c.spec_describe(),
            Option::None => self.message@,
        }
    }

    pub fn new(message: &str, cause: Option<Box<Error>>) -> (e: Error)
        ensures
            e.message@ == message@,
            e.cause == cause,
    {
        Error { message: message.to_owned(), cause }
    }

    /// The rendered text of the error: the message, then each cause in turn.
    pub fn describe(&self) -> (r: String)
        ensures
            r@ == self.spec_describe(),
        decreases *self,
    {
        match &self.cause {
            Option::Some(c) => {
                let mut s = self.message.clone();
                s.append(": ");
                let rest = c.describe();
                s.append(rest.as_str());
                s
            },
            Option::None => self.message.clone(),
        }
    }
}

} // verus!
