//! What can go wrong while an einsum is compiled.

use vstd::prelude::*;
use vstd::string::*;
use crate::text::{decimal, push_decimal};

verus! {

/// The ways in which compiling an einsum fails.
#[derive(Debug, PartialEq, Eq)]
pub enum Error {
    /// The text is not a list of subscripts; it is kept as it was given.
    InvalidSubscripts(String),
    /// The subscripts name `subscripts` inputs, but `args` tensors were given.
    ArgumentMismatch { subscripts: usize, args: usize },
    /// The inputs chosen for a first step are fewer than two, or all of them.
    IllegalFactorization,
    /// The arguments of the macro do not begin with a string literal.
    MissingSubscripts,
}

/// What an [`Error`] holds.
pub enum ErrorView {
    InvalidSubscripts(Seq<char>),
    ArgumentMismatch { subscripts: usize, args: usize },
    IllegalFactorization,
    MissingSubscripts,
}

impl ErrorView {
    /// The message that reports the error.
    pub open spec fn message(self) -> Seq<char> {
        match self {
            ErrorView::InvalidSubscripts(input) => "Invalid subscripts: "@ + input,
            ErrorView::ArgumentMismatch { subscripts, args } => {
                "Argument number mismatch: subscripts ("@ + decimal(subscripts as nat)
                    + "), args ("@ + decimal(args as nat) + ")"@
            },
            ErrorView::IllegalFactorization => {
                "Illegal factorization: the first step takes at least two inputs, and not all"@
            },
            ErrorView::MissingSubscripts => "einsum! must start with subscript string literal"@,
        }
    }
}

impl View for Error {
    type V = ErrorView;

    open spec fn view(&self) -> ErrorView {
        match self {
            Error::InvalidSubscripts(input) => ErrorView::InvalidSubscripts(input@),
            Error::ArgumentMismatch { subscripts, args } => ErrorView::ArgumentMismatch {
                subscripts: *subscripts,
                args: *args,
            },
            Error::IllegalFactorization => ErrorView::IllegalFactorization,
            Error::MissingSubscripts => ErrorView::MissingSubscripts,
        }
    }
}

impl Error {
    /// The message that reports the error.
    pub fn to_string(&self) -> (text: String)
        ensures
            text@ == self@.message(),
    {
        match self {
            Error::InvalidSubscripts(input) => {
                let mut out = String::from_str("Invalid subscripts: ");
                out.append(input.as_str());
                out
            },
            Error::ArgumentMismatch { subscripts, args } => {
                let mut out = String::from_str("Argument number mismatch: subscripts (");
                push_decimal(&mut out, *subscripts);
                out.append("), args (");
                push_decimal(&mut out, *args);
                out.append(")");
                out
            },
            Error::IllegalFactorization => {
                String::from_str(
                    "Illegal factorization: the first step takes at least two inputs, and not all",
                )
            },
            Error::MissingSubscripts => {
                String::from_str("einsum! must start with subscript string literal")
            },
        }
    }
}

} // verus!
