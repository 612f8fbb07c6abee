//! What can go wrong.

use crate::text::owned;
use vstd::prelude::*;

verus! {

/// The outcome of an operation that can fail.
pub type Result<T> = std::result::Result<T, Error>;

/// A failure.
#[derive(Debug, Clone, PartialEq, Eq)]
pub enum Error {
    InvalidShape(String),
    DeviceMismatch,
    CudaUnavailable,
    Execution(String),
    Trace(String),
}

/// A failure, with its message as a sequence of characters.
pub enum Failure {
    InvalidShape(Seq<char>),
    DeviceMismatch,
    CudaUnavailable,
    Execution(Seq<char>),
    Trace(Seq<char>),
}

impl View for Error {
    type V = Failure;

    open spec fn view(&self) -> Failure {
        match self {
            Error::InvalidShape(message) => Failure::InvalidShape(message@),
            Error::DeviceMismatch => Failure::DeviceMismatch,
            Error::CudaUnavailable => Failure::CudaUnavailable,
            Error::Execution(message) => Failure::Execution(message@),
            Error::Trace(message) => Failure::Trace(message@),
        }
    }
}

impl Failure {
    /// The text shown for the failure.
    pub open spec fn text(self) -> Seq<char> {
        match self {
            Failure::InvalidShape(message) => "invalid shape: "@ + message,
            Failure::DeviceMismatch => "all tensors must be on the same device"@,
            Failure::CudaUnavailable => "CUDA support is disabled; rebuild with --features cuda"@,
            Failure::Execution(message) => "execution failed: "@ + message,
            Failure::Trace(message) => "JIT trace failed: "@ + message,
        }
    }
}

impl Error {
    /// The text shown for the failure.
    pub fn message(&self) -> (r: String)
        ensures
            r@ == self@.text(),
    {
        match self {
            Error::InvalidShape(message) => {
                let mut r = owned("invalid shape: ");
                r.append(message.as_str());
                r
            },
            Error::DeviceMismatch => owned("all tensors must be on the same device"),
            Error::CudaUnavailable => owned(
                "CUDA support is disabled; rebuild with --features cuda",
            ),
            Error::Execution(message) => {
                let mut r = owned("execution failed: ");
                r.append(message.as_str());
                r
            },
            Error::Trace(message) => {
                let mut r = owned("JIT trace failed: ");
                r.append(message.as_str());
                r
            },
        }
    }

    /// An invalid-shape failure with a fixed message.
    pub fn shape(message: &str) -> (r: Error)
        ensures
            r@ == Failure::InvalidShape(message@),
    {
        Error::InvalidShape(owned(message))
    }

    /// An execution failure with a fixed message.
    pub fn execution(message: &str) -> (r: Error)
        ensures
            r@ == Failure::Execution(message@),
    {
        Error::Execution(owned(message))
    }
}

} // verus!
