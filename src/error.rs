//! The library's errors.
use vstd::prelude::*;

verus! {

/// What went wrong.
#[derive(Clone, Copy, Debug, PartialEq, Eq, Structural)]
pub enum ErrorKind {
    /// The path is neither a real location nor an entry of a container.
    NotFound,
    /// The extension is that of a container format that no reader handles.
    UnsupportedFormat,
    /// The file has a container's extension but its content does not parse.
    InvalidContainer,
    /// An image or an entry's payload could not be decoded.
    DecodeFailure,
    /// Permissions, the disk, or another error of the operating system.
    IoFailure,
}

/// An error with its kind and a message for the client.
#[derive(Debug)]
pub struct ImgetError {
    pub kind: ErrorKind,
    pub message: String,
}

/// The HTTP status that answers an error of kind `k`.
pub open spec fn status_of(k: ErrorKind) -> u16 {
    match k {
        ErrorKind::NotFound => 404,
        ErrorKind::UnsupportedFormat => 415,
        _ => 500,
    }
}

impl ImgetError {
    pub fn new(kind: ErrorKind, message: String) -> (r: ImgetError)
        ensures
            r.kind == kind,
            r.message@ == message@,
    {
        ImgetError { kind, message }
    }

    /// The HTTP status that answers this error.
    pub fn status_code(&self) -> (r: u16)
        ensures
            r == status_of(self.kind),
    {
        match self.kind {
            ErrorKind::NotFound => 404,
            ErrorKind::UnsupportedFormat => 415,
            _ => 500,
        }
    }

    /// The message for the client.
    pub fn message(&self) -> (r: String)
        ensures
            r@ == self.message@,
    {
        self.message.clone()
    }
}

} // verus!
