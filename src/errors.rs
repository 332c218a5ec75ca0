use vstd::prelude::*;

verus! {

/// Errors of this library.
#[derive(Debug, PartialEq, Eq)]
pub enum RstzError {
    /// A failure described in words.
    Message(String),
    /// The input ended in the middle of an item.
    Eof,
    /// An I/O failure, described in words.
    StdIoError(String),
    /// A value that was required was absent.
    NoneError,
}

impl RstzError {
    pub fn new(msg: &str) -> (r: RstzError)
        ensures
            r is Message,
            r->Message_0@ == msg@,
    {
        RstzError::Message(msg.to_owned())
    }

    pub fn from_none() -> (r: RstzError)
        ensures
            r is NoneError,
    {
        RstzError::NoneError
    }

    /// The text that describes this error.
    pub fn message(&self) -> (r: String)
        ensures
            self is Message ==> r@ == self->Message_0@,
            self is StdIoError ==> r@ == self->StdIoError_0@,
    {
        match self {
            RstzError::Message(msg) => msg.clone(),
            RstzError::Eof => "unexpected end of input".to_owned(),
            RstzError::StdIoError(msg) => msg.clone(),
            RstzError::NoneError => "unexpected None value".to_owned(),
        }
    }
}

} // verus!
