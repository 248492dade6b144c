//! What can go wrong in the library.

use vstd::prelude::*;
use crate::text::push_str;

verus! {

/// What is the matter with a file or directory.
#[derive(Debug, Copy, Clone, PartialEq, Eq, Structural)]
pub enum IoKind {
    /// It is not there.
    NotFound,
    /// It could not be read; it is not known whether it is there.
    Unreadable,
}

/// A failure, with a message for the user.
#[derive(Debug)]
pub enum Error {
    /// An operation failed; the message names it.
    Simple(String),
    /// Stored text or bytes do not have the form they should have.
    Format(String),
    /// A file or directory is not there or cannot be read.
    IO(IoKind, String),
}

impl Error {
    /// The message of a failure as it is shown.
    pub open spec fn spec_message(&self) -> Seq<char> {
        match self {
            Error::Simple(m) => "SimpleError: "@ + m@,
            Error::Format(m) => "FormatError: "@ + m@,
            Error::IO(_, m) => m@,
        }
    }

    /// The message of a failure as it is shown.
    pub fn message(&self) -> (s: String)
        ensures
            s@ == self.spec_message(),
    {
        match self {
            Error::Simple(m) => {
                let mut s = "SimpleError: ".to_owned();
                push_str(&mut s, m.as_str());
                s
            },
            Error::Format(m) => {
                let mut s = "FormatError: ".to_owned();
                push_str(&mut s, m.as_str());
                s
            },
            Error::IO(_, m) => m.clone(),
        }
    }
}

/// The failure of an operation, with its message.
pub fn err_simple(msg: &str) -> (e: Error)
    ensures
        e matches Error::Simple(m) && m@ == msg@,
{
    Error::Simple(msg.to_owned())
}

/// The failure of an operation, as a result.
pub fn err<T>(msg: &str) -> (r: Result<T, Error>)
    ensures
        r matches Err(Error::Simple(m)) && m@ == msg@,
{
    Err(err_simple(msg))
}

/// The failure for want of a file or directory, with its message.
pub fn err_not_found(msg: &str) -> (e: Error)
    ensures
        e matches Error::IO(kind, m) && kind == IoKind::NotFound && m@ == msg@,
{
    Error::IO(IoKind::NotFound, msg.to_owned())
}

/// The failure to read a file, with its message.
pub fn err_unreadable(msg: &str) -> (e: Error)
    ensures
        e matches Error::IO(kind, m) && kind == IoKind::Unreadable && m@ == msg@,
{
    Error::IO(IoKind::Unreadable, msg.to_owned())
}

/// A stored form that cannot be read, with what is wrong with it.
pub fn err_format(msg: &str) -> (e: Error)
    ensures
        e matches Error::Format(m) && m@ == msg@,
{
    Error::Format(msg.to_owned())
}


impl Error {
    /// The text that a failure carries.
    pub open spec fn text(&self) -> Seq<char> {
        match self {
            Error::Simple(m) => m@,
            Error::Format(m) => m@,
            Error::IO(_, m) => m@,
        }
    }

    /// `outer` is the failure `self` with the place where it happened put
    /// before its text: a failure of the same kind, whose text is `context`, a
    /// colon and a space, and the text of `self`.
    pub open spec fn framed(&self, outer: &Error, context: Seq<char>) -> bool {
        &&& match self {
            Error::Simple(_) => outer is Simple,
            Error::Format(_) => outer is Format,
            Error::IO(kind, _) => outer matches Error::IO(k, _) && k == kind,
        }
        &&& outer.text() == context + ": "@ + self.text()
    }

    /// The failure with the place where it happened put before its text.
    pub fn in_context(self, context: &str) -> (outer: Error)
        ensures
            self.framed(&outer, context@),
    {
        let mut text = context.to_owned();
        push_str(&mut text, ": ");
        match self {
            Error::Simple(m) => {
                push_str(&mut text, m.as_str());
                Error::Simple(text)
            },
            Error::Format(m) => {
                push_str(&mut text, m.as_str());
                Error::Format(text)
            },
            Error::IO(kind, m) => {
                push_str(&mut text, m.as_str());
                Error::IO(kind, text)
            },
        }
    }
}

} // verus!
