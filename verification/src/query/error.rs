//! What can go wrong when indexing and searching.

use vstd::prelude::*;
use crate::text::push_str;

verus! {

/// A failure of indexing or searching, with a message for the user.
#[derive(Debug)]
pub enum Error {
    /// An operation failed; the message names it.
    Simple(String),
    /// A file or a pipe could not be read or written.
    IO(String),
    /// The database refused a statement.
    Pg(String),
    /// The document parser failed.
    J4Rs(String),
    /// Stored text or bytes do not have the form they should have.
    CErr(String),
}

impl Error {
    /// The message of a failure as it is shown.
    pub open spec fn spec_message(&self) -> Seq<char> {
        match self {
            Error::Simple(m) => "SimpleError: "@ + m@,
            Error::IO(m) => m@,
            Error::Pg(m) => m@,
            Error::J4Rs(m) => m@,
            Error::CErr(m) => m@,
        }
    }

    /// The message of a failure as it is shown.
    pub fn message(&self) -> (s: String)
        ensures
            s@ == self.spec_message(),
    {
        match self {
            Error::Simple(m) => {
                let mut s = "SimpleError: ".to_owned();
                push_str(&mut s, m.as_str());
                s
            },
            Error::IO(m) => m.clone(),
            Error::Pg(m) => m.clone(),
            Error::J4Rs(m) => m.clone(),
            Error::CErr(m) => m.clone(),
        }
    }

    /// A failure of the store as a failure of the index: one that names an
    /// operation or a file stays what it is, one of a stored form keeps its
    /// message.
    pub fn from_common(e: crate::error::Error) -> (r: Error)
        ensures
            match e {
                crate::error::Error::Simple(m) => r matches Error::Simple(s) && s@ == m@,
                crate::error::Error::IO(_, m) => r matches Error::IO(s) && s@ == m@,
                crate::error::Error::Format(_) => r matches Error::CErr(s) && s@ == e.spec_message(),
            },
    {
        match e {
            crate::error::Error::Simple(m) => Error::Simple(m),
            crate::error::Error::IO(_, m) => Error::IO(m),
            crate::error::Error::Format(m) => {
                let e = crate::error::Error::Format(m);
                Error::CErr(e.message())
            },
        }
    }
}

/// The failure of an operation, with its message.
pub fn err_simple(msg: &str) -> (e: Error)
    ensures
        e matches Error::Simple(m) && m@ == msg@,
{
    Error::Simple(msg.to_owned())
}

/// The failure of an operation, as a result.
pub fn err<T>(msg: &str) -> (r: Result<T, Error>)
    ensures
        r matches Err(Error::Simple(m)) && m@ == msg@,
{
    Err(err_simple(msg))
}

} // verus!
