//! The closed error taxonomy of the store's operations, and the conversion
//! traits that collaborators implement to feed their failures into it.

use vstd::prelude::*;
use vstd::string::*;

verus! {

/// Every failure a store or sync operation can report.
#[derive(Debug)]
pub enum Error {
    /// A filesystem failure, with the collaborator's message.
    Io(String),
    /// A malformed item or index file, naming the offending path.
    CorruptEntry(String),
    /// The store root already exists where a fresh one was to be created.
    AlreadyExists,
    /// The store root is already a version-control working tree.
    AlreadyInitialized,
    /// Key-based authentication could not be set up.
    AuthFailure(String),
    /// The remote rejected or failed a clone, fetch or push.
    Remote(String),
    /// A rebase hit a conflict, which is never auto-resolved.
    RebaseConflict(String),
    /// The version-control identity needed to create commits is missing.
    Config(String),
}

impl Error {
    /// Wraps a collaborator's message as a filesystem failure.
    pub fn new(msg: &str) -> (r: Error)
        ensures
            r matches Error::Io(m) && m@ == msg@,
    {
        Error::Io(msg.to_owned())
    }

    /// A short label for the error's kind, for presentation.
    pub fn kind_name(&self) -> (r: &'static str)
        ensures
            r@ == match self {
                Error::Io(_) => "io error"@,
                Error::CorruptEntry(_) => "corrupt entry"@,
                Error::AlreadyExists => "already exists"@,
                Error::AlreadyInitialized => "already initialized"@,
                Error::AuthFailure(_) => "auth failure"@,
                Error::Remote(_) => "remote error"@,
                Error::RebaseConflict(_) => "rebase conflict"@,
                Error::Config(_) => "config error"@,
            },
    {
        match self {
            Error::Io(_) => "io error",
            Error::CorruptEntry(_) => "corrupt entry",
            Error::AlreadyExists => "already exists",
            Error::AlreadyInitialized => "already initialized",
            Error::AuthFailure(_) => "auth failure",
            Error::Remote(_) => "remote error",
            Error::RebaseConflict(_) => "rebase conflict",
            Error::Config(_) => "config error",
        }
    }

    /// The message carried by the error, if any.
    pub fn message(&self) -> (r: Option<&String>)
        ensures
            match self {
                Error::Io(m) => r matches Some(s) && s@ == m@,
                Error::CorruptEntry(m) => r matches Some(s) && s@ == m@,
                Error::AuthFailure(m) => r matches Some(s) && s@ == m@,
                Error::Remote(m) => r matches Some(s) && s@ == m@,
                Error::RebaseConflict(m) => r matches Some(s) && s@ == m@,
                Error::Config(m) => r matches Some(s) && s@ == m@,
                Error::AlreadyExists => r is None,
                Error::AlreadyInitialized => r is None,
            },
    {
        match self {
            Error::Io(m) => Some(m),
            Error::CorruptEntry(m) => Some(m),
            Error::AuthFailure(m) => Some(m),
            Error::Remote(m) => Some(m),
            Error::RebaseConflict(m) => Some(m),
            Error::Config(m) => Some(m),
            Error::AlreadyExists => None,
            Error::AlreadyInitialized => None,
        }
    }
}

/// A collaborator's error that can be turned into the store's [`Error`].
pub trait OxError {
    fn as_ox_error(&self) -> Error;
}

/// A collaborator's result that can be turned into the store's result.
pub trait OxResult<T, E> {
    fn into_ox_result(self) -> Result<T, Error>;
}

impl<T, E: OxError> OxResult<T, E> for Result<T, E> {
    fn into_ox_result(self) -> (r: Result<T, Error>)
        ensures
            self is Ok <==> r is Ok,
            self matches Ok(v) ==> (r matches Ok(w) && w == v),
    {
        match self {
            Ok(v) => Ok(v),
            Err(e) => Err(e.as_ox_error()),
        }
    }
}

} // verus!
