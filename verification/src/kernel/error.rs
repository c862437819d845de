//! Kernel decision errors. Descriptor and process errors are the caller's.

use vstd::prelude::*;

verus! {

#[derive(Clone, Copy, Debug, PartialEq, Eq, Structural)]
pub enum Error {
    /// The child has exited; input is refused.
    Dead,
    /// A second writer attach was refused.
    AttachRefused,
    /// No leaf with that session id.
    UnknownSession,
    /// The foreground cwd could not be read.
    CwdUnreadable,
    /// A `NodeId` not held by this kernel's container tree.
    UnknownNode,
    /// The requested offset is no longer (or not yet) in the byte history.
    CheckpointEvicted,
    /// Recovery was asked for before any checkpoint was installed.
    NoCheckpoint,
    /// A checkpoint in a format this kernel does not speak.
    IncompatibleCheckpoint,
}

impl Error {
    /// Human-readable form of the error.
    pub fn message(&self) -> (s: String)
        ensures
            s@ == match self {
                Error::Dead => "child has exited"@,
                Error::AttachRefused => "second attach refused"@,
                Error::UnknownSession => "unknown session id"@,
                Error::CwdUnreadable => "cwd unreadable"@,
                Error::UnknownNode => "unknown container node id"@,
                Error::CheckpointEvicted => "checkpoint offset evicted"@,
                Error::NoCheckpoint => "no checkpoint installed"@,
                Error::IncompatibleCheckpoint => "incompatible checkpoint format"@,
            },
    {
        match self {
            Error::Dead => String::from_str("child has exited"),
            Error::AttachRefused => String::from_str("second attach refused"),
            Error::UnknownSession => String::from_str("unknown session id"),
            Error::CwdUnreadable => String::from_str("cwd unreadable"),
            Error::UnknownNode => String::from_str("unknown container node id"),
            Error::CheckpointEvicted => String::from_str("checkpoint offset evicted"),
            Error::NoCheckpoint => String::from_str("no checkpoint installed"),
            Error::IncompatibleCheckpoint => String::from_str("incompatible checkpoint format"),
        }
    }
}

} // verus!
