//! The failure taxonomy of the library.

use vstd::prelude::*;

verus! {

/// What can go wrong in an operation of this crate or in the external steps
/// an orchestrator performs on its behalf.
#[derive(Clone, Copy, Debug, PartialEq, Eq, Structural)]
pub enum Error {
    /// An unknown scheduler name, an unknown mode code, or flag text the
    /// configuration document cannot carry.
    InvalidInput,
    /// The configuration document could not be read, parsed or written.
    ConfigIo,
    /// The remote scheduling service could not be reached or refused a call.
    RemoteCall,
    /// The privileged relocation of the configuration file failed.
    PrivilegedCopy,
}

impl Error {
    /// A short human-readable description of the failure.
    pub fn describe(&self) -> (r: &'static str)
        ensures
            r@.len() > 0,
    {
        proof {
            reveal_strlit("invalid scheduler name, mode code or flags");
            reveal_strlit("cannot read, parse or write the configuration document");
            reveal_strlit("the scheduling service could not be reached");
            reveal_strlit("the privileged copy of the configuration failed");
        }
        match self {
            Error::InvalidInput => "invalid scheduler name, mode code or flags",
            Error::ConfigIo => "cannot read, parse or write the configuration document",
            Error::RemoteCall => "the scheduling service could not be reached",
            Error::PrivilegedCopy => "the privileged copy of the configuration failed",
        }
    }
}

} // verus!
