use vstd::prelude::*;

verus! {

/// Failures of the engine and of the memory backends.
#[derive(Clone, Copy, Debug, PartialEq, Eq, Structural)]
pub enum Error {
    /// A byte sequence handed to the codec does not have the width of the scalar.
    InvalidLength,
    /// The operating system refused access to the target process.
    AccessDenied,
    /// The target process exited, or no process has that identifier.
    ProcessGone,
    /// The operating system transferred fewer bytes than requested.
    PartialTransfer,
    /// A write or a read of the current value was asked of an empty search.
    NoCandidate,
}

} // verus!
