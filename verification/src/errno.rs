//! The recoverable errors of the library.
use vstd::prelude::*;

verus! {

/// An error that a call hands back to the cage that made it.
#[derive(Clone, Copy, Debug, PartialEq, Eq, Structural)]
pub enum Errno {
    /// The descriptor number is outside the table.
    EBADF,
    /// The descriptor is not open.
    EBADFD,
    /// An argument is not acceptable.
    EINVAL,
    /// The slot asked for is already in use.
    ELIND,
    /// Every slot of the table is in use.
    EMFILE,
    /// No run of free pages is large enough.
    ENOMEM,
}

} // verus!
