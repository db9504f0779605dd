use vstd::prelude::*;

verus! {

/// The ways in which reading, writing or running the handshake can fail.
#[derive(Clone, Copy, Debug, PartialEq, Eq, Structural)]
pub enum NetError {
    /// Fewer bytes were available than a value needs.
    UnexpectedEof,
    /// The bytes that were read do not form a valid value (a string that is not UTF-8).
    InvalidData,
    /// The part of the state that was asked for is absent.
    NotFound,
    /// The two sides speak different protocol versions.
    VersionMismatch { ours: u32, theirs: u32 },
}

} // verus!
