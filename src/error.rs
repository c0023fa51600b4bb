//! The ways a call into the library can fail.
use vstd::prelude::*;

verus! {

/// Why a request or a decode failed. Each kind is terminal for the call.
#[derive(Clone, Copy, Debug, PartialEq, Eq, Structural)]
pub enum Error {
    /// The TCP connection or the secure-channel setup failed.
    Connection,
    /// The remote side rejected the credentials.
    Authentication,
    /// The subsystem request, or a read or write on the open channel, failed.
    Channel,
    /// The stream ended before a frame terminator was seen.
    IncompleteFrame,
    /// The markup is not well-formed element, text and attribute structure.
    Decode,
}

} // verus!
