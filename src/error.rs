use vstd::prelude::*;

verus! {

/// The ways in which an operation of the node can fail.
#[derive(Clone, Copy, Debug, PartialEq, Eq, Structural)]
pub enum Error {
    /// Fewer bytes were available than the value being decoded needs.
    Truncated,
    /// The bytes do not form a well-formed value (a non-canonical integer, bad UTF-8).
    Decode,
    /// The frame header is wrong (bad magic number).
    Framing,
    /// A message arrived that the handshake state does not allow, or of an unknown type.
    ProtocolViolation,
    /// The persistent store could not be reached or did not hold the key.
    StorageUnavailable,
    /// A transaction failed its sanity or value check, or spends outputs that are unknown.
    TxNotValid,
    /// The connection ended.
    ConnectionClosed,
}

} // verus!
