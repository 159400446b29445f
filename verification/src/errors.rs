//! Typed failure taxonomy: remote-supplied malformed input never panics,
//! it becomes one of these values, and the owning aggregate decides what to
//! drop or retry.
use vstd::prelude::*;

verus! {

/// A descriptor that cannot be accepted: undecodable bytes, or structure
/// that breaks the descriptor invariants. Fatal at torrent-add time.
#[derive(Clone, Copy, Debug, PartialEq, Eq, Structural)]
pub enum DescriptorError {
    /// The buffer is not a canonical descriptor encoding.
    Malformed,
    /// The descriptor decodes but its digest list does not match its sizes.
    InvalidStructure,
}

/// A protocol violation on one peer connection: always fatal to the single
/// session, never to the whole torrent.
#[derive(Clone, Copy, Debug, PartialEq, Eq, Structural)]
pub enum WireError {
    /// Handshake of the wrong length or with the wrong protocol string.
    MalformedHandshake,
    /// Handshake for a different content id.
    ContentIdMismatch,
    /// A frame whose length does not fit its message id.
    MalformedFrame,
    /// A message id outside the protocol.
    UnknownMessageId,
    /// A piece index beyond the torrent's piece count.
    OutOfRangePieceIndex,
    /// A bitfield message whose payload does not fit the piece count.
    BadBitfieldLength,
}

/// A block write the piece store must refuse: the range falls outside the
/// piece's expected length.
#[derive(Clone, Copy, Debug, PartialEq, Eq, Structural)]
pub enum StoreError {
    /// Offset or length outside the piece.
    OutOfRange,
    /// No piece with that index.
    NoSuchPiece,
}

/// Why one tracker exchange failed; recorded per endpoint, never fatal to
/// the whole operation.
#[derive(Clone, Copy, Debug, PartialEq, Eq, Structural)]
pub enum TrackerError {
    /// The endpoint could not be reached or the transfer broke off.
    Transport,
    /// The endpoint answered with a non-2xx status.
    BadStatus,
    /// The body did not decode as a tracker response.
    Undecodable,
}

} // verus!
