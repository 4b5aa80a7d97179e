use vstd::prelude::*;

verus! {

/// The failure taxonomy of the client. Every error is fatal to the current
/// session: the library performs no internal retry or recovery.
#[derive(Clone, Copy, Debug, PartialEq, Eq, Structural)]
pub enum ClientError {
    /// Bencode syntax error in a descriptor or tracker response.
    MalformedEncoding,
    /// A torrent descriptor with missing or inconsistent fields.
    InvalidMetadata,
    /// A piece index at or beyond the number of pieces.
    IndexOutOfRange,
    /// A compact peer list whose byte length is not a multiple of 6.
    MalformedPeerList,
    /// A handshake reply with the wrong protocol name or info-hash.
    HandshakeFailed,
    /// A frame whose declared length is zero, leaving no room for the tag.
    ZeroLengthFrame,
    /// A frame whose declared length exceeds the frame-size ceiling.
    FrameTooLarge,
    /// An outbound payload that would exceed the frame-size ceiling.
    PayloadTooLarge,
    /// A frame whose tag byte names no known message kind.
    UnknownMessageTag,
    /// A message whose tag is not the one the session state calls for.
    ProtocolViolation,
    /// A piece frame whose index, offset or length does not match the request.
    UnexpectedPieceData,
    /// A completed piece whose SHA-1 digest differs from the descriptor's.
    PieceHashMismatch,
    /// A deadline imposed by the caller expired; never produced here.
    Timeout,
    /// An I/O failure in the transport around the library; never produced here.
    TransportFailure,
}

} // verus!
