//! Error kinds of the codec and of the resolver.

use vstd::prelude::*;

verus! {

/// Failures of the byte-cursor and of the codec built on it.
#[derive(Debug, Clone, Copy, PartialEq, Eq, Structural)]
pub enum BytePacketBufferError {
    /// A read or write touched a position at or past the buffer capacity.
    PosOutOfRange,
    /// A requested range does not fit inside the buffer.
    RangeOutOfTheBuffer,
    /// Decompressing a name followed more pointer jumps than the limit allows.
    MaxJumpsExceeded { limit: usize },
    /// A name label of more than 63 bytes cannot be written.
    LabelLengthTooBig { length: usize },
}

/// Failures of one resolution step.
#[derive(Debug, Clone, Copy, PartialEq, Eq, Structural)]
pub enum DnsServerError {
    /// The underlying datagram transport failed to send or receive.
    UdpError,
    /// Encoding or decoding a message failed.
    BytePacketBufferErr { error: BytePacketBufferError },
    /// A reply carried a transaction id other than the one sent.
    PacketIdCorrupted { sent_id: u16, received_id: u16 },
}

impl From<BytePacketBufferError> for DnsServerError {
    fn from(err: BytePacketBufferError) -> (r: Self) {
        DnsServerError::BytePacketBufferErr { error: err }
    }
}

impl vstd::std_specs::convert::FromSpecImpl<BytePacketBufferError> for DnsServerError {
    open spec fn obeys_from_spec() -> bool {
        true
    }

    open spec fn from_spec(err: BytePacketBufferError) -> Self {
        DnsServerError::BytePacketBufferErr { error: err }
    }
}

} // verus!
