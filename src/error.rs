use vstd::prelude::*;

verus! {

/// Every way in which decoding can fail.
#[derive(Debug, Clone, Copy, PartialEq, Eq, Structural)]
pub enum FlacError {
    /// The input does not start with the `fLaC` marker.
    BadMagic,
    /// A frame does not start with the sync pattern.
    SyncLost,
    /// A metadata block disagrees with its declared length, or is otherwise malformed.
    MalformedMetadata,
    /// A frame or sample number is not in canonical variable-length form.
    MalformedVarint,
    /// A residual's partition order does not divide the block.
    InvalidPartitionOrder,
    /// An LPC subframe declares a negative quantization shift.
    InvalidShift,
    /// The input ended in the middle of a field.
    UnexpectedEnd,
    /// The input ended in the middle of a frame.
    TruncatedStream,
    /// A header or footer checksum does not match the bytes read.
    ChecksumMismatch,
    /// The first metadata block is not a stream-info block.
    MissingStreamInfo,
    /// A table lookup hit a reserved or undefined code.
    ReservedCodeUsed,
    /// A subframe declares more wasted bits than its sample width.
    InvalidWastedBits,
    /// A residual or reconstructed sample does not fit in 33 signed bits.
    SampleOverflow,
}

} // verus!
