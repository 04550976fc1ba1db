//! The ways in which decoding a frame can fail.
use vstd::prelude::*;

verus! {

/// Why a frame could not be decoded. Every variant but `NegativeLpcShift` says that the
/// bitstream is malformed; `NegativeLpcShift` marks a feature that this decoder does not
/// implement.
#[derive(Debug, Clone, Copy, PartialEq, Eq, Structural)]
pub enum DecodeError {
    /// The data ended before the frame did.
    EndOfStream,
    /// The frame counter does not follow the variable-length integer encoding.
    MalformedCounter,
    /// A fixed-blocksize frame number needs more than 31 bits.
    FrameNumberTooLarge,
    /// The block size code is reserved.
    ReservedBlockSize,
    /// The sample rate code is reserved.
    ReservedSampleRate,
    /// An explicit sample rate lies outside `1..=655350`.
    SampleRateOutOfBounds,
    /// The bit depth code is reserved.
    ReservedBitsPerSample,
    /// The channel assignment code is reserved.
    ReservedChannelAssignment,
    /// The header checksum does not match the header.
    HeaderCrcMismatch,
    /// Neither the frame nor the stream gives the bits per sample.
    MissingBitsPerSample,
    /// Neither the frame nor the stream gives the sample rate.
    MissingSampleRate,
    /// The padding bit before a subframe is not zero.
    SubframePadding,
    /// The subframe type code is reserved.
    ReservedSubframeType,
    /// A fixed predictor of an order above 4.
    FixedOrderTooLarge,
    /// More wasted bits than the subframe has bits per sample.
    WastedBitsTooLarge,
    /// A subframe whose samples would be wider than 32 bits.
    SampleWidthTooLarge,
    /// A unary count that does not fit in 32 bits.
    UnaryTooLong,
    /// The residual coding method is reserved.
    ReservedResidualMethod,
    /// The first partition is shorter than the predictor order.
    PartitionTooSmall,
    /// The partitions do not add up to the block size.
    BlockSizeMismatch,
    /// The quantized coefficient precision is reserved.
    ReservedQlpPrecision,
    /// The frame checksum does not match the frame.
    FrameCrcMismatch,
    /// A linear predictor with a negative coefficient shift.
    NegativeLpcShift,
}

impl DecodeError {
    /// Whether the error marks an unsupported feature rather than a malformed bitstream.
    pub fn is_unsupported(&self) -> (r: bool)
        ensures
            r == (*self == DecodeError::NegativeLpcShift),
    {
        match self {
            DecodeError::NegativeLpcShift => true,
            _ => false,
        }
    }
}

} // verus!
