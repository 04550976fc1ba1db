//! Decoding of a single frame of a lossless audio stream into planar integer samples:
//! frame and subframe headers, Rice and escape-coded residuals, the fixed and linear
//! predictors, stereo decorrelation, and the header and frame checksums.
pub mod bits;
pub mod crc;
pub mod decorrelate;
pub mod error;
pub mod framing;
pub mod header;
pub mod predict;
pub mod residual;
pub mod subframe;

pub use bits::BitReader;
pub use error::DecodeError;
pub use framing::FrameStream;
