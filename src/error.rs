use vstd::prelude::*;

verus! {

/// Recoverable failures of the preprocessing and ranking pipeline.
#[derive(Debug, Clone, Copy, PartialEq, Eq, Structural)]
pub enum PipelineError {
    /// The input bytes are not an image that can be decoded, or decode to an
    /// image without pixels.
    Decode,
    /// The decoded image is too large for this machine to resample.
    TooLarge,
    /// The runtime's output does not hold one probability per class.
    OutputLength,
    /// A probability in the runtime's output is not a number.
    InvalidProbability,
}

} // verus!
