//! The error taxonomy of the encoding pipeline.

use vstd::prelude::*;

verus! {

/// Every failure the pipeline can report.
///
/// The validation errors (`ArgumentTooLarge`, `InvalidParameter`,
/// `MalformedBuffer`) are detected synchronously by the call that introduced
/// the bad value. `EncoderError` marks an internal invariant violation found
/// while quantizing or assembling. `IoError` is reserved for the embedding
/// program: the library never performs I/O itself, but a job that writes the
/// output artifact reports write failures under this variant.
#[derive(Clone, Copy, Debug, PartialEq, Eq, Structural)]
pub enum GifError {
    /// A numeric argument exceeds its declared 16-bit range.
    ArgumentTooLarge,
    /// A parameter value is invalid, such as a zero sample factor
    /// or a zero frame rate.
    InvalidParameter,
    /// A frame buffer's byte length is not exactly `width * height * 4`.
    MalformedBuffer,
    /// An internal quantization or assembly invariant was violated.
    EncoderError,
    /// The output artifact could not be created or written.
    IoError,
}

/// The human-readable description of each failure.
pub open spec fn message_of(e: GifError) -> Seq<char> {
    match e {
        GifError::ArgumentTooLarge => "The provided argument was too large"@,
        GifError::InvalidParameter => "a parameter was invalid"@,
        GifError::MalformedBuffer => "a frame buffer has the wrong length"@,
        GifError::EncoderError => "GIF encoder encountered an error"@,
        GifError::IoError => "the output file could not be written"@,
    }
}

impl GifError {
    /// A human-readable message for this failure, as carried by a job's
    /// completion signal.
    pub fn message(&self) -> (m: String)
        ensures
            m@ == message_of(*self),
    {
        match self {
            GifError::ArgumentTooLarge => "The provided argument was too large".to_owned(),
            GifError::InvalidParameter => "a parameter was invalid".to_owned(),
            GifError::MalformedBuffer => "a frame buffer has the wrong length".to_owned(),
            GifError::EncoderError => "GIF encoder encountered an error".to_owned(),
            GifError::IoError => "the output file could not be written".to_owned(),
        }
    }
}

} // verus!
