//! An animated-GIF encoding pipeline: a pixel-buffer adapter, a color
//! quantizer, a GIF89a container assembler, and a session facade that
//! accumulates frames and settings before an encode job is run.
//!
//! The library itself is pure: it turns raw RGBA frame buffers into the
//! bytes of a GIF89a file. Writing those bytes to disk, and running a job
//! on a worker thread, belong to the embedding program.

pub mod assemble;
pub mod error;
pub mod image;
pub mod lzw;
pub mod quant;
pub mod session;

pub use error::GifError;
