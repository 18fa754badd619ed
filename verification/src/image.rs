//! The pixel-buffer adapter: raw RGBA byte buffers become `Image` values.

use vstd::prelude::*;

use crate::error::GifError;

verus! {

/// One RGBA pixel, as four 8-bit channels.
#[derive(Clone, Copy, Debug, PartialEq, Eq, Structural)]
pub struct Rgba {
    pub r: u8,
    pub g: u8,
    pub b: u8,
    pub a: u8,
}

/// One RGB color, as stored in a GIF color table.
#[derive(Clone, Copy, Debug, PartialEq, Eq, Structural)]
pub struct Rgb {
    pub r: u8,
    pub g: u8,
    pub b: u8,
}

/// The color of a pixel, with the alpha channel dropped.
pub open spec fn rgb_of(p: Rgba) -> Rgb {
    Rgb { r: p.r, g: p.g, b: p.b }
}

/// The pixel that bytes `4*i .. 4*i + 4` of an RGBA buffer describe.
pub open spec fn pixel_at(buf: Seq<u8>, i: int) -> Rgba {
    Rgba { r: buf[4 * i], g: buf[4 * i + 1], b: buf[4 * i + 2], a: buf[4 * i + 3] }
}

/// A decoded frame: canvas size and a flat, row-major pixel sequence.
/// Never mutated after construction.
pub struct Image {
    pub width: u16,
    pub height: u16,
    pub pixels: Vec<Rgba>,
}

impl Image {
    /// The frame is well formed: it holds exactly `width * height` pixels.
    pub open spec fn wf(self) -> bool {
        self.pixels@.len() == self.width * self.height
    }
}

/// Converts a raw RGBA byte buffer into an `Image` of the given size.
///
/// Succeeds exactly when the buffer holds `width * height * 4` bytes; the
/// resulting image has one pixel per 4-byte group, in buffer order. A buffer
/// of any other length is a caller error, reported as `MalformedBuffer`.
pub fn image_from_rgba(width: u16, height: u16, buf: &Vec<u8>) -> (r: Result<Image, GifError>)
    ensures
        match r {
            Ok(img) => {
                &&& buf@.len() == 4 * (width as int) * (height as int)
                &&& img.width == width
                &&& img.height == height
                &&& img.wf()
                &&& img.pixels@.len() == width * height
                &&& forall|i: int|
                    0 <= i < img.pixels@.len() ==> img.pixels@[i] == pixel_at(buf@, i)
            },
            Err(e) => {
                &&& e == GifError::MalformedBuffer
                &&& buf@.len() != 4 * (width as int) * (height as int)
            },
        },
{
    assert((4 * (width as int)) * (height as int) < 0x2_0000_0000_0000) by (nonlinear_arith)
        requires
            width <= 0xFFFF && height <= 0xFFFF,
    ;
    let expected: u64 = 4u64 * (width as u64) * (height as u64);
    if (buf.len() as u64) != expected {
        return Err(GifError::MalformedBuffer);
    }
    let n: usize = buf.len() / 4;
    assert(buf@.len() == 4 * (width as int) * (height as int));
    assert(n == (width as int) * (height as int) && buf@.len() == 4 * (n as int))
        by (nonlinear_arith)
        requires
            buf@.len() == 4 * (width as int) * (height as int),
            n == buf@.len() as int / 4,
    ;
    let blen: usize = buf.len();
    let mut pixels: Vec<Rgba> = Vec::new();
    let mut i: usize = 0;
    while i < n
        invariant
            blen == buf@.len(),
            buf@.len() == 4 * n,
            i <= n,
            pixels@.len() == i,
            forall|j: int| 0 <= j < i ==> pixels@[j] == pixel_at(buf@, j),
        decreases n - i,
    {
        assert(4 * i + 3 < buf@.len());
        let base: usize = 4 * i;
        let p = Rgba { r: buf[base], g: buf[base + 1], b: buf[base + 2], a: buf[base + 3] };
        pixels.push(p);
        i += 1;
    }
    Ok(Image { width, height, pixels })
}

} // verus!
