//! The session facade and the encode job.
//!
//! An `Encoder` is the long-lived, caller-owned session: it fixes the canvas
//! size and output path at creation, accumulates frame buffers and settings,
//! and `finish` detaches the accumulated frames into an immutable `Job`,
//! leaving the session empty and ready for reuse with its settings kept.
//! `render` runs a job's whole pipeline — adapt, quantize, assemble — and
//! returns the GIF89a bytes; the embedding program is expected to run it on
//! a worker and to write the bytes to the job's output path.

use vstd::prelude::*;

use crate::assemble::{assemble, gif_bytes, indices_ok, seq_views};
use crate::error::GifError;
use crate::image::{image_from_rgba, pixel_at, rgb_of, Image, Rgb, Rgba};
use crate::quant::{
    capped_distinct_seq, distinct_seq, is_nearest, quantize, sampled_of_frames,
    sampled_of_pixels, trunc_seq,
};

verus! {

/// Every buffer holds exactly `width * height * 4` bytes.
pub open spec fn frames_wf(frames: Seq<Vec<u8>>, width: u16, height: u16) -> bool {
    forall|f: int|
        0 <= f < frames.len() ==> (#[trigger] frames[f])@.len() == 4 * (width as int) * (
        height as int)
}

/// The session: canvas size and output path fixed at creation, settings and
/// frames accumulated by the caller until `finish`.
pub struct Encoder {
    pub width: u16,
    pub height: u16,
    pub framerate: u16,
    pub sample_factor: u32,
    pub loop_count: u16,
    pub output_path: String,
    pub frames: Vec<Vec<u8>>,
}

/// An immutable snapshot of a session's configuration and accumulated
/// frames, taken by `finish` and consumed by `render`.
pub struct Job {
    pub width: u16,
    pub height: u16,
    pub framerate: u16,
    pub sample_factor: u32,
    pub loop_count: u16,
    pub output_path: String,
    pub frames: Vec<Vec<u8>>,
}

impl Encoder {
    /// All accumulated frame buffers have the canvas size.
    pub open spec fn wf(self) -> bool {
        frames_wf(self.frames@, self.width, self.height)
    }

    /// Creates a session for one output file: the given canvas size and
    /// path, a frame rate of 25, a sample factor of 10, a loop count of
    /// zero (loop forever), and no frames.
    pub fn new(width: u16, height: u16, output_path: &str) -> (s: Self)
        ensures
            s.width == width,
            s.height == height,
            s.framerate == 25,
            s.sample_factor == 10,
            s.loop_count == 0,
            s.output_path@ == output_path@,
            s.frames@ =~= Seq::<Vec<u8>>::empty(),
            s.wf(),
    {
        Encoder {
            width,
            height,
            framerate: 25,
            sample_factor: 10,
            loop_count: 0,
            output_path: output_path.to_owned(),
            frames: Vec::new(),
        }
    }

    /// Appends one RGBA frame buffer. Succeeds exactly when the buffer
    /// holds `width * height * 4` bytes; a buffer of any other length is
    /// rejected as `MalformedBuffer` and the session — the frames already
    /// accumulated included — is left unchanged.
    pub fn add_frame(&mut self, buffer: Vec<u8>) -> (r: Result<(), GifError>)
        ensures
            r is Ok <==> buffer@.len() == 4 * (old(self).width as int) * (old(self).height as int),
            final(self).width == old(self).width,
            final(self).height == old(self).height,
            final(self).framerate == old(self).framerate,
            final(self).sample_factor == old(self).sample_factor,
            final(self).loop_count == old(self).loop_count,
            final(self).output_path == old(self).output_path,
            match r {
                Ok(u) => final(self).frames@ == old(self).frames@.push(buffer),
                Err(e) => e == GifError::MalformedBuffer && final(self).frames@ == old(
                    self,
                ).frames@,
            },
            old(self).wf() ==> final(self).wf(),
    {
        proof {
            assert((4 * (self.width as int)) * (self.height as int) < 0x2_0000_0000_0000)
                by (nonlinear_arith)
                requires
                    self.width <= 0xFFFF && self.height <= 0xFFFF,
            ;
        }
        let expected: u64 = 4u64 * (self.width as u64) * (self.height as u64);
        if (buffer.len() as u64) != expected {
            return Err(GifError::MalformedBuffer);
        }
        self.frames.push(buffer);
        Ok(())
    }

    /// Sets the frame rate. Succeeds exactly when the value fits the
    /// 16-bit range; a larger value is rejected as `ArgumentTooLarge` and
    /// the session is left unchanged.
    pub fn set_framerate(&mut self, fps: u32) -> (r: Result<(), GifError>)
        ensures
            r is Ok <==> fps <= 0xFFFF,
            r is Ok ==> *final(self) == (Encoder { framerate: fps as u16, ..*old(self) }),
            r is Err ==> *final(self) == *old(self) && r == (Err::<(), GifError>(
                GifError::ArgumentTooLarge,
            )),
    {
        if fps > 0xFFFF {
            return Err(GifError::ArgumentTooLarge);
        }
        self.framerate = fps as u16;
        Ok(())
    }

    /// Sets the loop count: zero means "loop forever", by GIF convention.
    /// Succeeds exactly when the value fits the 16-bit range; a larger
    /// value is rejected as `ArgumentTooLarge` and the session is left
    /// unchanged.
    pub fn set_loop_count(&mut self, count: u32) -> (r: Result<(), GifError>)
        ensures
            r is Ok <==> count <= 0xFFFF,
            r is Ok ==> *final(self) == (Encoder { loop_count: count as u16, ..*old(self) }),
            r is Err ==> *final(self) == *old(self) && r == (Err::<(), GifError>(
                GifError::ArgumentTooLarge,
            )),
    {
        if count > 0xFFFF {
            return Err(GifError::ArgumentTooLarge);
        }
        self.loop_count = count as u16;
        Ok(())
    }

    /// Sets the quantizer's sample factor; the whole 32-bit range is
    /// accepted here, and a zero value is rejected at encode time.
    pub fn set_sample_factor(&mut self, factor: u32)
        ensures
            *final(self) == (Encoder { sample_factor: factor, ..*old(self) }),
    {
        self.sample_factor = factor;
    }

    /// Detaches the accumulated frames into an immutable `Job` together
    /// with the current settings. The session keeps its configuration but
    /// its frame list is left empty, ready for a new accumulation cycle.
    pub fn finish(&mut self) -> (job: Job)
        ensures
            job.width == old(self).width,
            job.height == old(self).height,
            job.framerate == old(self).framerate,
            job.sample_factor == old(self).sample_factor,
            job.loop_count == old(self).loop_count,
            job.output_path == old(self).output_path,
            job.frames@ == old(self).frames@,
            final(self).width == old(self).width,
            final(self).height == old(self).height,
            final(self).framerate == old(self).framerate,
            final(self).sample_factor == old(self).sample_factor,
            final(self).loop_count == old(self).loop_count,
            final(self).output_path == old(self).output_path,
            final(self).frames@ =~= Seq::<Vec<u8>>::empty(),
            final(self).wf(),
            old(self).wf() ==> job.wf(),
    {
        let mut detached: Vec<Vec<u8>> = Vec::new();
        core::mem::swap(&mut detached, &mut self.frames);
        Job {
            width: self.width,
            height: self.height,
            framerate: self.framerate,
            sample_factor: self.sample_factor,
            loop_count: self.loop_count,
            output_path: self.output_path.clone(),
            frames: detached,
        }
    }
}

impl Job {
    /// All frame buffers have the canvas size.
    pub open spec fn wf(self) -> bool {
        frames_wf(self.frames@, self.width, self.height)
    }
}

/// The pixels that an RGBA byte buffer describes, four bytes each.
pub open spec fn pixels_of(buf: Seq<u8>) -> Seq<Rgba> {
    Seq::new((buf.len() / 4) as nat, |i: int| pixel_at(buf, i))
}

/// The colors sampled from a sequence of raw RGBA buffers at stride `s`,
/// buffer by buffer: the buffer-level counterpart of `sampled_of_frames`.
pub open spec fn sampled_of_buffers(frames: Seq<Vec<u8>>, s: int) -> Seq<Rgb>
    decreases frames.len(),
{
    if frames.len() == 0 {
        Seq::<Rgb>::empty()
    } else {
        sampled_of_buffers(frames.drop_last(), s) + sampled_of_pixels(
            pixels_of(frames.last()@),
            s,
        )
    }
}

/// `pal` is exactly the palette the quantizer derives from these buffers:
/// their distinct sampled colors in order of first occurrence, or, past
/// 256 of them, the capped distinct coarse representatives.
pub open spec fn quantized_palette(frames: Seq<Vec<u8>>, s: int, pal: Seq<Rgb>) -> bool {
    let samp = sampled_of_buffers(frames, s);
    if distinct_seq(samp).len() <= 256 {
        pal == distinct_seq(samp)
    } else {
        pal == capped_distinct_seq(trunc_seq(samp), 256)
    }
}

/// Adapted images sample to the same colors as the raw buffers they were
/// built from.
proof fn lemma_sampled_images_eq_buffers(images: Seq<Image>, frames: Seq<Vec<u8>>, s: int)
    requires
        images.len() == frames.len(),
        forall|g: int|
            0 <= g < images.len() ==> (#[trigger] images[g]).pixels@ == pixels_of(frames[g]@),
    ensures
        sampled_of_frames(images, s) == sampled_of_buffers(frames, s),
    decreases images.len(),
{
    if images.len() > 0 {
        assert forall|g: int|
            0 <= g < images.drop_last().len() implies (#[trigger] images.drop_last()[g]).pixels@
            == pixels_of(frames.drop_last()[g]@) by {
            assert(images.drop_last()[g] == images[g]);
            assert(frames.drop_last()[g] == frames[g]);
        }
        lemma_sampled_images_eq_buffers(images.drop_last(), frames.drop_last(), s);
        assert(images.last().pixels@ == pixels_of(frames.last()@));
    }
}

/// `pal` and `idx` are a valid quantization of the given RGBA frame
/// buffers: a duplicate-free palette of at most 256 colors, and one index
/// per pixel mapping it to its nearest palette entry.
pub open spec fn valid_quantization(
    frames: Seq<Vec<u8>>,
    width: u16,
    height: u16,
    pal: Seq<Rgb>,
    idx: Seq<Seq<u8>>,
) -> bool {
    &&& pal.no_duplicates()
    &&& pal.len() <= 256
    &&& idx.len() == frames.len()
    &&& forall|f: int|
        0 <= f < frames.len() ==> (#[trigger] idx[f]).len() == (width as int) * (height as int)
    &&& forall|f: int, i: int|
        0 <= f < frames.len() && 0 <= i < idx[f].len() ==> is_nearest(
            pal,
            rgb_of(pixel_at(frames[f]@, i)),
            (#[trigger] idx[f][i]) as int,
        )
}

/// Runs a job's whole pipeline: adapts every buffer into an image,
/// quantizes the frame set to one shared palette, and assembles the GIF89a
/// stream.
///
/// Succeeds exactly when the frame rate and the sample factor are positive
/// and at least one frame was accumulated; the result is then the stream
/// that `gif_bytes` describes for the quantization of the job's frames:
/// the palette is pinned by `quantized_palette`, and the indices map each
/// pixel to its nearest palette entry, which determines them uniquely. A
/// zero frame rate or sample factor is an invalid parameter; an empty
/// frame set is an encoder error.
pub fn render(job: &Job) -> (r: Result<Vec<u8>, GifError>)
    requires
        job.wf(),
    ensures
        r is Ok <==> job.framerate >= 1 && job.sample_factor >= 1 && job.frames@.len() >= 1,
        match r {
            Ok(out) => exists|pal: Seq<Rgb>, idx: Seq<Seq<u8>>|
                {
                    &&& #[trigger] valid_quantization(job.frames@, job.width, job.height, pal, idx)
                    &&& quantized_palette(job.frames@, job.sample_factor as int, pal)
                    &&& out@ == gif_bytes(
                        job.width,
                        job.height,
                        pal,
                        idx,
                        job.framerate,
                        job.loop_count,
                    )
                },
            Err(e) => {
                &&& (e == GifError::InvalidParameter <==> job.framerate == 0
                    || job.sample_factor == 0)
                &&& (e == GifError::EncoderError <==> job.framerate >= 1 && job.sample_factor >= 1
                    && job.frames@.len() == 0)
            },
        },
{
    if job.framerate == 0 {
        return Err(GifError::InvalidParameter);
    }

    // Adapt every raw buffer into an image.
    let nframes: usize = job.frames.len();
    let mut images: Vec<Image> = Vec::new();
    let mut f: usize = 0;
    while f < nframes
        invariant
            job.wf(),
            nframes == job.frames@.len(),
            f <= nframes,
            images@.len() == f,
            forall|g: int|
                0 <= g < f ==> {
                    &&& (#[trigger] images@[g]).width == job.width
                    &&& images@[g].height == job.height
                    &&& images@[g].pixels@.len() == job.width * job.height
                    &&& forall|i: int|
                        0 <= i < images@[g].pixels@.len() ==> images@[g].pixels@[i] == pixel_at(
                            job.frames@[g]@,
                            i,
                        )
                },
        decreases nframes - f,
    {
        assert(job.frames@[f as int]@.len() == 4 * (job.width as int) * (job.height as int));
        let img = match image_from_rgba(job.width, job.height, &job.frames[f]) {
            Ok(img) => img,
            Err(e) => {
                // Unreachable: the job invariant fixes every buffer's length.
                return Err(e);
            },
        };
        images.push(img);
        f += 1;
    }
    proof {
        assert forall|g: int|
            0 <= g < images@.len() implies (#[trigger] images@[g]).pixels@ == pixels_of(
            job.frames@[g]@,
        ) by {
            let buf = job.frames@[g]@;
            assert(buf.len() / 4 == (job.width as int) * (job.height as int))
                by (nonlinear_arith)
                requires
                    buf.len() == 4 * (job.width as int) * (job.height as int),
            ;
            assert(images@[g].pixels@ =~= pixels_of(buf));
        }
        lemma_sampled_images_eq_buffers(images@, job.frames@, job.sample_factor as int);
    }

    // Quantize the frame set to one shared palette.
    let (palette, indices) = match quantize(&images, job.sample_factor) {
        Ok(q) => q,
        Err(e) => {
            return Err(e);
        },
    };

    // Assemble the container.
    proof {
        let framess = seq_views(indices@);
        assert forall|g: int, i: int|
            0 <= g < framess.len() && 0 <= i < framess[g].len() implies framess[g][i]
            < palette@.len() by {
            assert(is_nearest(
                palette@,
                rgb_of(images@[g].pixels@[i]),
                indices@[g]@[i] as int,
            ));
        }
        assert(indices_ok(framess, palette@.len()));
    }
    let out = match assemble(
        job.width,
        job.height,
        &palette,
        &indices,
        job.framerate,
        job.loop_count,
    ) {
        Ok(out) => out,
        Err(e) => {
            // Unreachable: the quantizer's contract satisfies the assembler.
            return Err(e);
        },
    };
    proof {
        let pal = palette@;
        let idx = seq_views(indices@);
        assert forall|g: int, i: int|
            0 <= g < job.frames@.len() && 0 <= i < idx[g].len() implies is_nearest(
            pal,
            rgb_of(pixel_at(job.frames@[g]@, i)),
            (#[trigger] idx[g][i]) as int,
        ) by {
            assert(images@[g].pixels@[i] == pixel_at(job.frames@[g]@, i));
            assert(is_nearest(pal, rgb_of(images@[g].pixels@[i]), indices@[g]@[i] as int));
        }
        assert forall|g: int| 0 <= g < job.frames@.len() implies (#[trigger] idx[g]).len() == (
        job.width as int) * (job.height as int) by {
            assert(indices@[g]@.len() == images@[g].pixels@.len());
        }
        assert(valid_quantization(job.frames@, job.width, job.height, pal, idx));
        assert(quantized_palette(job.frames@, job.sample_factor as int, pal));
    }
    Ok(out)
}

} // verus!
