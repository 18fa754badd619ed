//! The GIF assembler: quantized frames, a shared palette, a frame rate and
//! a loop count become a complete GIF89a byte stream.
//!
//! The stream is: header, logical screen descriptor, global color table,
//! Netscape looping application extension, then per frame a graphic control
//! extension, an image descriptor and the LZW-coded pixel indices, and a
//! trailer byte. The per-frame disposal method is fixed to "do not
//! dispose"; frames never carry a local color table.

use vstd::arithmetic::power2::{lemma2_to64, pow2};
use vstd::prelude::*;

use crate::error::GifError;
use crate::image::Rgb;
use crate::lzw::{frame_data, write_frame_data};

verus! {

/// The views of a sequence of byte vectors.
pub open spec fn seq_views(v: Seq<Vec<u8>>) -> Seq<Seq<u8>> {
    Seq::new(v.len(), |i: int| v[i]@)
}

/// A 16-bit value in little-endian byte order.
pub open spec fn u16_le(x: u16) -> Seq<u8> {
    seq![(x % 256) as u8, (x / 256) as u8]
}

/// The six signature bytes, "GIF89a".
pub open spec fn header_bytes() -> Seq<u8> {
    seq![0x47u8, 0x49u8, 0x46u8, 0x38u8, 0x39u8, 0x61u8]
}

/// The size field of the global color table: the table holds
/// `pow2(gct_exp(len) + 1)` entries, the smallest power of two, of at
/// least two entries, that covers a palette of `len` colors.
pub open spec fn gct_exp(len: nat) -> nat {
    if len <= 2 {
        0
    } else if len <= 4 {
        1
    } else if len <= 8 {
        2
    } else if len <= 16 {
        3
    } else if len <= 32 {
        4
    } else if len <= 64 {
        5
    } else if len <= 128 {
        6
    } else {
        7
    }
}

/// The LZW minimum code size used with a palette of `len` colors: the bit
/// width of the color table, but never less than two.
pub open spec fn min_code_size(len: nat) -> nat {
    if gct_exp(len) == 0 {
        2
    } else {
        gct_exp(len) + 1
    }
}

/// The logical screen descriptor: canvas size, a packed field announcing a
/// global color table of `pow2(exp + 1)` entries at full color resolution,
/// background color index zero, default pixel aspect ratio.
pub open spec fn lsd_bytes(w: u16, h: u16, exp: nat) -> Seq<u8> {
    u16_le(w) + u16_le(h) + seq![(0xF0 + exp) as u8, 0u8, 0u8]
}

/// The palette entries, three bytes each, in palette order.
pub open spec fn pal_bytes(pal: Seq<Rgb>) -> Seq<u8>
    decreases pal.len(),
{
    if pal.len() == 0 {
        Seq::<u8>::empty()
    } else {
        pal_bytes(pal.drop_last()) + seq![pal.last().r, pal.last().g, pal.last().b]
    }
}

/// `n` zero bytes.
pub open spec fn zero_bytes(n: nat) -> Seq<u8> {
    Seq::new(n, |i: int| 0u8)
}

/// The global color table: the palette, padded with black entries to the
/// announced power-of-two size.
pub open spec fn color_table_bytes(pal: Seq<Rgb>) -> Seq<u8>
    recommends
        pal.len() <= 256,
{
    pal_bytes(pal) + zero_bytes((3 * (pow2(gct_exp(pal.len()) + 1) - pal.len())) as nat)
}

/// The Netscape looping application extension. A count of zero means
/// "loop forever", by GIF convention; a count of `n > 0` asks for exactly
/// `n` repeats.
pub open spec fn netscape_bytes(loop_count: u16) -> Seq<u8> {
    seq![
        0x21u8, 0xFFu8, 0x0Bu8, 0x4Eu8, 0x45u8, 0x54u8, 0x53u8, 0x43u8, 0x41u8, 0x50u8, 0x45u8,
        0x32u8, 0x2Eu8, 0x30u8, 0x03u8, 0x01u8,
    ] + u16_le(loop_count) + seq![0u8]
}

/// The per-frame delay in centiseconds: `100 / framerate` rounded to the
/// nearest whole centisecond, and never less than one, so a frame rate
/// above one hundred is not silently truncated to a zero delay.
pub open spec fn delay_centis(fps: u16) -> u16
    recommends
        fps >= 1,
{
    let d = (100 + fps / 2) / (fps as int);
    if d == 0 {
        1u16
    } else {
        d as u16
    }
}

/// The graphic control extension: disposal method "do not dispose", no
/// transparency, the given delay.
pub open spec fn gce_bytes(delay: u16) -> Seq<u8> {
    seq![0x21u8, 0xF9u8, 0x04u8, 0x04u8] + u16_le(delay) + seq![0u8, 0u8]
}

/// The image descriptor: a full-canvas frame at the origin, interlace off,
/// no local color table.
pub open spec fn image_desc_bytes(w: u16, h: u16) -> Seq<u8> {
    seq![0x2Cu8, 0u8, 0u8, 0u8, 0u8] + u16_le(w) + u16_le(h) + seq![0u8]
}

/// One frame's section of the stream: graphic control extension, image
/// descriptor, LZW-coded image data.
pub open spec fn frame_block(indices: Seq<u8>, w: u16, h: u16, delay: u16, m: nat) -> Seq<u8> {
    gce_bytes(delay) + image_desc_bytes(w, h) + frame_data(indices, m)
}

/// The frame sections of all frames, in the order the frames were added.
pub open spec fn frames_bytes(framess: Seq<Seq<u8>>, w: u16, h: u16, delay: u16, m: nat) -> Seq<
    u8,
>
    decreases framess.len(),
{
    if framess.len() == 0 {
        Seq::<u8>::empty()
    } else {
        frames_bytes(framess.drop_last(), w, h, delay, m) + frame_block(
            framess.last(),
            w,
            h,
            delay,
            m,
        )
    }
}

/// Every pixel index of every frame addresses a palette entry.
pub open spec fn indices_ok(framess: Seq<Seq<u8>>, pal_len: nat) -> bool {
    forall|f: int, i: int|
        0 <= f < framess.len() && 0 <= i < framess[f].len() ==> framess[f][i] < pal_len
}

/// The complete GIF89a stream for the given quantized frames.
pub open spec fn gif_bytes(
    w: u16,
    h: u16,
    pal: Seq<Rgb>,
    framess: Seq<Seq<u8>>,
    fps: u16,
    loop_count: u16,
) -> Seq<u8> {
    header_bytes() + lsd_bytes(w, h, gct_exp(pal.len())) + color_table_bytes(pal)
        + netscape_bytes(loop_count) + frames_bytes(
        framess,
        w,
        h,
        delay_centis(fps),
        min_code_size(pal.len()),
    ) + seq![0x3Bu8]
}

/// The law that the loop count is always announced: immediately after the
/// header, the logical screen descriptor and the global color table, the
/// assembled stream carries the Netscape looping application extension,
/// and its two count bytes encode the configured count in little-endian
/// order — zero signaling "loop forever" by GIF convention, a positive
/// count signaling exactly that many repeats.
pub proof fn lemma_loop_extension(
    w: u16,
    h: u16,
    pal: Seq<Rgb>,
    framess: Seq<Seq<u8>>,
    fps: u16,
    loop_count: u16,
)
    requires
        pal.len() <= 256,
    ensures
        gif_bytes(w, h, pal, framess, fps, loop_count).subrange(
            13 + color_table_bytes(pal).len() as int,
            13 + color_table_bytes(pal).len() as int + 19,
        ) == netscape_bytes(loop_count),
        netscape_bytes(loop_count)[16] == loop_count % 256,
        netscape_bytes(loop_count)[17] == loop_count / 256,
{
    let g = gif_bytes(w, h, pal, framess, fps, loop_count);
    let ct = color_table_bytes(pal);
    assert(header_bytes().len() == 6);
    assert(lsd_bytes(w, h, gct_exp(pal.len())).len() == 7);
    assert(netscape_bytes(loop_count).len() == 19);
    assert(g.subrange(13 + ct.len() as int, 13 + ct.len() as int + 19) =~= netscape_bytes(loop_count));
}

/// The law that frames keep their order: the stream section of the first
/// `f + 1` frames is the section of the first `f` frames followed by the
/// block of frame `f` itself, so the assembled stream holds one block per
/// frame, in exactly the order the frames were added.
pub proof fn lemma_frame_order(
    framess: Seq<Seq<u8>>,
    w: u16,
    h: u16,
    delay: u16,
    m: nat,
    f: int,
)
    requires
        0 <= f < framess.len(),
    ensures
        frames_bytes(framess.take(f + 1), w, h, delay, m) == frames_bytes(
            framess.take(f),
            w,
            h,
            delay,
            m,
        ) + frame_block(framess[f], w, h, delay, m),
{
    assert(framess.take(f + 1).drop_last() =~= framess.take(f));
    assert(framess.take(f + 1).last() == framess[f]);
}

/// Facts about the color table size for a palette of up to 256 colors.
proof fn lemma_gct(len: nat)
    requires
        len <= 256,
    ensures
        gct_exp(len) <= 7,
        pow2(gct_exp(len) + 1) >= len,
        2 <= pow2(gct_exp(len) + 1) <= 256,
        2 <= min_code_size(len) <= 8,
        pow2(min_code_size(len)) >= len,
        pow2(min_code_size(len)) >= pow2(gct_exp(len) + 1) || gct_exp(len) == 0,
{
    lemma2_to64();
}

/// Appends a 16-bit value in little-endian byte order.
fn push_u16_le(out: &mut Vec<u8>, x: u16)
    ensures
        final(out)@ == old(out)@ + u16_le(x),
{
    out.push((x % 256) as u8);
    out.push((x / 256) as u8);
    assert(out@ =~= old(out)@ + u16_le(x));
}

/// The size field of the global color table for this palette size.
fn gct_exp_exec(len: usize) -> (e: u32)
    requires
        len <= 256,
    ensures
        e == gct_exp(len as nat),
{
    if len <= 2 {
        0
    } else if len <= 4 {
        1
    } else if len <= 8 {
        2
    } else if len <= 16 {
        3
    } else if len <= 32 {
        4
    } else if len <= 64 {
        5
    } else if len <= 128 {
        6
    } else {
        7
    }
}

/// True exactly when every pixel index of every frame addresses one of the
/// first `pal_len` palette entries.
fn check_indices(frames: &Vec<Vec<u8>>, pal_len: usize) -> (ok: bool)
    ensures
        ok <==> indices_ok(seq_views(frames@), pal_len as nat),
{
    let ghost framess = seq_views(frames@);
    let nframes: usize = frames.len();
    let mut f: usize = 0;
    while f < nframes
        invariant
            nframes == frames@.len(),
            framess == seq_views(frames@),
            f <= nframes,
            forall|g: int, i: int|
                0 <= g < f && 0 <= i < framess[g].len() ==> framess[g][i] < pal_len,
        decreases nframes - f,
    {
        let flen: usize = frames[f].len();
        let mut i: usize = 0;
        while i < flen
            invariant
                nframes == frames@.len(),
                framess == seq_views(frames@),
                f < nframes,
                flen == frames@[f as int]@.len(),
                i <= flen,
                forall|g: int, i2: int|
                    0 <= g < f && 0 <= i2 < framess[g].len() ==> framess[g][i2] < pal_len,
                forall|i2: int| 0 <= i2 < i ==> framess[f as int][i2] < pal_len,
            decreases flen - i,
        {
            if frames[f][i] as usize >= pal_len {
                assert(framess[f as int][i as int] >= pal_len);
                assert(!indices_ok(framess, pal_len as nat));
                return false;
            }
            assert(framess[f as int][i as int] < pal_len);
            i += 1;
        }
        f += 1;
    }
    true
}

/// Appends the graphic control extension for this delay.
fn write_gce(out: &mut Vec<u8>, delay: u16)
    ensures
        final(out)@ == old(out)@ + gce_bytes(delay),
{
    out.push(0x21);
    out.push(0xF9);
    out.push(0x04);
    out.push(0x04);
    push_u16_le(out, delay);
    out.push(0);
    out.push(0);
    assert(out@ =~= old(out)@ + gce_bytes(delay));
}

/// Appends the image descriptor for a full-canvas frame.
fn write_image_desc(out: &mut Vec<u8>, width: u16, height: u16)
    ensures
        final(out)@ == old(out)@ + image_desc_bytes(width, height),
{
    out.push(0x2C);
    out.push(0);
    out.push(0);
    out.push(0);
    out.push(0);
    push_u16_le(out, width);
    push_u16_le(out, height);
    out.push(0);
    assert(out@ =~= old(out)@ + image_desc_bytes(width, height));
}

/// Appends the Netscape looping application extension.
fn write_netscape(out: &mut Vec<u8>, loop_count: u16)
    ensures
        final(out)@ == old(out)@ + netscape_bytes(loop_count),
{
    out.push(0x21);
    out.push(0xFF);
    out.push(0x0B);
    out.push(0x4E);
    out.push(0x45);
    out.push(0x54);
    out.push(0x53);
    out.push(0x43);
    out.push(0x41);
    out.push(0x50);
    out.push(0x45);
    out.push(0x32);
    out.push(0x2E);
    out.push(0x30);
    out.push(0x03);
    out.push(0x01);
    push_u16_le(out, loop_count);
    out.push(0);
    assert(out@ =~= old(out)@ + netscape_bytes(loop_count));
}

/// Appends the global color table: the palette, then black padding to the
/// announced power-of-two size.
fn write_color_table(out: &mut Vec<u8>, palette: &Vec<Rgb>, table_size: usize)
    requires
        palette@.len() <= table_size,
        table_size <= 256,
        table_size == pow2(gct_exp(palette@.len()) + 1),
    ensures
        final(out)@ == old(out)@ + color_table_bytes(palette@),
{
    let ghost mark2 = out@;
    let pal_len: usize = palette.len();
    let mut p: usize = 0;
    while p < pal_len
        invariant
            pal_len == palette@.len(),
            p <= pal_len,
            out@ == mark2 + pal_bytes(palette@.take(p as int)),
        decreases pal_len - p,
    {
        let c = palette[p];
        out.push(c.r);
        out.push(c.g);
        out.push(c.b);
        proof {
            assert(palette@.take(p + 1).drop_last() =~= palette@.take(p as int));
            assert(palette@.take(p + 1).last() == c);
            assert(mark2 + pal_bytes(palette@.take(p + 1)) =~= (mark2 + pal_bytes(
                palette@.take(p as int),
            )) + seq![c.r, c.g, c.b]);
        }
        p += 1;
    }
    assert(palette@.take(palette@.len() as int) =~= palette@);
    let ghost mark3 = out@;
    let pad: usize = 3 * (table_size - pal_len);
    let mut z: usize = 0;
    while z < pad
        invariant
            z <= pad,
            out@ == mark3 + zero_bytes(z as nat),
        decreases pad - z,
    {
        out.push(0);
        proof {
            assert(zero_bytes((z + 1) as nat) =~= zero_bytes(z as nat).push(0u8));
            assert(mark3 + zero_bytes((z + 1) as nat) =~= (mark3 + zero_bytes(z as nat)).push(
                0u8,
            ));
        }
        z += 1;
    }
    assert(out@ =~= mark2 + color_table_bytes(palette@));
}

/// Builds the GIF89a byte stream for quantized frames sharing one palette.
///
/// Succeeds exactly when the frame rate is positive, the palette holds at
/// most 256 colors, and every pixel index addresses a palette entry; the
/// result is then byte for byte the stream that `gif_bytes` describes. A
/// zero frame rate is an invalid parameter; an oversized palette or an
/// out-of-range index violates the quantizer's contract and is reported as
/// an internal encoder error.
pub fn assemble(
    width: u16,
    height: u16,
    palette: &Vec<Rgb>,
    frames: &Vec<Vec<u8>>,
    framerate: u16,
    loop_count: u16,
) -> (r: Result<Vec<u8>, GifError>)
    ensures
        r is Ok <==> framerate >= 1 && palette@.len() <= 256 && indices_ok(
            seq_views(frames@),
            palette@.len(),
        ),
        match r {
            Ok(out) => out@ == gif_bytes(
                width,
                height,
                palette@,
                seq_views(frames@),
                framerate,
                loop_count,
            ),
            Err(e) => {
                &&& (e == GifError::InvalidParameter <==> framerate == 0)
                &&& (e == GifError::EncoderError <==> framerate >= 1 && (palette@.len() > 256
                    || !indices_ok(seq_views(frames@), palette@.len())))
            },
        },
{
    if framerate == 0 {
        return Err(GifError::InvalidParameter);
    }
    if palette.len() > 256 {
        return Err(GifError::EncoderError);
    }
    let ghost framess = seq_views(frames@);
    let pal_len: usize = palette.len();
    let nframes: usize = frames.len();
    if !check_indices(frames, pal_len) {
        return Err(GifError::EncoderError);
    }
    assert(indices_ok(framess, palette@.len()));

    proof {
        lemma_gct(palette@.len());
    }
    let exp: u32 = gct_exp_exec(pal_len);
    let table_size: usize = crate::lzw::pow2_u32(exp + 1) as usize;
    let m: u32 = if exp == 0 {
        2
    } else {
        exp + 1
    };
    assert(m as nat == min_code_size(palette@.len()));

    let mut out: Vec<u8> = Vec::new();

    // Header.
    out.push(0x47);
    out.push(0x49);
    out.push(0x46);
    out.push(0x38);
    out.push(0x39);
    out.push(0x61);
    assert(out@ =~= header_bytes());

    // Logical screen descriptor.
    let ghost mark1 = out@;
    push_u16_le(&mut out, width);
    push_u16_le(&mut out, height);
    out.push(0xF0 + exp as u8);
    out.push(0);
    out.push(0);
    assert(out@ =~= mark1 + lsd_bytes(width, height, gct_exp(palette@.len())));

    // Global color table, then the looping extension.
    write_color_table(&mut out, palette, table_size);
    write_netscape(&mut out, loop_count);

    // Per-frame sections.
    let half: u16 = framerate / 2;
    let d: u16 = (100 + half) / framerate;
    let delay: u16 = if d == 0 {
        1
    } else {
        d
    };
    assert(delay == delay_centis(framerate));

    let ghost mark5 = out@;
    let mut f2: usize = 0;
    while f2 < nframes
        invariant
            nframes == frames@.len(),
            pal_len == palette@.len(),
            pal_len <= 256,
            framess == seq_views(frames@),
            indices_ok(framess, palette@.len()),
            2 <= m <= 8,
            m as nat == min_code_size(palette@.len()),
            pow2(m as nat) >= palette@.len(),
            f2 <= nframes,
            out@ == mark5 + frames_bytes(
                framess.take(f2 as int),
                width,
                height,
                delay,
                m as nat,
            ),
        decreases nframes - f2,
    {
        let ghost markf = out@;
        write_gce(&mut out, delay);
        write_image_desc(&mut out, width, height);
        proof {
            assert(framess[f2 as int] == frames@[f2 as int]@);
            assert forall|i: int| 0 <= i < frames@[f2 as int]@.len() implies frames@[f2 as int]@[i]
                < pow2(m as nat) by {
                assert(framess[f2 as int][i] < pal_len);
            }
        }
        write_frame_data(&mut out, &frames[f2], m);
        proof {
            assert(out@ =~= markf + frame_block(framess[f2 as int], width, height, delay, m as nat));
            assert(framess.take(f2 + 1).drop_last() =~= framess.take(f2 as int));
            assert(framess.take(f2 + 1).last() == framess[f2 as int]);
            assert(out@ =~= mark5 + frames_bytes(
                framess.take(f2 + 1),
                width,
                height,
                delay,
                m as nat,
            ));
        }
        f2 += 1;
    }
    assert(framess.take(framess.len() as int) =~= framess);

    // Trailer.
    out.push(0x3B);
    proof {
        assert(out@ =~= gif_bytes(width, height, palette@, framess, framerate, loop_count));
    }
    Ok(out)
}

} // verus!
