//! End-to-end tests: sessions are configured, frames added, jobs rendered,
//! and the resulting bytes are decoded again with the `gif` crate as an
//! independent, standard GIF decoder.

use gif_encoder::error::GifError;
use gif_encoder::session::{render, Encoder};

/// A solid-color RGBA buffer of `w * h` pixels.
fn solid(w: u16, h: u16, rgba: [u8; 4]) -> Vec<u8> {
    let mut buf = Vec::new();
    for _ in 0..(w as usize) * (h as usize) {
        buf.extend_from_slice(&rgba);
    }
    buf
}

struct Decoded {
    width: u16,
    height: u16,
    repeat: gif::Repeat,
    frames: Vec<(u16, Vec<u8>)>,
}

/// Decodes a GIF byte stream into RGBA frames with their delays.
fn decode(bytes: &[u8]) -> Decoded {
    let mut options = gif::DecodeOptions::new();
    options.set_color_output(gif::ColorOutput::RGBA);
    let mut decoder = options.read_info(std::io::Cursor::new(bytes)).expect("valid GIF");
    let width = decoder.width();
    let height = decoder.height();
    let repeat = decoder.repeat();
    let mut frames = Vec::new();
    while let Some(frame) = decoder.read_next_frame().expect("decodable frame") {
        frames.push((frame.delay, frame.buffer.to_vec()));
    }
    Decoded { width, height, repeat, frames }
}

#[test]
fn roundtrip_solid_color() {
    let mut session = Encoder::new(4, 3, "out.gif");
    session.add_frame(solid(4, 3, [10, 20, 30, 255])).unwrap();
    let job = session.finish();
    let bytes = render(&job).unwrap();
    let decoded = decode(&bytes);
    assert_eq!(decoded.width, 4);
    assert_eq!(decoded.height, 3);
    assert_eq!(decoded.frames.len(), 1);
    let (_, pixels) = &decoded.frames[0];
    assert_eq!(pixels.len(), 4 * 3 * 4);
    for p in pixels.chunks(4) {
        assert_eq!(p, [10, 20, 30, 255]);
    }
}

#[test]
fn loop_count_zero_means_infinite() {
    let mut session = Encoder::new(2, 2, "out.gif");
    session.add_frame(solid(2, 2, [1, 2, 3, 255])).unwrap();
    let job = session.finish();
    assert_eq!(job.loop_count, 0);
    let bytes = render(&job).unwrap();
    assert_eq!(decode(&bytes).repeat, gif::Repeat::Infinite);
}

#[test]
fn loop_count_n_means_n_repeats() {
    let mut session = Encoder::new(2, 2, "out.gif");
    session.set_loop_count(5).unwrap();
    session.add_frame(solid(2, 2, [1, 2, 3, 255])).unwrap();
    let job = session.finish();
    let bytes = render(&job).unwrap();
    assert_eq!(decode(&bytes).repeat, gif::Repeat::Finite(5));
}

#[test]
fn frames_keep_their_order() {
    let colors = [[200, 0, 0, 255], [0, 200, 0, 255], [0, 0, 200, 255]];
    let mut session = Encoder::new(3, 3, "out.gif");
    for c in colors {
        session.add_frame(solid(3, 3, c)).unwrap();
    }
    let job = session.finish();
    let bytes = render(&job).unwrap();
    let decoded = decode(&bytes);
    assert_eq!(decoded.frames.len(), 3);
    for (f, c) in decoded.frames.iter().zip(colors) {
        for p in f.1.chunks(4) {
            assert_eq!(p, c);
        }
    }
}

#[test]
fn delay_is_rounded_from_framerate() {
    // 100 / 25 = 4 centiseconds exactly.
    let mut session = Encoder::new(2, 2, "out.gif");
    session.set_framerate(25).unwrap();
    session.add_frame(solid(2, 2, [9, 9, 9, 255])).unwrap();
    let bytes = render(&session.finish()).unwrap();
    assert_eq!(decode(&bytes).frames[0].0, 4);

    // 100 / 30 = 3.33... rounds to 3.
    session.set_framerate(30).unwrap();
    session.add_frame(solid(2, 2, [9, 9, 9, 255])).unwrap();
    let bytes = render(&session.finish()).unwrap();
    assert_eq!(decode(&bytes).frames[0].0, 3);
}

#[test]
fn high_framerate_never_gives_zero_delay() {
    let mut session = Encoder::new(2, 2, "out.gif");
    session.set_framerate(150).unwrap();
    session.add_frame(solid(2, 2, [9, 9, 9, 255])).unwrap();
    let bytes = render(&session.finish()).unwrap();
    assert_eq!(decode(&bytes).frames[0].0, 1);
}

#[test]
fn stream_has_gif89a_header_and_trailer() {
    let mut session = Encoder::new(2, 2, "out.gif");
    session.add_frame(solid(2, 2, [5, 6, 7, 255])).unwrap();
    let bytes = render(&session.finish()).unwrap();
    assert_eq!(&bytes[..6], b"GIF89a");
    assert_eq!(*bytes.last().unwrap(), 0x3B);
}

#[test]
fn many_colors_still_decode_to_small_palette_stream() {
    // A frame with more than 256 distinct colors forces the coarse
    // representative palette; the stream must still decode to the full
    // canvas.
    let w: u16 = 32;
    let h: u16 = 32;
    let mut buf = Vec::new();
    for y in 0..h as u32 {
        for x in 0..w as u32 {
            buf.extend_from_slice(&[(x * 8) as u8, (y * 8) as u8, ((x + y) % 256) as u8, 255]);
        }
    }
    let mut session = Encoder::new(w, h, "out.gif");
    session.set_sample_factor(1);
    session.add_frame(buf).unwrap();
    let bytes = render(&session.finish()).unwrap();
    let decoded = decode(&bytes);
    assert_eq!(decoded.frames[0].1.len(), 32 * 32 * 4);
}

#[test]
fn render_without_frames_is_an_encoder_error() {
    let mut session = Encoder::new(2, 2, "out.gif");
    let job = session.finish();
    assert_eq!(render(&job), Err(GifError::EncoderError));
}

#[test]
fn render_with_zero_sample_factor_is_invalid() {
    let mut session = Encoder::new(2, 2, "out.gif");
    session.set_sample_factor(0);
    session.add_frame(solid(2, 2, [1, 1, 1, 255])).unwrap();
    let job = session.finish();
    assert_eq!(render(&job), Err(GifError::InvalidParameter));
}

#[test]
fn render_with_zero_framerate_is_invalid() {
    let mut session = Encoder::new(2, 2, "out.gif");
    session.set_framerate(0).unwrap();
    session.add_frame(solid(2, 2, [1, 1, 1, 255])).unwrap();
    let job = session.finish();
    assert_eq!(render(&job), Err(GifError::InvalidParameter));
}

#[test]
fn minimal_stream_is_byte_exact() {
    // One 1x1 white frame with every setting left at its default.
    let mut session = Encoder::new(1, 1, "out.gif");
    session.add_frame(vec![255, 255, 255, 255]).unwrap();
    let bytes = render(&session.finish()).unwrap();
    let expected: Vec<u8> = vec![
        // Header.
        0x47, 0x49, 0x46, 0x38, 0x39, 0x61,
        // Logical screen descriptor: 1 x 1, global table of two entries.
        0x01, 0x00, 0x01, 0x00, 0xF0, 0x00, 0x00,
        // Global color table: white, then black padding.
        0xFF, 0xFF, 0xFF, 0x00, 0x00, 0x00,
        // Netscape extension, loop count 0 (forever).
        0x21, 0xFF, 0x0B, 0x4E, 0x45, 0x54, 0x53, 0x43, 0x41, 0x50, 0x45, 0x32, 0x2E, 0x30,
        0x03, 0x01, 0x00, 0x00, 0x00,
        // Graphic control extension: do not dispose, delay 4 centiseconds.
        0x21, 0xF9, 0x04, 0x04, 0x04, 0x00, 0x00, 0x00,
        // Image descriptor: full canvas at the origin.
        0x2C, 0x00, 0x00, 0x00, 0x00, 0x01, 0x00, 0x01, 0x00, 0x00,
        // Image data: code size 2; codes clear, 0, end at 3 bits each,
        // packed least-significant-bit first, in one 2-byte sub-block.
        0x02, 0x02, 0x44, 0x01, 0x00,
        // Trailer.
        0x3B,
    ];
    assert_eq!(bytes, expected);
}
