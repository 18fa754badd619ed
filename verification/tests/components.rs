//! Component-level tests: the adapter, the quantizer, the assembler, and
//! the session facade, each against its contract's edge cases.

use gif_encoder::assemble::assemble;
use gif_encoder::error::GifError;
use gif_encoder::image::{image_from_rgba, Image, Rgb};
use gif_encoder::quant::quantize;
use gif_encoder::session::Encoder;

fn image(w: u16, h: u16, pixels: &[[u8; 4]]) -> Image {
    let mut buf = Vec::new();
    for p in pixels {
        buf.extend_from_slice(p);
    }
    image_from_rgba(w, h, &buf).unwrap()
}

#[test]
fn adapter_produces_one_pixel_per_four_bytes() {
    let buf = vec![0u8; 3 * 2 * 4];
    let img = image_from_rgba(3, 2, &buf).unwrap();
    assert_eq!(img.width, 3);
    assert_eq!(img.height, 2);
    assert_eq!(img.pixels.len(), 6);
}

#[test]
fn adapter_keeps_channel_order() {
    let img = image(1, 1, &[[11, 22, 33, 44]]);
    assert_eq!(img.pixels[0].r, 11);
    assert_eq!(img.pixels[0].g, 22);
    assert_eq!(img.pixels[0].b, 33);
    assert_eq!(img.pixels[0].a, 44);
}

#[test]
fn adapter_rejects_wrong_length() {
    let buf = vec![0u8; 3 * 2 * 4 - 1];
    let r = image_from_rgba(3, 2, &buf);
    assert!(matches!(r, Err(GifError::MalformedBuffer)));
    let r = image_from_rgba(3, 2, &vec![0u8; 3 * 2 * 4 + 4]);
    assert!(matches!(r, Err(GifError::MalformedBuffer)));
}

#[test]
fn quantizer_keeps_distinct_colors_in_first_occurrence_order() {
    let a = [10, 0, 0, 255];
    let b = [0, 10, 0, 255];
    let c = [0, 0, 10, 255];
    let frames = vec![image(2, 2, &[a, a, b, c])];
    let (palette, indices) = quantize(&frames, 1).unwrap();
    assert_eq!(
        palette,
        vec![
            Rgb { r: 10, g: 0, b: 0 },
            Rgb { r: 0, g: 10, b: 0 },
            Rgb { r: 0, g: 0, b: 10 },
        ]
    );
    assert_eq!(indices, vec![vec![0u8, 0, 1, 2]]);
}

#[test]
fn quantizer_is_idempotent_in_palette_size() {
    // Quantize once, build a frame out of the palette's own colors, and
    // quantize again: the second palette is no larger than the first
    // frame's distinct color count.
    let frames = vec![image(
        2,
        2,
        &[[1, 2, 3, 255], [4, 5, 6, 255], [1, 2, 3, 255], [7, 8, 9, 255]],
    )];
    let (palette, _) = quantize(&frames, 1).unwrap();
    assert_eq!(palette.len(), 3);
    let requantized: Vec<[u8; 4]> = palette.iter().map(|c| [c.r, c.g, c.b, 255]).collect();
    let frames2 = vec![image(3, 1, &requantized)];
    let (palette2, _) = quantize(&frames2, 1).unwrap();
    assert!(palette2.len() <= 3);
    assert_eq!(palette2, palette);
}

#[test]
fn quantizer_maps_every_pixel_to_nearest_entry() {
    // Two palette colors; an off-palette pixel maps to the closer one.
    let frames = vec![image(
        3,
        1,
        &[[0, 0, 0, 255], [200, 200, 200, 255], [190, 190, 190, 255]],
    )];
    let (palette, indices) = quantize(&frames, 1).unwrap();
    assert_eq!(palette.len(), 3);
    // Sample factor 2 samples pixels 0 and 2 only: the middle pixel is
    // not in the palette and maps to its nearest neighbor.
    let (palette2, indices2) = quantize(&frames, 2).unwrap();
    assert_eq!(
        palette2,
        vec![Rgb { r: 0, g: 0, b: 0 }, Rgb { r: 190, g: 190, b: 190 }]
    );
    assert_eq!(indices2, vec![vec![0u8, 1, 1]]);
    assert_eq!(indices, vec![vec![0u8, 1, 2]]);
}

#[test]
fn quantizer_rejects_zero_sample_factor() {
    let frames = vec![image(1, 1, &[[0, 0, 0, 255]])];
    assert!(matches!(quantize(&frames, 0), Err(GifError::InvalidParameter)));
}

#[test]
fn quantizer_rejects_empty_frame_set() {
    let frames: Vec<Image> = Vec::new();
    assert!(matches!(quantize(&frames, 10), Err(GifError::EncoderError)));
}

#[test]
fn assembler_rejects_zero_framerate() {
    let palette = vec![Rgb { r: 0, g: 0, b: 0 }];
    let frames = vec![vec![0u8; 4]];
    let r = assemble(2, 2, &palette, &frames, 0, 0);
    assert_eq!(r, Err(GifError::InvalidParameter));
}

#[test]
fn assembler_rejects_out_of_range_index() {
    let palette = vec![Rgb { r: 0, g: 0, b: 0 }];
    let frames = vec![vec![0u8, 1, 0, 0]];
    let r = assemble(2, 2, &palette, &frames, 25, 0);
    assert_eq!(r, Err(GifError::EncoderError));
}

#[test]
fn session_defaults_match_the_contract() {
    let session = Encoder::new(7, 9, "movie.gif");
    assert_eq!(session.width, 7);
    assert_eq!(session.height, 9);
    assert_eq!(session.framerate, 25);
    assert_eq!(session.sample_factor, 10);
    assert_eq!(session.loop_count, 0);
    assert_eq!(session.output_path, "movie.gif");
    assert_eq!(session.frames.len(), 0);
}

#[test]
fn setters_reject_values_over_sixteen_bits() {
    let mut session = Encoder::new(2, 2, "out.gif");
    session.set_framerate(50).unwrap();
    assert_eq!(session.set_framerate(70000), Err(GifError::ArgumentTooLarge));
    assert_eq!(session.framerate, 50);
    assert_eq!(session.set_loop_count(65536), Err(GifError::ArgumentTooLarge));
    assert_eq!(session.loop_count, 0);
    assert_eq!(session.set_framerate(65535), Ok(()));
}

#[test]
fn bad_frame_leaves_accumulated_frames_intact() {
    let mut session = Encoder::new(2, 2, "out.gif");
    session.add_frame(vec![0u8; 16]).unwrap();
    let r = session.add_frame(vec![0u8; 15]);
    assert_eq!(r, Err(GifError::MalformedBuffer));
    assert_eq!(session.frames.len(), 1);
    assert_eq!(session.frames[0], vec![0u8; 16]);
}

#[test]
fn finish_empties_the_session_and_keeps_settings() {
    let mut session = Encoder::new(2, 2, "out.gif");
    session.set_framerate(50).unwrap();
    session.set_loop_count(3).unwrap();
    session.set_sample_factor(4);
    session.add_frame(vec![1u8; 16]).unwrap();
    session.add_frame(vec![2u8; 16]).unwrap();

    let job = session.finish();
    assert_eq!(job.frames.len(), 2);
    assert_eq!(job.framerate, 50);
    assert_eq!(job.loop_count, 3);
    assert_eq!(job.sample_factor, 4);
    assert_eq!(job.output_path, "out.gif");
    assert_eq!(session.frames.len(), 0);
    assert_eq!(session.framerate, 50);
    assert_eq!(session.loop_count, 3);
    assert_eq!(session.sample_factor, 4);

    // The session is reusable: a second cycle succeeds independently.
    session.add_frame(vec![3u8; 16]).unwrap();
    let job2 = session.finish();
    assert_eq!(job2.frames.len(), 1);
    assert_eq!(job2.framerate, 50);
    assert_eq!(session.frames.len(), 0);
    assert!(gif_encoder::session::render(&job).is_ok());
    assert!(gif_encoder::session::render(&job2).is_ok());
}

#[test]
fn errors_carry_readable_messages() {
    assert_eq!(
        GifError::ArgumentTooLarge.message(),
        "The provided argument was too large"
    );
    assert_eq!(GifError::EncoderError.message(), "GIF encoder encountered an error");
    assert_eq!(GifError::MalformedBuffer.message(), "a frame buffer has the wrong length");
}
