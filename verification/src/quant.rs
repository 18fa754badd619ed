//! The color quantizer: reduces a frame set to a palette of at most 256
//! colors and maps every pixel to its nearest palette entry.
//!
//! Statistics are built from pixels sub-sampled at the configured stride
//! (the sample factor): pixel `0, s, 2s, ...` of each frame. When the
//! sampled pixels hold at most 256 distinct colors, the palette is exactly
//! those colors in order of first occurrence. Otherwise each sampled color
//! is truncated to a coarse representative (3 bits of red and green, 2 bits
//! of blue), and the palette is the distinct representatives in order of
//! first occurrence, capped at 256 entries. A final pass maps every pixel
//! of every frame — sampled or not — to its nearest palette entry.

use vstd::prelude::*;
use vstd::set_lib::lemma_len_subset;

use crate::error::GifError;
use crate::image::{rgb_of, Image, Rgb, Rgba};

verus! {

/// The squared Euclidean distance between two colors in RGB space.
pub open spec fn dist(a: Rgb, b: Rgb) -> int {
    (a.r - b.r) * (a.r - b.r) + (a.g - b.g) * (a.g - b.g) + (a.b - b.b) * (a.b - b.b)
}

/// `idx` is the index of the palette entry nearest to `c`, with ties
/// resolved toward the lowest index.
pub open spec fn is_nearest(pal: Seq<Rgb>, c: Rgb, idx: int) -> bool {
    &&& 0 <= idx < pal.len()
    &&& forall|j: int| 0 <= j < pal.len() ==> dist(pal[idx], c) <= dist(pal[j], c)
    &&& forall|j: int| 0 <= j < idx ==> dist(pal[j], c) > dist(pal[idx], c)
}

/// Only one index can be nearest to a color: `is_nearest` determines the
/// index, so every contract stated through it is deterministic.
pub proof fn lemma_nearest_unique(pal: Seq<Rgb>, c: Rgb, i: int, j: int)
    requires
        is_nearest(pal, c, i),
        is_nearest(pal, c, j),
    ensures
        i == j,
{
    if i < j {
        assert(dist(pal[i], c) > dist(pal[j], c));
        assert(dist(pal[i], c) <= dist(pal[j], c));
    }
    if j < i {
        assert(dist(pal[j], c) > dist(pal[i], c));
        assert(dist(pal[j], c) <= dist(pal[i], c));
    }
}

/// The colors sampled from one frame's pixels at stride `s`:
/// pixels `0, s, 2s, ...`.
pub open spec fn sampled_of_pixels(pixels: Seq<Rgba>, s: int) -> Seq<Rgb> {
    Seq::new((((pixels.len() + s - 1) / s) as nat), |i: int| rgb_of(pixels[i * s]))
}

/// The colors sampled from a frame sequence at stride `s`, frame by frame.
pub open spec fn sampled_of_frames(frames: Seq<Image>, s: int) -> Seq<Rgb>
    decreases frames.len(),
{
    if frames.len() == 0 {
        Seq::<Rgb>::empty()
    } else {
        sampled_of_frames(frames.drop_last(), s) + sampled_of_pixels(frames.last().pixels@, s)
    }
}

/// The colors of all pixels of all frames, in order.
pub open spec fn all_rgb(frames: Seq<Image>) -> Seq<Rgb>
    decreases frames.len(),
{
    if frames.len() == 0 {
        Seq::<Rgb>::empty()
    } else {
        all_rgb(frames.drop_last()) + frames.last().pixels@.map(|i: int, p: Rgba| rgb_of(p))
    }
}

/// The coarse representative of a color: the top three bits of red and
/// green and the top two bits of blue, so at most 256 representatives
/// exist.
pub open spec fn trunc_of(c: Rgb) -> Rgb {
    Rgb { r: c.r & 0xE0, g: c.g & 0xE0, b: c.b & 0xC0 }
}

/// The coarse representatives of a color sequence, element by element.
pub open spec fn trunc_seq(s: Seq<Rgb>) -> Seq<Rgb> {
    Seq::new(s.len(), |i: int| trunc_of(s[i]))
}

/// The distinct elements of `s` in order of first occurrence, keeping no
/// more than `cap` of them.
pub open spec fn capped_distinct_seq(s: Seq<Rgb>, cap: nat) -> Seq<Rgb>
    decreases s.len(),
{
    if s.len() == 0 {
        Seq::<Rgb>::empty()
    } else {
        let d = capped_distinct_seq(s.drop_last(), cap);
        if d.contains(s.last()) || d.len() >= cap {
            d
        } else {
            d.push(s.last())
        }
    }
}

/// The distinct elements of `s`, in order of first occurrence.
pub open spec fn distinct_seq(s: Seq<Rgb>) -> Seq<Rgb>
    decreases s.len(),
{
    if s.len() == 0 {
        Seq::<Rgb>::empty()
    } else {
        let d = distinct_seq(s.drop_last());
        if d.contains(s.last()) {
            d
        } else {
            d.push(s.last())
        }
    }
}

/// `distinct_seq` keeps exactly the elements of its input, without
/// duplicates, and so never grows past the input.
pub proof fn lemma_distinct_seq(s: Seq<Rgb>)
    ensures
        distinct_seq(s).no_duplicates(),
        forall|x: Rgb| distinct_seq(s).contains(x) <==> s.contains(x),
        distinct_seq(s).len() <= s.len(),
        s.len() > 0 ==> distinct_seq(s).len() > 0,
    decreases s.len(),
{
    if s.len() > 0 {
        let rest = s.drop_last();
        lemma_distinct_seq(rest);
        let d = distinct_seq(rest);
        let last = s.last();
        assert forall|x: Rgb| s.contains(x) implies distinct_seq(s).contains(x) by {
            let i = choose|i: int| 0 <= i < s.len() && s[i] == x;
            if i < s.len() - 1 {
                assert(rest[i] == x);
                assert(rest.contains(x));
                assert(d.contains(x));
                let j = choose|j: int| 0 <= j < d.len() && d[j] == x;
                assert(distinct_seq(s)[j] == x);
            } else {
                if d.contains(last) {
                    assert(distinct_seq(s) == d);
                } else {
                    assert(distinct_seq(s)[d.len() as int] == last);
                }
            }
        }
        assert forall|x: Rgb| distinct_seq(s).contains(x) implies s.contains(x) by {
            let j = choose|j: int|
                0 <= j < distinct_seq(s).len() && distinct_seq(s)[j] == x;
            if j < d.len() {
                assert(d[j] == x);
                assert(d.contains(x));
                assert(rest.contains(x));
                let i = choose|i: int| 0 <= i < rest.len() && rest[i] == x;
                assert(s[i] == x);
            } else {
                assert(x == last);
                assert(s[s.len() - 1] == x);
            }
        }
        if !d.contains(last) {
            assert forall|p: int, q: int|
                0 <= p < q < distinct_seq(s).len() implies distinct_seq(s)[p] != distinct_seq(
                s,
            )[q] by {
                if q == d.len() {
                    if distinct_seq(s)[p] == last {
                        assert(d[p] == last);
                        assert(d.contains(last));
                    }
                }
            }
        }
        assert(s.contains(s.last()));
    }
}

/// Sampling touches only pixels that the frames hold: every sampled color
/// occurs among the frames' pixel colors.
pub proof fn lemma_sampled_subset(frames: Seq<Image>, s: int)
    requires
        s >= 1,
    ensures
        forall|x: Rgb| sampled_of_frames(frames, s).contains(x) ==> all_rgb(frames).contains(x),
    decreases frames.len(),
{
    if frames.len() > 0 {
        lemma_sampled_subset(frames.drop_last(), s);
        let rest = frames.drop_last();
        let pix = frames.last().pixels@;
        let samp = sampled_of_pixels(pix, s);
        let mapped = pix.map(|i: int, p: Rgba| rgb_of(p));
        assert forall|x: Rgb| sampled_of_frames(frames, s).contains(x) implies all_rgb(
            frames,
        ).contains(x) by {
            let whole = sampled_of_frames(rest, s) + samp;
            let i = choose|i: int| 0 <= i < whole.len() && whole[i] == x;
            if i < sampled_of_frames(rest, s).len() {
                assert(sampled_of_frames(rest, s).contains(x));
                assert(all_rgb(rest).contains(x));
                let j = choose|j: int| 0 <= j < all_rgb(rest).len() && all_rgb(rest)[j] == x;
                assert(all_rgb(frames)[j] == x);
            } else {
                let k = i - sampled_of_frames(rest, s).len();
                assert(samp[k] == x);
                assert(x == rgb_of(pix[k * s]));
                assert(0 <= k * s < pix.len()) by (nonlinear_arith)
                    requires
                        s >= 1,
                        0 <= k < (pix.len() + s - 1) / s,
                ;
                assert(mapped[k * s] == x);
                assert(all_rgb(frames)[all_rgb(rest).len() + k * s] == x);
            }
        }
    }
}

/// The law that quantization is idempotent in size: whenever the frames
/// hold at most 256 distinct colors, the distinct sampled colors — which
/// are exactly the palette the quantizer then produces — number no more
/// than the frames' distinct colors.
pub proof fn lemma_palette_within_distinct_colors(frames: Seq<Image>, s: int)
    requires
        s >= 1,
    ensures
        distinct_seq(sampled_of_frames(frames, s)).len() <= all_rgb(frames).to_set().len(),
{
    broadcast use vstd::seq_lib::seq_to_set_is_finite;

    let samp = sampled_of_frames(frames, s);
    let d = distinct_seq(samp);
    lemma_distinct_seq(samp);
    lemma_sampled_subset(frames, s);
    d.unique_seq_to_set();
    assert(d.to_set().subset_of(all_rgb(frames).to_set())) by {
        assert forall|x: Rgb| d.to_set().contains(x) implies all_rgb(frames).to_set().contains(
            x,
        ) by {
            assert(d.contains(x));
            assert(samp.contains(x));
            assert(all_rgb(frames).contains(x));
        }
    }
    lemma_len_subset(d.to_set(), all_rgb(frames).to_set());
}

/// True of `v` exactly when it holds `c`.
fn contains_color(v: &Vec<Rgb>, c: Rgb) -> (r: bool)
    ensures
        r == v@.contains(c),
{
    let mut i: usize = 0;
    while i < v.len()
        invariant
            i <= v@.len(),
            forall|j: int| 0 <= j < i ==> v@[j] != c,
        decreases v@.len() - i,
    {
        if v[i].r == c.r && v[i].g == c.g && v[i].b == c.b {
            assert(v@[i as int] == c);
            return true;
        }
        i += 1;
    }
    false
}

/// The absolute difference of two channel values.
fn channel_diff(x: u8, y: u8) -> (d: u8)
    ensures
        d == x - y || d == y - x,
{
    if x >= y {
        x - y
    } else {
        y - x
    }
}

/// The squared RGB distance between two colors.
fn dist_exec(a: Rgb, b: Rgb) -> (d: u32)
    ensures
        d == dist(a, b),
{
    let dr = channel_diff(a.r, b.r) as u32;
    let dg = channel_diff(a.g, b.g) as u32;
    let db = channel_diff(a.b, b.b) as u32;
    assert(dr * dr == (a.r - b.r) * (a.r - b.r) && dr * dr <= 65025) by (nonlinear_arith)
        requires
            dr <= 255,
            dr == a.r - b.r || dr == b.r - a.r,
    ;
    assert(dg * dg == (a.g - b.g) * (a.g - b.g) && dg * dg <= 65025) by (nonlinear_arith)
        requires
            dg <= 255,
            dg == a.g - b.g || dg == b.g - a.g,
    ;
    assert(db * db == (a.b - b.b) * (a.b - b.b) && db * db <= 65025) by (nonlinear_arith)
        requires
            db <= 255,
            db == a.b - b.b || db == b.b - a.b,
    ;
    dr * dr + dg * dg + db * db
}

/// The index of the palette entry nearest to `c` (lowest index on ties).
fn nearest_index(pal: &Vec<Rgb>, c: Rgb) -> (idx: usize)
    requires
        pal@.len() >= 1,
    ensures
        is_nearest(pal@, c, idx as int),
{
    let mut best: usize = 0;
    let mut best_d: u32 = dist_exec(pal[0], c);
    let mut j: usize = 1;
    while j < pal.len()
        invariant
            1 <= j <= pal@.len(),
            best < j,
            best_d == dist(pal@[best as int], c),
            forall|t: int| 0 <= t < j ==> dist(pal@[best as int], c) <= dist(pal@[t], c),
            forall|t: int| 0 <= t < best ==> dist(pal@[t], c) > dist(pal@[best as int], c),
        decreases pal@.len() - j,
    {
        let d = dist_exec(pal[j], c);
        if d < best_d {
            best = j;
            best_d = d;
        }
        j += 1;
    }
    best
}

/// The distinct elements of `sampled`, in order of first occurrence.
fn distinct_colors(sampled: &Vec<Rgb>) -> (d: Vec<Rgb>)
    ensures
        d@ == distinct_seq(sampled@),
{
    let mut d: Vec<Rgb> = Vec::new();
    let mut i: usize = 0;
    while i < sampled.len()
        invariant
            i <= sampled@.len(),
            d@ == distinct_seq(sampled@.take(i as int)),
        decreases sampled@.len() - i,
    {
        let c = sampled[i];
        assert(sampled@.take(i as int + 1).drop_last() =~= sampled@.take(i as int));
        assert(sampled@.take(i as int + 1).last() == c);
        if !contains_color(&d, c) {
            d.push(c);
        }
        i += 1;
    }
    assert(sampled@.take(sampled@.len() as int) =~= sampled@);
    d
}

/// The coarse representative of a color.
fn truncate_color(c: Rgb) -> (t: Rgb)
    ensures
        t == trunc_of(c),
{
    Rgb { r: c.r & 0xE0, g: c.g & 0xE0, b: c.b & 0xC0 }
}

/// The distinct coarse representatives of the sampled colors, in order of
/// first occurrence, capped at 256 entries.
fn capped_trunc_distinct(sampled: &Vec<Rgb>) -> (d: Vec<Rgb>)
    ensures
        d@ == capped_distinct_seq(trunc_seq(sampled@), 256),
        d@.no_duplicates(),
        d@.len() <= 256,
        sampled@.len() > 0 ==> d@.len() >= 1,
{
    let mut d: Vec<Rgb> = Vec::new();
    let mut i: usize = 0;
    while i < sampled.len()
        invariant
            i <= sampled@.len(),
            d@ == capped_distinct_seq(trunc_seq(sampled@.take(i as int)), 256),
            d@.no_duplicates(),
            d@.len() <= 256,
            i > 0 ==> d@.len() >= 1,
        decreases sampled@.len() - i,
    {
        let t = truncate_color(sampled[i]);
        proof {
            assert(trunc_seq(sampled@.take(i as int + 1)).drop_last() =~= trunc_seq(
                sampled@.take(i as int),
            ));
            assert(trunc_seq(sampled@.take(i as int + 1)).last() == trunc_of(
                sampled@[i as int],
            ));
        }
        if d.len() < 256 && !contains_color(&d, t) {
            d.push(t);
        }
        i += 1;
    }
    proof {
        assert(trunc_seq(sampled@.take(sampled@.len() as int)) =~= trunc_seq(sampled@));
    }
    d
}

/// Reduces the frames to a palette of at most 256 colors and maps every
/// pixel of every frame to its nearest palette entry.
///
/// Succeeds exactly when the sample factor is positive and at least one
/// frame was given. When the sampled pixels hold at most 256 distinct
/// colors, the palette is exactly those colors in order of first
/// occurrence, and so — see `lemma_palette_within_distinct_colors` — never
/// larger than the frames' distinct color count when that count is itself
/// at most 256. When they hold more, the palette is the distinct coarse
/// representatives of the sampled colors, capped at 256. Each returned
/// index buffer maps the corresponding frame's pixels, in order, to their
/// nearest palette entry (ties toward the lowest index).
pub fn quantize(frames: &Vec<Image>, sample_factor: u32) -> (r: Result<
    (Vec<Rgb>, Vec<Vec<u8>>),
    GifError,
>)
    ensures
        r is Ok <==> sample_factor >= 1 && frames@.len() >= 1,
        match r {
            Ok((pal, idx)) => {
                &&& pal@.no_duplicates()
                &&& pal@.len() <= 256
                &&& (distinct_seq(sampled_of_frames(frames@, sample_factor as int)).len() <= 256
                    ==> pal@ == distinct_seq(sampled_of_frames(frames@, sample_factor as int)))
                &&& (all_rgb(frames@).to_set().len() <= 256 ==> pal@.len() <= all_rgb(
                    frames@,
                ).to_set().len())
                &&& (distinct_seq(sampled_of_frames(frames@, sample_factor as int)).len() > 256
                    ==> pal@ == capped_distinct_seq(
                    trunc_seq(sampled_of_frames(frames@, sample_factor as int)),
                    256,
                ))
                &&& idx@.len() == frames@.len()
                &&& (forall|f: int|
                    0 <= f < frames@.len() ==> (#[trigger] idx@[f])@.len()
                        == frames@[f].pixels@.len())
                &&& (forall|f: int, i: int|
                    0 <= f < frames@.len() && 0 <= i < frames@[f].pixels@.len() ==> is_nearest(
                        pal@,
                        rgb_of(frames@[f].pixels@[i]),
                        (#[trigger] idx@[f]@[i]) as int,
                    ))
            },
            Err(e) => {
                &&& (e == GifError::InvalidParameter <==> sample_factor == 0)
                &&& (e == GifError::EncoderError <==> sample_factor >= 1 && frames@.len() == 0)
            },
        },
{
    if sample_factor == 0 {
        return Err(GifError::InvalidParameter);
    }
    if frames.len() == 0 {
        return Err(GifError::EncoderError);
    }
    let stride: usize = sample_factor as usize;

    // Gather the sampled colors of every frame, in frame order.
    let mut sampled: Vec<Rgb> = Vec::new();
    let mut f: usize = 0;
    while f < frames.len()
        invariant
            stride == sample_factor,
            stride >= 1,
            f <= frames@.len(),
            sampled@ == sampled_of_frames(frames@.take(f as int), stride as int),
        decreases frames@.len() - f,
    {
        let ghost prev = sampled@;
        let ghost s = stride as int;
        let plen = frames[f].pixels.len();
        let k_total: usize = if plen == 0 {
            0
        } else {
            (plen - 1) / stride + 1
        };
        proof {
            if plen == 0 {
                assert((plen + s - 1) / s == 0) by (nonlinear_arith)
                    requires
                        s >= 1,
                        plen == 0,
                ;
            } else {
                assert((plen - 1) / s + 1 == (plen + s - 1) / s) by (nonlinear_arith)
                    requires
                        s >= 1,
                        plen >= 1,
                ;
            }
            assert(k_total == (plen + s - 1) / s);
        }
        let mut k: usize = 0;
        while k < k_total
            invariant
                stride >= 1,
                s == stride,
                f < frames@.len(),
                plen == frames@[f as int].pixels@.len(),
                k <= k_total,
                k_total == (plen + s - 1) / s,
                plen == 0 ==> k_total == 0,
                plen >= 1 ==> k_total == (plen - 1) / s + 1,
                sampled@.len() == prev.len() + k,
                sampled@.take(prev.len() as int) == prev,
                forall|t: int|
                    0 <= t < k ==> #[trigger] sampled@[prev.len() + t] == rgb_of(
                        frames@[f as int].pixels@[t * s],
                    ),
            decreases k_total - k,
        {
            proof {
                assert(k * s < plen) by (nonlinear_arith)
                    requires
                        s >= 1,
                        plen >= 1,
                        0 <= k <= (plen - 1) / s,
                ;
            }
            let i: usize = k * stride;
            let c = frames[f].pixels[i];
            sampled.push(rgb_exec(c));
            assert(sampled@.take(prev.len() as int) =~= prev);
            k += 1;
        }
        proof {
            let pix = frames@[f as int].pixels@;
            let sp = sampled_of_pixels(pix, s);
            assert(sp.len() == k_total);
            assert forall|t: int| 0 <= t < k_total implies sampled@.skip(prev.len() as int)[t]
                == sp[t] by {
                assert(sampled@[prev.len() + t] == rgb_of(pix[t * s]));
            }
            assert(sampled@.skip(prev.len() as int) =~= sp);
            assert(sampled@ =~= prev + sp);
        }
        proof {
            assert(frames@.take(f as int + 1).drop_last() =~= frames@.take(f as int));
            assert(frames@.take(f as int + 1).last() == frames@[f as int]);
        }
        f += 1;
    }
    proof {
        assert(frames@.take(frames@.len() as int) =~= frames@);
    }

    // Choose the palette.
    let distinct = distinct_colors(&sampled);
    proof {
        lemma_distinct_seq(sampled@);
        lemma_palette_within_distinct_colors(frames@, stride as int);
    }
    let palette: Vec<Rgb> = if distinct.len() <= 256 {
        distinct
    } else {
        capped_trunc_distinct(&sampled)
    };

    // Map every pixel of every frame to its nearest palette entry.
    let mut indices: Vec<Vec<u8>> = Vec::new();
    let mut f2: usize = 0;
    while f2 < frames.len()
        invariant
            stride == sample_factor,
            stride >= 1,
            frames@.len() >= 1,
            sampled@ == sampled_of_frames(frames@, stride as int),
            sampled@.len() > 0 ==> palette@.len() >= 1,
            palette@.no_duplicates(),
            palette@.len() <= 256,
            f2 <= frames@.len(),
            indices@.len() == f2,
            forall|g: int| 0 <= g < f2 ==> (#[trigger] indices@[g])@.len()
                == frames@[g].pixels@.len(),
            forall|g: int, i: int|
                0 <= g < f2 && 0 <= i < frames@[g].pixels@.len() ==> is_nearest(
                    palette@,
                    rgb_of(frames@[g].pixels@[i]),
                    (#[trigger] indices@[g]@[i]) as int,
                ),
        decreases frames@.len() - f2,
    {
        let plen = frames[f2].pixels.len();
        let mut buf: Vec<u8> = Vec::new();
        if plen > 0 {
            proof {
                lemma_sampled_nonempty(frames@, stride as int, f2 as int);
            }
        }
        let mut i: usize = 0;
        while i < plen
            invariant
                f2 < frames@.len(),
                plen == frames@[f2 as int].pixels@.len(),
                plen > 0 ==> palette@.len() >= 1,
                palette@.len() <= 256,
                i <= plen,
                buf@.len() == i,
                forall|t: int|
                    0 <= t < i ==> is_nearest(
                        palette@,
                        rgb_of(frames@[f2 as int].pixels@[t]),
                        (#[trigger] buf@[t]) as int,
                    ),
            decreases plen - i,
        {
            let c = frames[f2].pixels[i];
            let idx = nearest_index(&palette, rgb_exec(c));
            assert(idx < 256);
            buf.push(idx as u8);
            i += 1;
        }
        indices.push(buf);
        f2 += 1;
    }
    Ok((palette, indices))
}

/// The color of a pixel, with the alpha channel dropped.
fn rgb_exec(p: Rgba) -> (c: Rgb)
    ensures
        c == rgb_of(p),
{
    Rgb { r: p.r, g: p.g, b: p.b }
}

/// A frame with pixels contributes at least one sampled color.
proof fn lemma_sampled_nonempty(frames: Seq<Image>, s: int, f: int)
    requires
        s >= 1,
        0 <= f < frames.len(),
        frames[f].pixels@.len() > 0,
    ensures
        sampled_of_frames(frames, s).len() > 0,
    decreases frames.len(),
{
    if f == frames.len() - 1 {
        let pix = frames.last().pixels@;
        assert((pix.len() + s - 1) / s >= 1) by (nonlinear_arith)
            requires
                s >= 1,
                pix.len() >= 1,
        ;
    } else {
        lemma_sampled_nonempty(frames.drop_last(), s, f);
    }
}

} // verus!
