use vstd::prelude::*;

use crate::palette::{
    convert_rgb_to_cga_idx, lemma_nearest_is_nearest, lemma_row_in_raster, nearest_cga, pixel_at,
};
use vstd::arithmetic::div_mod::lemma_fundamental_div_mod_converse;

verus! {

/// Intensity gain added to a bright color's samples, in the 0..=255 domain.
pub const INTENSITY_GAIN_INT: u8 = 64;

/// Luma contribution (0 or 255) of each base hue at each half-dot of a color cycle.
pub open spec fn wave_row(hue: int) -> Seq<u8> {
    if hue == 0 {
        seq![0u8, 0, 0, 0, 0, 0, 0, 0]
    } else if hue == 1 {
        seq![0u8, 0, 0, 255, 255, 255, 255, 0]
    } else if hue == 2 {
        seq![255u8, 255, 0, 0, 0, 0, 255, 255]
    } else if hue == 3 {
        seq![255u8, 0, 0, 0, 0, 255, 255, 255]
    } else if hue == 4 {
        seq![0u8, 255, 255, 255, 255, 0, 0, 0]
    } else if hue == 5 {
        seq![0u8, 0, 255, 255, 255, 255, 0, 0]
    } else if hue == 6 {
        seq![255u8, 255, 255, 0, 0, 0, 0, 255]
    } else {
        seq![255u8, 255, 255, 255, 255, 255, 255, 255]
    }
}

/// Which (hue, half-dot) cells fall on an edge of the color clock.
pub open spec fn edge_row(hue: int) -> Seq<bool> {
    if hue == 0 {
        seq![false, false, false, false, false, false, false, false]
    } else if hue == 1 {
        seq![false, false, false, true, false, false, true, false]
    } else if hue == 2 {
        seq![false, true, false, false, false, false, true, false]
    } else if hue == 3 {
        seq![true, false, false, false, false, true, false, false]
    } else if hue == 4 {
        seq![false, true, false, false, true, false, false, false]
    } else if hue == 5 {
        seq![false, false, true, false, false, true, false, false]
    } else if hue == 6 {
        seq![false, false, true, false, false, false, false, true]
    } else {
        seq![false, false, false, false, false, false, false, false]
    }
}

/// Waveform value of `hue` at half-dot `phase`.
pub open spec fn wave(hue: int, phase: int) -> u8 {
    wave_row(hue)[phase]
}

/// Whether `hue` at half-dot `phase` lies on a color-clock edge.
pub open spec fn is_edge(hue: int, phase: int) -> bool {
    edge_row(hue)[phase]
}

/// Look up the waveform table.
pub fn color_gen_half_int(hue: usize, phase: usize) -> (v: u8)
    requires
        hue < 8,
        phase < 8,
    ensures
        v == wave(hue as int, phase as int),
{
    let row: [u8; 8] = match hue {
        0 => [0, 0, 0, 0, 0, 0, 0, 0],
        1 => [0, 0, 0, 255, 255, 255, 255, 0],
        2 => [255, 255, 0, 0, 0, 0, 255, 255],
        3 => [255, 0, 0, 0, 0, 255, 255, 255],
        4 => [0, 255, 255, 255, 255, 0, 0, 0],
        5 => [0, 0, 255, 255, 255, 255, 0, 0],
        6 => [255, 255, 255, 0, 0, 0, 0, 255],
        _ => [255, 255, 255, 255, 255, 255, 255, 255],
    };
    assert(row@ == wave_row(hue as int));
    row[phase]
}

/// Look up the color-clock edge table.
pub fn color_gen_edges_half(hue: usize, phase: usize) -> (e: bool)
    requires
        hue < 8,
        phase < 8,
    ensures
        e == is_edge(hue as int, phase as int),
{
    let row: [bool; 8] = match hue {
        0 => [false, false, false, false, false, false, false, false],
        1 => [false, false, false, true, false, false, true, false],
        2 => [false, true, false, false, false, false, true, false],
        3 => [true, false, false, false, false, true, false, false],
        4 => [false, true, false, false, true, false, false, false],
        5 => [false, false, true, false, false, true, false, false],
        6 => [false, false, true, false, false, false, false, true],
        _ => [false, false, false, false, false, false, false, false],
    };
    assert(row@ == edge_row(hue as int));
    row[phase]
}

/// Return the hdot number (0..=3) of column `x` within the four-pixel color cycle.
pub fn get_cycle_hdot(x: i32) -> (r: usize)
    ensures
        r < 4,
        r as int == (if x >= 0 { x as int % 4 } else { (-(x as int)) % 4 }),
{
    let m: i32 = x % 4;
    if m < 0 {
        (-m) as usize
    } else {
        m as usize
    }
}

/// Sample `h` (0 or 1) of a pixel of palette index `color` at hdot `hdot`, fixed-point path:
/// the waveform value scaled by 768/1024, plus the intensity gain for bright colors.
pub open spec fn int_sample(color: int, hdot: int, h: int) -> int {
    (wave(color % 8, hdot * 2 + h) as int * 768) / 1024 + (if color > 7 { 64int } else { 0 })
}

/// Whether sample `h` of a pixel of index `color`, followed by a pixel of index `next_color`,
/// is a high level that rises or falls on a color-clock edge.
pub open spec fn slew_limited(color: int, next_color: int, hdot: int, h: int) -> bool {
    let base = color % 8;
    let p = hdot * 2 + h;
    let last = if h == 0 { 0u8 } else { wave(base, hdot * 2) };
    let next = if h == 0 { wave(base, (p + 1) % 8) } else { wave(next_color % 8, (p + 1) % 8) };
    &&& wave(base, p) == 255
    &&& is_edge(base, p)
    &&& (last == 0 || next == 0)
}

/// A sample level in percent (0, 80 or 100), attenuated to 75%, plus 25% of full scale when
/// `bright`, then scaled to 0..=255 and truncated.
pub open spec fn scaled_level(level: int, bright: bool) -> int {
    (255 * (level * 75 + (if bright { 2500int } else { 0 }))) / 10000
}

/// Sample `h` of a pixel with edge attenuation: high levels on a color-clock edge keep 80%.
pub open spec fn slew_sample(color: int, next_color: int, hdot: int, h: int) -> int {
    let level = if wave(color % 8, hdot * 2 + h) == 255 {
        if slew_limited(color, next_color, hdot, h) { 80int } else { 100 }
    } else {
        0
    };
    scaled_level(level, color > 7)
}

proof fn lemma_shift_is_div(v: u32)
    requires
        v <= 255 * 768,
    ensures
        v >> 10u32 == v / 1024,
{
    assert(v >> 10u32 == v / 1024) by (bit_vector);
}

/// Fixed-point sample `h` of a pixel of palette index `color` at hdot `hdot`.
fn encode_sample_int(color: u8, hdot: usize, h: usize) -> (v: u8)
    requires
        color < 16,
        hdot < 4,
        h < 2,
    ensures
        v as int == int_sample(color as int, hdot as int, h as int),
{
    let base = color % 8;
    let value = color_gen_half_int(base as usize, hdot * 2 + h);
    let scaled: u32 = value as u32 * 768;
    proof {
        lemma_shift_is_div(scaled);
    }
    let mut out = (scaled >> 10) as u8;
    if color > 7 {
        out = out + INTENSITY_GAIN_INT;
    }
    out
}

/// Edge-attenuated sample `h` of a pixel of palette index `color`, whose right neighbour
/// has index `next_color`.
fn encode_sample(color: u8, next_color: u8, hdot: usize, h: usize) -> (v: u8)
    requires
        color < 16,
        next_color < 16,
        hdot < 4,
        h < 2,
    ensures
        v as int == slew_sample(color as int, next_color as int, hdot as int, h as int),
{
    let base = (color % 8) as usize;
    let phase = hdot * 2 + h;
    let value = color_gen_half_int(base, phase);
    let last = if h == 0 { 0 } else { color_gen_half_int(base, hdot * 2) };
    let next = if h == 0 {
        color_gen_half_int(base, (phase + 1) % 8)
    } else {
        color_gen_half_int((next_color % 8) as usize, (phase + 1) % 8)
    };
    let edge = color_gen_edges_half(base, phase);
    let mut attenuate = false;
    if value == 255 && last == 0 {
        if edge {
            attenuate = true;
        }
    } else if value == 255 && next == 0 {
        if edge {
            attenuate = true;
        }
    }
    let level: u32 = if value == 255 {
        if attenuate { 80 } else { 100 }
    } else {
        0
    };
    let gain: u32 = if color > 7 { 2500 } else { 0 };
    let scaled: u32 = 255 * (level * 75 + gain);
    (scaled / 10000) as u8
}


/// Sample `h` of pixel `p` of an RGBA raster of width `w`, fixed-point path.
pub open spec fn encoded_int_sample(img: Seq<u8>, w: int, p: int, h: int) -> int {
    int_sample(nearest_cga(pixel_at(img, p)), (p % w) % 4, h)
}

/// Convert a 16-color CGA image into a double-width composite signal, in fixed-point
/// arithmetic: no edge attenuation, 75% luma, plus the intensity gain for bright colors.
/// `img_in` holds `img_w * img_h` RGBA pixels; sample `h` of pixel `p` lands at `2 * p + h`
/// of `img_out`, which is twice as wide as the source, and the rest of `img_out` is kept.
pub fn process_cga_composite_int(img_in: &[u8], img_out: &mut [u8], img_w: u32, img_h: u32)
    requires
        4 * (img_w as int) * (img_h as int) <= img_in@.len(),
        2 * (img_w as int) * (img_h as int) <= old(img_out)@.len(),
    ensures
        final(img_out)@.len() == old(img_out)@.len(),
        forall|p: int, h: int|
            0 <= p < (img_w as int) * (img_h as int) && 0 <= h < 2 ==> #[trigger] final(img_out)@[2 * p + h] as int
                == encoded_int_sample(img_in@, img_w as int, p, h),
        forall|q: int|
            2 * (img_w as int) * (img_h as int) <= q < old(img_out)@.len() ==> #[trigger] final(img_out)@[q]
                == old(img_out)@[q],
{
    let w: usize = img_w as usize;
    let h: usize = img_h as usize;
    let ghost n: int = (w as int) * (h as int);
    assert(4 * n == 4 * (img_w as int) * (img_h as int) && 2 * n == 2 * (img_w as int) * (img_h as int))
        by (nonlinear_arith)
        requires n == (w as int) * (h as int), w == img_w, h == img_h;
    assert(4 * n <= img_in.len());
    let mut cga_buf: Vec<u8> = vec![0; w * h];
    convert_rgb_to_cga_idx(img_in, cga_buf.as_mut_slice(), img_w, img_h);
    let mut src_o: usize = 0;
    let mut y: usize = 0;
    while y < h
        invariant
            w == img_w,
            h == img_h,
            n == (w as int) * (h as int),
            2 * n <= img_out.len(),
            img_out@.len() == old(img_out)@.len(),
            cga_buf@.len() == n,
            forall|p: int| 0 <= p < n ==> #[trigger] cga_buf@[p] as int == nearest_cga(pixel_at(img_in@, p)),
            y <= h,
            src_o as int == (y as int) * (w as int),
            src_o <= n,
            forall|p: int, k: int|
                0 <= p < src_o && 0 <= k < 2 ==> #[trigger] img_out@[2 * p + k] as int == encoded_int_sample(img_in@, w as int, p, k),
            forall|q: int| 2 * n <= q < img_out@.len() ==> #[trigger] img_out@[q] == old(img_out)@[q],
        decreases h - y,
    {
        proof {
            lemma_row_in_raster(w as int, h as int, y as int);
        }
        let mut x: usize = 0;
        while x < w
            invariant
                w == img_w,
                h == img_h,
                n == (w as int) * (h as int),
                2 * n <= img_out.len(),
                img_out@.len() == old(img_out)@.len(),
                cga_buf@.len() == n,
                forall|p: int| 0 <= p < n ==> #[trigger] cga_buf@[p] as int == nearest_cga(pixel_at(img_in@, p)),
                y < h,
                x <= w,
                src_o as int == (y as int) * (w as int) + x,
                (y as int) * (w as int) + w <= n,
                forall|p: int, k: int|
                    0 <= p < src_o && 0 <= k < 2 ==> #[trigger] img_out@[2 * p + k] as int == encoded_int_sample(img_in@, w as int, p, k),
                forall|q: int| 2 * n <= q < img_out@.len() ==> #[trigger] img_out@[q] == old(img_out)@[q],
            decreases w - x,
        {
            proof {
                lemma_nearest_is_nearest(pixel_at(img_in@, src_o as int));
                lemma_fundamental_div_mod_converse(src_o as int, w as int, y as int, x as int);
            }
            let color = cga_buf[src_o];
            let hdot: usize = x % 4;
            let s0 = encode_sample_int(color, hdot, 0);
            let s1 = encode_sample_int(color, hdot, 1);
            let dst_o: usize = src_o * 2;
            img_out[dst_o] = s0;
            img_out[dst_o + 1] = s1;
            src_o = src_o + 1;
            x = x + 1;
        }
        proof {
            lemma_row_in_raster(w as int, h as int, y as int);
        }
        y = y + 1;
    }
    assert(src_o as int == n) by (nonlinear_arith)
        requires src_o as int == (y as int) * (w as int), y == h, n == (w as int) * (h as int);
}

/// Sample `h` of pixel `p` of an RGBA raster of width `w`, with edge attenuation; the
/// pixel right of the last one in a row counts as black.
pub open spec fn encoded_sample(img: Seq<u8>, w: int, p: int, h: int) -> int {
    let next = if p % w < w - 1 { nearest_cga(pixel_at(img, p + 1)) } else { 0 };
    slew_sample(nearest_cga(pixel_at(img, p)), next, (p % w) % 4, h)
}

/// Convert a 16-color CGA image into a double-width composite signal, attenuating high
/// levels on color-clock edges to 80%, then to 75% luma, plus the intensity gain for bright
/// colors; the factors are applied as exact ratios and the result truncated.
/// `img_in` holds `img_w * img_h` RGBA pixels; sample `h` of pixel `p` lands at `2 * p + h`
/// of `img_out`, which is twice as wide as the source, and the rest of `img_out` is kept.
pub fn process_cga_composite(img_in: &[u8], img_out: &mut [u8], img_w: u32, img_h: u32)
    requires
        4 * (img_w as int) * (img_h as int) <= img_in@.len(),
        2 * (img_w as int) * (img_h as int) <= old(img_out)@.len(),
    ensures
        final(img_out)@.len() == old(img_out)@.len(),
        forall|p: int, h: int|
            0 <= p < (img_w as int) * (img_h as int) && 0 <= h < 2 ==> #[trigger] final(img_out)@[2 * p + h] as int
                == encoded_sample(img_in@, img_w as int, p, h),
        forall|q: int|
            2 * (img_w as int) * (img_h as int) <= q < old(img_out)@.len() ==> #[trigger] final(img_out)@[q]
                == old(img_out)@[q],
{
    let w: usize = img_w as usize;
    let h: usize = img_h as usize;
    let ghost n: int = (w as int) * (h as int);
    assert(4 * n == 4 * (img_w as int) * (img_h as int) && 2 * n == 2 * (img_w as int) * (img_h as int))
        by (nonlinear_arith)
        requires n == (w as int) * (h as int), w == img_w, h == img_h;
    assert(4 * n <= img_in.len());
    let mut cga_buf: Vec<u8> = vec![0; w * h];
    convert_rgb_to_cga_idx(img_in, cga_buf.as_mut_slice(), img_w, img_h);
    let mut src_o: usize = 0;
    let mut y: usize = 0;
    while y < h
        invariant
            w == img_w,
            h == img_h,
            n == (w as int) * (h as int),
            2 * n <= img_out.len(),
            img_out@.len() == old(img_out)@.len(),
            cga_buf@.len() == n,
            forall|p: int| 0 <= p < n ==> #[trigger] cga_buf@[p] as int == nearest_cga(pixel_at(img_in@, p)),
            y <= h,
            src_o as int == (y as int) * (w as int),
            src_o <= n,
            forall|p: int, k: int|
                0 <= p < src_o && 0 <= k < 2 ==> #[trigger] img_out@[2 * p + k] as int == encoded_sample(img_in@, w as int, p, k),
            forall|q: int| 2 * n <= q < img_out@.len() ==> #[trigger] img_out@[q] == old(img_out)@[q],
        decreases h - y,
    {
        proof {
            lemma_row_in_raster(w as int, h as int, y as int);
        }
        let mut x: usize = 0;
        while x < w
            invariant
                w == img_w,
                h == img_h,
                n == (w as int) * (h as int),
                2 * n <= img_out.len(),
                img_out@.len() == old(img_out)@.len(),
                cga_buf@.len() == n,
                forall|p: int| 0 <= p < n ==> #[trigger] cga_buf@[p] as int == nearest_cga(pixel_at(img_in@, p)),
                y < h,
                x <= w,
                src_o as int == (y as int) * (w as int) + x,
                (y as int) * (w as int) + w <= n,
                forall|p: int, k: int|
                    0 <= p < src_o && 0 <= k < 2 ==> #[trigger] img_out@[2 * p + k] as int == encoded_sample(img_in@, w as int, p, k),
                forall|q: int| 2 * n <= q < img_out@.len() ==> #[trigger] img_out@[q] == old(img_out)@[q],
            decreases w - x,
        {
            proof {
                lemma_nearest_is_nearest(pixel_at(img_in@, src_o as int));
                lemma_fundamental_div_mod_converse(src_o as int, w as int, y as int, x as int);
            }
            let color = cga_buf[src_o];
            let next_color: u8 = if x < w - 1 {
                proof {
                    lemma_nearest_is_nearest(pixel_at(img_in@, src_o as int + 1));
                }
                cga_buf[src_o + 1]
            } else {
                0
            };
            let hdot: usize = x % 4;
            let s0 = encode_sample(color, next_color, hdot, 0);
            let s1 = encode_sample(color, next_color, hdot, 1);
            let dst_o: usize = src_o * 2;
            img_out[dst_o] = s0;
            img_out[dst_o + 1] = s1;
            src_o = src_o + 1;
            x = x + 1;
        }
        proof {
            lemma_row_in_raster(w as int, h as int, y as int);
        }
        y = y + 1;
    }
    assert(src_o as int == n) by (nonlinear_arith)
        requires src_o as int == (y as int) * (w as int), y == h, n == (w as int) * (h as int);
}

/// Setting the intensity bit of a pixel never lowers any of its samples, on either path,
/// with the position and the right neighbour unchanged.
pub proof fn lemma_intensity_gain_monotonic(color: int, next_color: int, hdot: int, h: int)
    requires
        0 <= color < 8,
        0 <= next_color < 16,
        0 <= hdot < 4,
        0 <= h < 2,
    ensures
        int_sample(color + 8, hdot, h) >= int_sample(color, hdot, h),
        slew_sample(color + 8, next_color, hdot, h) >= slew_sample(color, next_color, hdot, h),
{
    assert((color + 8) % 8 == color % 8);
    let level = if wave(color % 8, hdot * 2 + h) == 255 {
        if slew_limited(color, next_color, hdot, h) { 80int } else { 100 }
    } else {
        0
    };
    assert(slew_limited(color + 8, next_color, hdot, h) == slew_limited(color, next_color, hdot, h));
    assert(0 <= level <= 100);
    assert((255 * (level * 75 + 2500)) / 10000 >= (255 * (level * 75)) / 10000) by (nonlinear_arith)
        requires 0 <= level <= 100;
}

} // verus!
