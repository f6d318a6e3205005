use vstd::prelude::*;

use crate::palette::{RGBColor, lemma_row_in_raster, pixel_at};

verus! {

/// What a decoder writes into each output pixel.
#[derive(Clone, Copy, Debug, PartialEq, Eq, Structural)]
pub enum OutputType {
    /// The adjusted color, converted to RGB.
    Rgb,
    /// The demodulated luma, as gray.
    Luma,
    /// The demodulated chroma components, amplified, as red and green.
    Chroma,
}

/// How a decoder demodulates the composite signal.
#[derive(Clone, Copy, Debug, PartialEq, Eq, Structural)]
pub enum SampleMethod {
    /// A box filter over one subcarrier cycle.
    Fast,
    /// A windowed-sinc low-pass filter.
    Accurate,
}

/// Coordinate `v` clamped into `0..size`.
pub open spec fn clamp_coord(v: int, size: int) -> int {
    if v < 0 {
        0
    } else if v >= size {
        size - 1
    } else {
        v
    }
}

/// The sample of a grayscale raster at `(x, y)`, coordinates clamped to the raster's edges.
pub open spec fn gray_sample(img: Seq<u8>, w: int, h: int, x: int, y: int) -> u8 {
    img[clamp_coord(y, h) * w + clamp_coord(x, w)]
}

/// The color of an RGBA raster at `(x, y)`, coordinates clamped to the raster's edges.
pub open spec fn rgb_sample(img: Seq<u8>, w: int, h: int, x: int, y: int) -> RGBColor {
    pixel_at(img, clamp_coord(y, h) * w + clamp_coord(x, w))
}

fn clamp_i32(v: i32, size: u32) -> (r: usize)
    requires
        size >= 1,
    ensures
        r as int == clamp_coord(v as int, size as int),
        r < size,
{
    if v < 0 {
        0
    } else if v as u32 >= size {
        (size - 1) as usize
    } else {
        v as usize
    }
}

/// Index into a `img_w` by `img_h` raster of the clamped coordinates, as a pixel number.
fn clamped_pixel(img_w: u32, img_h: u32, x: i32, y: i32) -> (p: usize)
    requires
        img_w >= 1,
        img_h >= 1,
        (img_w as int) * (img_h as int) <= usize::MAX,
    ensures
        p as int == clamp_coord(y as int, img_h as int) * (img_w as int) + clamp_coord(x as int, img_w as int),
        p < (img_w as int) * (img_h as int),
{
    let cx = clamp_i32(x, img_w);
    let cy = clamp_i32(y, img_h);
    proof {
        lemma_row_in_raster(img_w as int, img_h as int, cy as int);
    }
    cy * (img_w as usize) + cx
}

/// Return the grayscale sample at `(x, y)`, coordinates clamped to the raster's edges.
pub fn sample_gy_xy(img_in: &[u8], img_w: u32, img_h: u32, x: i32, y: i32) -> (s: u8)
    requires
        img_w >= 1,
        img_h >= 1,
        (img_w as int) * (img_h as int) <= img_in@.len(),
    ensures
        s == gray_sample(img_in@, img_w as int, img_h as int, x as int, y as int),
{
    assert((img_w as int) * (img_h as int) <= img_in.len());
    let p = clamped_pixel(img_w, img_h, x, y);
    img_in[p]
}

/// Return the RGB color at `(x, y)` of an RGBA raster, coordinates clamped to its edges.
pub fn sample_rgb_xy(img_in: &[u8], img_w: u32, img_h: u32, x: i32, y: i32) -> (c: RGBColor)
    requires
        img_w >= 1,
        img_h >= 1,
        4 * (img_w as int) * (img_h as int) <= img_in@.len(),
    ensures
        c == rgb_sample(img_in@, img_w as int, img_h as int, x as int, y as int),
{
    let ghost n = (img_w as int) * (img_h as int);
    assert(4 * n <= img_in.len()) by (nonlinear_arith)
        requires n == (img_w as int) * (img_h as int), 4 * (img_w as int) * (img_h as int) <= img_in@.len(), img_in@.len() == img_in.len();
    let p = clamped_pixel(img_w, img_h, x, y);
    let io: usize = p * 4;
    RGBColor { r: img_in[io], g: img_in[io + 1], b: img_in[io + 2] }
}

/// Sampling one step outside a raster gives the value at its edge: column -1 reads as
/// column 0 and column `w` as column `w - 1`, and likewise for rows, for grayscale and RGB.
pub proof fn lemma_border_clamping(img: Seq<u8>, w: int, h: int, x: int, y: int)
    requires
        w >= 1,
        h >= 1,
    ensures
        gray_sample(img, w, h, -1, y) == gray_sample(img, w, h, 0, y),
        gray_sample(img, w, h, w, y) == gray_sample(img, w, h, w - 1, y),
        gray_sample(img, w, h, x, -1) == gray_sample(img, w, h, x, 0),
        gray_sample(img, w, h, x, h) == gray_sample(img, w, h, x, h - 1),
        rgb_sample(img, w, h, -1, y) == rgb_sample(img, w, h, 0, y),
        rgb_sample(img, w, h, w, y) == rgb_sample(img, w, h, w - 1, y),
        rgb_sample(img, w, h, x, -1) == rgb_sample(img, w, h, x, 0),
        rgb_sample(img, w, h, x, h) == rgb_sample(img, w, h, x, h - 1),
{
}

} // verus!
