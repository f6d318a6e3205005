use vstd::prelude::*;

verus! {

/// An 8-bit-per-channel RGB color.
#[derive(Clone, Copy, Debug, PartialEq, Eq, Structural)]
pub struct RGBColor {
    pub r: u8,
    pub g: u8,
    pub b: u8,
}

impl RGBColor {
    pub fn new(r: u8, g: u8, b: u8) -> (c: RGBColor)
        ensures
            c == (RGBColor { r, g, b }),
    {
        RGBColor { r, g, b }
    }
}

/// Number of entries in the CGA palette.
pub const CGA_COLORS: usize = 16;

/// The reference CGA palette, entry `i` for `0 <= i < 16`.
pub open spec fn cga_palette(i: int) -> RGBColor {
    let (r, g, b) = if i == 0 {
        (0x00u8, 0x00u8, 0x00u8)
    } else if i == 1 {
        (0x00, 0x00, 0xAA)
    } else if i == 2 {
        (0x00, 0xAA, 0x00)
    } else if i == 3 {
        (0x00, 0xAA, 0xAA)
    } else if i == 4 {
        (0xAA, 0x00, 0x00)
    } else if i == 5 {
        (0xAA, 0x00, 0xAA)
    } else if i == 6 {
        (0xAA, 0x55, 0x00)
    } else if i == 7 {
        (0xAA, 0xAA, 0xAA)
    } else if i == 8 {
        (0x55, 0x55, 0x55)
    } else if i == 9 {
        (0x55, 0x55, 0xFF)
    } else if i == 10 {
        (0x55, 0xFF, 0x55)
    } else if i == 11 {
        (0x55, 0xFF, 0xFF)
    } else if i == 12 {
        (0xFF, 0x55, 0x55)
    } else if i == 13 {
        (0xFF, 0x55, 0xFF)
    } else if i == 14 {
        (0xFF, 0xFF, 0x55)
    } else {
        (0xFF, 0xFF, 0xFF)
    };
    RGBColor { r, g, b }
}

/// Palette entry `i` of the CGA color set.
pub fn cga_rgb(i: usize) -> (c: RGBColor)
    requires
        i < CGA_COLORS,
    ensures
        c == cga_palette(i as int),
{
    let (r, g, b): (u8, u8, u8) = match i {
        0 => (0x00, 0x00, 0x00),
        1 => (0x00, 0x00, 0xAA),
        2 => (0x00, 0xAA, 0x00),
        3 => (0x00, 0xAA, 0xAA),
        4 => (0xAA, 0x00, 0x00),
        5 => (0xAA, 0x00, 0xAA),
        6 => (0xAA, 0x55, 0x00),
        7 => (0xAA, 0xAA, 0xAA),
        8 => (0x55, 0x55, 0x55),
        9 => (0x55, 0x55, 0xFF),
        10 => (0x55, 0xFF, 0x55),
        11 => (0x55, 0xFF, 0xFF),
        12 => (0xFF, 0x55, 0x55),
        13 => (0xFF, 0x55, 0xFF),
        14 => (0xFF, 0xFF, 0x55),
        _ => (0xFF, 0xFF, 0xFF),
    };
    RGBColor { r, g, b }
}

/// Squared Euclidean distance between two colors in RGB space.
pub open spec fn distance_squared(a: RGBColor, b: RGBColor) -> int {
    let dr = a.r as int - b.r as int;
    let dg = a.g as int - b.g as int;
    let db = a.b as int - b.b as int;
    dr * dr + dg * dg + db * db
}

/// The first index among palette entries `0..n` at the smallest distance from `c`.
pub open spec fn nearest_upto(c: RGBColor, n: int) -> int
    decreases n,
{
    if n <= 1 {
        0
    } else {
        let best = nearest_upto(c, n - 1);
        if distance_squared(c, cga_palette(n - 1)) < distance_squared(c, cga_palette(best)) {
            n - 1
        } else {
            best
        }
    }
}

/// The palette index that the quantizer assigns to `c`.
pub open spec fn nearest_cga(c: RGBColor) -> int {
    nearest_upto(c, 16)
}

/// `i` is a palette entry at minimal distance from `c`, and no entry before it is as close.
pub open spec fn is_nearest(c: RGBColor, i: int) -> bool {
    &&& 0 <= i < 16
    &&& forall|j: int| 0 <= j < 16 ==> distance_squared(c, cga_palette(i)) <= distance_squared(c, #[trigger] cga_palette(j))
    &&& forall|j: int| 0 <= j < i ==> distance_squared(c, cga_palette(i)) < distance_squared(c, #[trigger] cga_palette(j))
}

fn rgb_distance_squared(a: RGBColor, b: RGBColor) -> (d: i32)
    ensures
        d as int == distance_squared(a, b),
        0 <= d <= 3 * 255 * 255,
{
    let dr: i32 = a.r as i32 - b.r as i32;
    let dg: i32 = a.g as i32 - b.g as i32;
    let db: i32 = a.b as i32 - b.b as i32;
    assert(dr * dr <= 255 * 255 && 0 <= dr * dr) by (nonlinear_arith)
        requires -255 <= dr <= 255;
    assert(dg * dg <= 255 * 255 && 0 <= dg * dg) by (nonlinear_arith)
        requires -255 <= dg <= 255;
    assert(db * db <= 255 * 255 && 0 <= db * db) by (nonlinear_arith)
        requires -255 <= db <= 255;
    dr * dr + dg * dg + db * db
}

/// Convert an RGB value to the index of the nearest CGA palette entry.
/// Ties go to the lower index; pure black and pure white map directly to 0 and 15.
pub fn rgb_to_cga(rgb: RGBColor) -> (idx: u8)
    ensures
        idx as int == nearest_cga(rgb),
        idx < 16,
        rgb == (RGBColor { r: 0, g: 0, b: 0 }) ==> idx == 0,
        rgb == (RGBColor { r: 0xFF, g: 0xFF, b: 0xFF }) ==> idx == 15,
{
    if rgb == (RGBColor { r: 0, g: 0, b: 0 }) {
        proof {
            lemma_exact_match_is_nearest(rgb, 0);
        }
        return 0;
    }
    if rgb == (RGBColor { r: 0xFF, g: 0xFF, b: 0xFF }) {
        proof {
            lemma_exact_match_is_nearest(rgb, 15);
        }
        return 15;
    }
    let mut color_index: usize = 0;
    let mut color_distance: i32 = 10000000;
    let mut i: usize = 0;
    while i < CGA_COLORS
        invariant
            0 <= i <= CGA_COLORS,
            i == 0 ==> color_index == 0 && color_distance == 10000000,
            i > 0 ==> color_index as int == nearest_upto(rgb, i as int),
            i > 0 ==> color_distance as int == distance_squared(rgb, cga_palette(color_index as int)),
        decreases CGA_COLORS - i,
    {
        let temp_distance = rgb_distance_squared(rgb, cga_rgb(i));
        if temp_distance < color_distance {
            color_index = i;
            color_distance = temp_distance;
        }
        i = i + 1;
    }
    proof {
        lemma_nearest_upto_range(rgb, 16);
    }
    color_index as u8
}

proof fn lemma_nearest_upto_range(c: RGBColor, n: int)
    ensures
        0 <= nearest_upto(c, n),
        n >= 1 ==> nearest_upto(c, n) < n,
    decreases n,
{
    if n > 1 {
        lemma_nearest_upto_range(c, n - 1);
    }
}

/// Where palette entry `i` equals `c` and no earlier entry does, `i` is the quantizer's choice.
proof fn lemma_exact_match_is_nearest(c: RGBColor, i: int)
    requires
        0 <= i < 16,
        cga_palette(i) == c,
        forall|j: int| 0 <= j < i ==> cga_palette(j) != c,
    ensures
        nearest_cga(c) == i,
{
    lemma_nearest_is_nearest(c);
    let k = nearest_cga(c);
    assert(distance_squared(c, cga_palette(i)) == 0);
    assert(distance_squared(c, cga_palette(k)) <= 0);
    let p = cga_palette(k);
    let dr = c.r as int - p.r as int;
    let dg = c.g as int - p.g as int;
    let db = c.b as int - p.b as int;
    assert(dr * dr >= 0 && dg * dg >= 0 && db * db >= 0) by (nonlinear_arith);
    assert(dr == 0 && dg == 0 && db == 0) by (nonlinear_arith)
        requires dr * dr + dg * dg + db * db <= 0, dr * dr >= 0, dg * dg >= 0, db * db >= 0;
    assert(p == c);
    if k < i {
        assert(cga_palette(k) != c);
    } else if k > i {
        assert(distance_squared(c, cga_palette(k)) < distance_squared(c, cga_palette(i)));
    }
}

proof fn lemma_nearest_upto_props(c: RGBColor, n: int)
    requires
        1 <= n <= 16,
    ensures
        0 <= nearest_upto(c, n) < n,
        forall|j: int| 0 <= j < n ==> distance_squared(c, cga_palette(nearest_upto(c, n))) <= distance_squared(c, #[trigger] cga_palette(j)),
        forall|j: int| 0 <= j < nearest_upto(c, n) ==> distance_squared(c, cga_palette(nearest_upto(c, n))) < distance_squared(c, #[trigger] cga_palette(j)),
    decreases n,
{
    if n > 1 {
        lemma_nearest_upto_props(c, n - 1);
    }
}

/// The quantizer's choice is a nearest palette entry, and among equally near entries the
/// one with the lowest index.
pub proof fn lemma_nearest_is_nearest(c: RGBColor)
    ensures
        is_nearest(c, nearest_cga(c)),
{
    lemma_nearest_upto_props(c, 16);
}

/// Exactly one index is a nearest entry with no equally near entry before it, so the
/// quantizer's answer for a color never varies.
pub proof fn lemma_nearest_unique(c: RGBColor, a: int, b: int)
    requires
        is_nearest(c, a),
        is_nearest(c, b),
    ensures
        a == b,
{
    if a < b {
        assert(distance_squared(c, cga_palette(b)) < distance_squared(c, cga_palette(a)));
    } else if b < a {
        assert(distance_squared(c, cga_palette(a)) < distance_squared(c, cga_palette(b)));
    }
}

/// Pixel `p` of a row-major RGBA raster (the alpha byte is ignored).
pub open spec fn pixel_at(img: Seq<u8>, p: int) -> RGBColor {
    RGBColor { r: img[4 * p], g: img[4 * p + 1], b: img[4 * p + 2] }
}

/// Row `y < h` of a raster of width `w` and height `h` spans `y * w .. (y + 1) * w`,
/// which lies inside the raster.
pub proof fn lemma_row_in_raster(w: int, h: int, y: int)
    requires
        0 <= y < h,
        0 <= w,
    ensures
        0 <= y * w,
        y * w + w == (y + 1) * w,
        (y + 1) * w <= w * h,
{
    assert(y * w + w == (y + 1) * w) by (nonlinear_arith);
    assert((y + 1) * w <= h * w) by (nonlinear_arith)
        requires y + 1 <= h, 0 <= w;
    assert(0 <= y * w) by (nonlinear_arith)
        requires 0 <= y, 0 <= w;
    assert(w * h == h * w) by (nonlinear_arith);
}

/// Convert a row-major RGBA raster into a raster of CGA palette indices, one per pixel.
pub fn convert_rgb_to_cga_idx(img_in: &[u8], cga_out: &mut [u8], img_w: u32, img_h: u32)
    requires
        4 * (img_w as int) * (img_h as int) <= img_in@.len(),
        (img_w as int) * (img_h as int) <= old(cga_out)@.len(),
    ensures
        final(cga_out)@.len() == old(cga_out)@.len(),
        forall|p: int|
            0 <= p < (img_w as int) * (img_h as int) ==> #[trigger] final(cga_out)@[p] as int
                == nearest_cga(pixel_at(img_in@, p)),
        forall|p: int|
            (img_w as int) * (img_h as int) <= p < old(cga_out)@.len() ==> #[trigger] final(cga_out)@[p]
                == old(cga_out)@[p],
{
    let w: usize = img_w as usize;
    let h: usize = img_h as usize;
    let ghost n: int = (w as int) * (h as int);
    assert(4 * n == 4 * (img_w as int) * (img_h as int)) by (nonlinear_arith)
        requires n == (w as int) * (h as int), w == img_w, h == img_h;
    let mut co: usize = 0;
    let mut y: usize = 0;
    while y < h
        invariant
            w == img_w,
            h == img_h,
            n == (w as int) * (h as int),
            4 * n <= img_in@.len(),
            4 * n <= img_in.len(),
            n <= old(cga_out)@.len(),
            cga_out@.len() == old(cga_out)@.len(),
            y <= h,
            co as int == (y as int) * (w as int),
            co <= n,
            forall|p: int| 0 <= p < co ==> #[trigger] cga_out@[p] as int == nearest_cga(pixel_at(img_in@, p)),
            forall|p: int| n <= p < cga_out@.len() ==> #[trigger] cga_out@[p] == old(cga_out)@[p],
        decreases h - y,
    {
        proof {
            lemma_row_in_raster(w as int, h as int, y as int);
        }
        let mut x: usize = 0;
        while x < w
            invariant
                w == img_w,
                h == img_h,
                n == (w as int) * (h as int),
                4 * n <= img_in@.len(),
            4 * n <= img_in.len(),
                n <= old(cga_out)@.len(),
                cga_out@.len() == old(cga_out)@.len(),
                y < h,
                x <= w,
                co as int == (y as int) * (w as int) + x,
                (y as int) * (w as int) + w <= n,
                forall|p: int| 0 <= p < co ==> #[trigger] cga_out@[p] as int == nearest_cga(pixel_at(img_in@, p)),
                forall|p: int| n <= p < cga_out@.len() ==> #[trigger] cga_out@[p] == old(cga_out)@[p],
            decreases w - x,
        {
            let so: usize = co * 4;
            let cga_idx = rgb_to_cga(RGBColor { r: img_in[so], g: img_in[so + 1], b: img_in[so + 2] });
            cga_out[co] = cga_idx;
            co = co + 1;
            x = x + 1;
        }
        proof {
            lemma_row_in_raster(w as int, h as int, y as int);
        }
        y = y + 1;
    }
    assert(co as int == n) by (nonlinear_arith)
        requires co as int == (y as int) * (w as int), y == h, n == (w as int) * (h as int);
}

} // verus!
