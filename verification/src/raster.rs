//! Integer pixel work on plain RGBA buffers: the mirrored panel texture and
//! the box blur of the number glow.

use vstd::prelude::*;

verus! {

/// An RGBA image, row by row.
pub struct Raster {
    pub width: u32,
    pub height: u32,
    pub pixels: Vec<[u8; 4]>,
}

impl Raster {
    /// One pixel per position.
    pub open spec fn wf(&self) -> bool {
        self.pixels@.len() == self.width * self.height
    }

    /// The pixel at column `x` of row `y`.
    pub open spec fn at(&self, x: int, y: int) -> [u8; 4] {
        self.pixels@[y * self.width + x]
    }
}

pub proof fn lemma_index_in_bounds(w: int, h: int, x: int, y: int)
    requires
        0 <= x < w,
        0 <= y < h,
    ensures
        0 <= y * w + x < w * h,
        y * w + x < h * w,
        y * w + x + 1 <= w * h,
{
    assert(w * h == h * w) by (nonlinear_arith);
    assert(y * w + x < (y + 1) * w) by (nonlinear_arith)
        requires
            0 <= x < w,
    ;
    assert((y + 1) * w <= h * w) by (nonlinear_arith)
        requires
            y + 1 <= h,
            0 <= w,
    ;
    assert(0 <= y * w) by (nonlinear_arith)
        requires
            0 <= y,
            0 <= w,
    ;
}

/// The source row of row `y` when the top half is mirrored onto the bottom.
pub open spec fn mirror_row(y: int, h: int) -> int {
    if y < h / 2 {
        y
    } else {
        h - 1 - y
    }
}

/// The texture with its top half mirrored onto the bottom half. The panel
/// texture is symmetric but for the divider above the signature row, which
/// has no mirror image: the flipped copy carries no divider.
pub fn flipped_top_half(img: &Raster) -> (out: Raster)
    requires
        img.wf(),
    ensures
        out.wf(),
        out.width == img.width,
        out.height == img.height,
        forall|x: int, y: int|
            0 <= x < img.width && 0 <= y < img.height ==> #[trigger] out.at(x, y) == img.at(
                x,
                mirror_row(y, img.height as int),
            ),
{
    let w = img.width;
    let h = img.height;
    let mut pixels: Vec<[u8; 4]> = Vec::new();
    let mut y: u32 = 0;
    while y < h
        invariant
            img.wf(),
            w == img.width,
            h == img.height,
            y <= h,
            pixels@.len() == y * w,
            forall|x: int, yy: int|
                0 <= x < w && 0 <= yy < y ==> #[trigger] pixels@[yy * w + x] == img.at(
                    x,
                    mirror_row(yy, h as int),
                ),
        decreases h - y,
    {
        let src_y = if y < h / 2 {
            y
        } else {
            h - 1 - y
        };
        let mut x: u32 = 0;
        while x < w
            invariant
                img.wf(),
                w == img.width,
                h == img.height,
                y < h,
                src_y as int == mirror_row(y as int, h as int),
                x <= w,
                pixels@.len() == y * w + x,
                forall|xx: int, yy: int|
                    0 <= xx < w && 0 <= yy < y ==> #[trigger] pixels@[yy * w + xx] == img.at(
                        xx,
                        mirror_row(yy, h as int),
                    ),
                forall|xx: int| 0 <= xx < x ==> #[trigger] pixels@[y * w + xx] == img.at(xx, src_y as int),
            decreases w - x,
        {
            proof {
                lemma_index_in_bounds(w as int, h as int, x as int, src_y as int);
                lemma_index_in_bounds(w as int, h as int, x as int, y as int);
            }
            let total = img.pixels.len();
            assert(src_y < h);
            assert((src_y as int) * (w as int) + (x as int) < total);
            let idx = (src_y as usize) * (w as usize) + (x as usize);
            let p = img.pixels[idx];
            let ghost before = pixels@;
            pixels.push(p);
            assert forall|xx: int, yy: int|
                0 <= xx < w && 0 <= yy < y implies #[trigger] pixels@[yy * w + xx] == img.at(
                xx,
                mirror_row(yy, h as int),
            ) by {
                lemma_index_in_bounds(w as int, y as int, xx, yy);
                assert(pixels@[yy * w + xx] == before[yy * w + xx]);
            }
            x += 1;
        }
        assert(pixels@.len() == (y + 1) * w) by (nonlinear_arith)
            requires
                pixels@.len() == y * w + w,
        ;
        assert forall|xx: int, yy: int|
            0 <= xx < w && 0 <= yy < y + 1 implies #[trigger] pixels@[yy * w + xx] == img.at(
            xx,
            mirror_row(yy, h as int),
        ) by {
            if yy < y {
            } else {
                assert(pixels@[y * w + xx] == img.at(xx, src_y as int));
            }
        }
        y += 1;
    }
    assert(pixels@.len() == w * h) by (nonlinear_arith)
        requires
            pixels@.len() == h * w,
    ;
    Raster { width: w, height: h, pixels }
}


/// The alpha of the pixel at `(x, y)`.
pub open spec fn alpha(img: &Raster, x: int, y: int) -> int {
    img.at(x, y)@[3] as int
}

/// Alpha summed over row `y`, columns `x0..x1`.
pub open spec fn row_sum(img: &Raster, y: int, x0: int, x1: int) -> int
    decreases x1 - x0,
{
    if x1 <= x0 {
        0
    } else {
        row_sum(img, y, x0, x1 - 1) + alpha(img, x1 - 1, y)
    }
}

/// Alpha summed over rows `y0..y1`, columns `x0..x1`.
pub open spec fn rect_sum(img: &Raster, y0: int, y1: int, x0: int, x1: int) -> int
    decreases y1 - y0,
{
    if y1 <= y0 {
        0
    } else {
        rect_sum(img, y0, y1 - 1, x0, x1) + row_sum(img, y1 - 1, x0, x1)
    }
}

/// The first index of the window of radius `r` around `v`.
pub open spec fn window_lo(v: int, r: int) -> int {
    if v - r < 0 {
        0
    } else {
        v - r
    }
}

/// One past the last index of the window of radius `r` around `v`, for `n` indices.
pub open spec fn window_hi(v: int, r: int, n: int) -> int {
    if v + r + 1 > n {
        n
    } else {
        v + r + 1
    }
}

/// The blurred alpha at `(x, y)`: the mean alpha of the window of radius `r`
/// that lies inside the image.
pub open spec fn blurred_alpha(img: &Raster, x: int, y: int, r: int) -> int {
    let x0 = window_lo(x, r);
    let x1 = window_hi(x, r, img.width as int);
    let y0 = window_lo(y, r);
    let y1 = window_hi(y, r, img.height as int);
    rect_sum(img, y0, y1, x0, x1) / ((x1 - x0) * (y1 - y0))
}

proof fn lemma_row_sum_bound(img: &Raster, y: int, x0: int, x1: int)
    requires
        img.wf(),
        0 <= y < img.height,
        0 <= x0 <= x1 <= img.width,
    ensures
        0 <= row_sum(img, y, x0, x1) <= 255 * (x1 - x0),
    decreases x1 - x0,
{
    if x1 > x0 {
        lemma_row_sum_bound(img, y, x0, x1 - 1);
    }
}

proof fn lemma_rect_sum_bound(img: &Raster, y0: int, y1: int, x0: int, x1: int)
    requires
        img.wf(),
        0 <= y0 <= y1 <= img.height,
        0 <= x0 <= x1 <= img.width,
    ensures
        0 <= rect_sum(img, y0, y1, x0, x1) <= 255 * ((x1 - x0) * (y1 - y0)),
    decreases y1 - y0,
{
    if y1 > y0 {
        lemma_rect_sum_bound(img, y0, y1 - 1, x0, x1);
        lemma_row_sum_bound(img, y1 - 1, x0, x1);
        assert((x1 - x0) * (y1 - y0) == (x1 - x0) * (y1 - 1 - y0) + (x1 - x0)) by (nonlinear_arith);
    }
}

/// The mean alpha of the window of radius `radius` around `(x, y)`.
fn window_mean(img: &Raster, x: u32, y: u32, radius: u32) -> (a: u8)
    requires
        img.wf(),
        x < img.width,
        y < img.height,
        img.pixels@.len() * 255 <= u64::MAX,
    ensures
        a as int == blurred_alpha(img, x as int, y as int, radius as int),
{
    let w = img.width;
    let h = img.height;
    let x0: u32 = if x < radius {
        0
    } else {
        x - radius
    };
    let y0: u32 = if y < radius {
        0
    } else {
        y - radius
    };
    let x1: u32 = if (x as u64) + (radius as u64) + 1 > (w as u64) {
        w
    } else {
        x + radius + 1
    };
    let y1: u32 = if (y as u64) + (radius as u64) + 1 > (h as u64) {
        h
    } else {
        y + radius + 1
    };
    let mut sum: u64 = 0;
    let mut n: u64 = 0;
    let mut py = y0;
    proof {
        lemma_rect_sum_bound(img, y0 as int, y1 as int, x0 as int, x1 as int);
        assert((x1 - x0) * (y1 - y0) <= w * h) by (nonlinear_arith)
            requires
                0 <= x1 - x0 <= w,
                0 <= y1 - y0 <= h,
        ;
    }
    while py < y1
        invariant
            img.wf(),
            w == img.width,
            h == img.height,
            img.pixels@.len() * 255 <= u64::MAX,
            x0 <= x < x1 <= w,
            y0 <= py <= y1 <= h,
            y0 <= y < y1,
            sum as int == rect_sum(img, y0 as int, py as int, x0 as int, x1 as int),
            n as int == (x1 - x0) * (py - y0),
        decreases y1 - py,
    {
        let mut px = x0;
        proof {
            lemma_rect_sum_bound(img, y0 as int, py as int, x0 as int, x1 as int);
            assert((x1 - x0) * (py - y0) + (x1 - x0) <= w * h) by (nonlinear_arith)
                requires
                    0 <= x1 - x0 <= w,
                    0 <= py - y0,
                    py - y0 + 1 <= h,
            ;
        }
        while px < x1
            invariant
                img.wf(),
                w == img.width,
                h == img.height,
                img.pixels@.len() * 255 <= u64::MAX,
                x0 <= px <= x1 <= w,
                y0 <= py < y1 <= h,
                sum as int == rect_sum(img, y0 as int, py as int, x0 as int, x1 as int) + row_sum(
                    img,
                    py as int,
                    x0 as int,
                    px as int,
                ),
                n as int == (x1 - x0) * (py - y0) + (px - x0),
                rect_sum(img, y0 as int, py as int, x0 as int, x1 as int) <= 255 * ((x1 - x0) * (py
                    - y0)),
                (x1 - x0) * (py - y0) + (x1 - x0) <= w * h,
            decreases x1 - px,
        {
            proof {
                lemma_index_in_bounds(w as int, h as int, px as int, py as int);
                lemma_row_sum_bound(img, py as int, x0 as int, px as int);
            }
            let total = img.pixels.len();
            assert((py as int) * (w as int) + (px as int) < total);
            let idx = (py as usize) * (w as usize) + (px as usize);
            let a = img.pixels[idx][3];
            sum = sum + (a as u64);
            n = n + 1;
            px += 1;
        }
        proof {
            assert((x1 - x0) * (py + 1 - y0) == (x1 - x0) * (py - y0) + (x1 - x0)) by (nonlinear_arith);
            assert((x1 - x0) * (py + 1 - y0) <= w * h) by (nonlinear_arith)
                requires
                    0 <= x1 - x0 <= w,
                    0 <= py + 1 - y0 <= h,
            ;
        }
        py += 1;
    }
    proof {
        assert((x1 - x0) * (y1 - y0) > 0) by (nonlinear_arith)
            requires
                x1 - x0 > 0,
                y1 - y0 > 0,
        ;
        assert(sum as int / n as int <= 255) by (nonlinear_arith)
            requires
                0 <= sum <= 255 * n,
                n > 0,
        ;
    }
    (sum / n) as u8
}

/// Blurs the alpha channel with a box of radius `radius` (the window is cut at
/// the image border); the colour becomes white.
pub fn box_blur_alpha(img: &Raster, radius: u32) -> (out: Raster)
    requires
        img.wf(),
        img.pixels@.len() * 255 <= u64::MAX,
    ensures
        out.wf(),
        out.width == img.width,
        out.height == img.height,
        forall|x: int, y: int|
            0 <= x < img.width && 0 <= y < img.height ==> #[trigger] out.at(x, y) == [
                255u8,
                255u8,
                255u8,
                blurred_alpha(img, x, y, radius as int) as u8,
            ],
{
    let w = img.width;
    let h = img.height;
    let mut pixels: Vec<[u8; 4]> = Vec::new();
    let mut y: u32 = 0;
    while y < h
        invariant
            img.wf(),
            img.pixels@.len() * 255 <= u64::MAX,
            w == img.width,
            h == img.height,
            y <= h,
            pixels@.len() == y * w,
            forall|x: int, yy: int|
                0 <= x < w && 0 <= yy < y ==> #[trigger] pixels@[yy * w + x] == [
                    255u8,
                    255u8,
                    255u8,
                    blurred_alpha(img, x, yy, radius as int) as u8,
                ],
        decreases h - y,
    {
        let mut x: u32 = 0;
        while x < w
            invariant
                img.wf(),
                img.pixels@.len() * 255 <= u64::MAX,
                w == img.width,
                h == img.height,
                y < h,
                x <= w,
                pixels@.len() == y * w + x,
                forall|xx: int, yy: int|
                    0 <= xx < w && 0 <= yy < y ==> #[trigger] pixels@[yy * w + xx] == [
                        255u8,
                        255u8,
                        255u8,
                        blurred_alpha(img, xx, yy, radius as int) as u8,
                    ],
                forall|xx: int|
                    0 <= xx < x ==> #[trigger] pixels@[y * w + xx] == [
                        255u8,
                        255u8,
                        255u8,
                        blurred_alpha(img, xx, y as int, radius as int) as u8,
                    ],
            decreases w - x,
        {
            let a = window_mean(img, x, y, radius);
            let ghost before = pixels@;
            pixels.push([255u8, 255u8, 255u8, a]);
            assert forall|xx: int, yy: int|
                0 <= xx < w && 0 <= yy < y implies #[trigger] pixels@[yy * w + xx] == [
                255u8,
                255u8,
                255u8,
                blurred_alpha(img, xx, yy, radius as int) as u8,
            ] by {
                lemma_index_in_bounds(w as int, y as int, xx, yy);
                assert(pixels@[yy * w + xx] == before[yy * w + xx]);
            }
            x += 1;
        }
        assert(pixels@.len() == (y + 1) * w) by (nonlinear_arith)
            requires
                pixels@.len() == y * w + w,
        ;
        y += 1;
    }
    assert(pixels@.len() == w * h) by (nonlinear_arith)
        requires
            pixels@.len() == h * w,
    ;
    Raster { width: w, height: h, pixels }
}


/// The mirrored texture is symmetric already: mirroring it again changes no
/// row, and its last row is its first.
pub proof fn law_mirror_is_idempotent(y: int, h: int)
    requires
        0 <= y < h,
    ensures
        0 <= mirror_row(y, h) < h,
        mirror_row(mirror_row(y, h), h) == mirror_row(y, h),
        mirror_row(h - 1, h) == 0,
{
}

/// The flipped texture is the top half kept as it is with its mirror image
/// below: every row of the top half is unchanged, and row `y` and row
/// `h - 1 - y` are the same everywhere (so the middle row of an odd height
/// comes from the top half too).
pub proof fn law_flip_keeps_top_and_mirrors_it(img: &Raster, out: &Raster, x: int, y: int)
    requires
        img.wf(),
        out.width == img.width,
        out.height == img.height,
        forall|xx: int, yy: int|
            0 <= xx < img.width && 0 <= yy < img.height ==> #[trigger] out.at(xx, yy) == img.at(
                xx,
                mirror_row(yy, img.height as int),
            ),
        0 <= x < img.width,
        0 <= y < img.height,
    ensures
        y < img.height / 2 ==> out.at(x, y) == img.at(x, y),
        out.at(x, y) == out.at(x, img.height - 1 - y),
        out.at(x, y) == img.at(x, if y < img.height / 2 {
            y
        } else {
            img.height - 1 - y
        }),
{
    assert(out.at(x, img.height - 1 - y) == img.at(x, mirror_row(img.height - 1 - y, img.height as int)));
}

proof fn lemma_row_sum_uniform(img: &Raster, y: int, x0: int, x1: int, a: int)
    requires
        img.wf(),
        0 <= y < img.height,
        0 <= x0 <= x1 <= img.width,
        forall|x: int, yy: int|
            0 <= x < img.width && 0 <= yy < img.height ==> #[trigger] alpha(img, x, yy) == a,
    ensures
        row_sum(img, y, x0, x1) == a * (x1 - x0),
    decreases x1 - x0,
{
    if x1 == x0 {
        assert(a * (x1 - x0) == 0) by (nonlinear_arith)
            requires
                x1 == x0,
        ;
    } else {
        lemma_row_sum_uniform(img, y, x0, x1 - 1, a);
        assert(alpha(img, x1 - 1, y) == a);
        assert(a * (x1 - x0) == a * (x1 - 1 - x0) + a) by (nonlinear_arith);
    }
}

proof fn lemma_rect_sum_uniform(img: &Raster, y0: int, y1: int, x0: int, x1: int, a: int)
    requires
        img.wf(),
        0 <= y0 <= y1 <= img.height,
        0 <= x0 <= x1 <= img.width,
        forall|x: int, yy: int|
            0 <= x < img.width && 0 <= yy < img.height ==> #[trigger] alpha(img, x, yy) == a,
    ensures
        rect_sum(img, y0, y1, x0, x1) == a * ((x1 - x0) * (y1 - y0)),
    decreases y1 - y0,
{
    if y1 == y0 {
        assert(a * ((x1 - x0) * (y1 - y0)) == 0) by (nonlinear_arith)
            requires
                y1 == y0,
        ;
    } else {
        lemma_rect_sum_uniform(img, y0, y1 - 1, x0, x1, a);
        lemma_row_sum_uniform(img, y1 - 1, x0, x1, a);
        assert(a * ((x1 - x0) * (y1 - y0)) == a * ((x1 - x0) * (y1 - 1 - y0)) + a * (x1 - x0))
            by (nonlinear_arith);
    }
}

/// Blurring an image of one alpha everywhere keeps that alpha everywhere.
pub proof fn law_blur_keeps_uniform_alpha(img: &Raster, r: int, a: int, x: int, y: int)
    requires
        img.wf(),
        0 <= r,
        0 <= x < img.width,
        0 <= y < img.height,
        forall|xx: int, yy: int|
            0 <= xx < img.width && 0 <= yy < img.height ==> #[trigger] alpha(img, xx, yy) == a,
    ensures
        blurred_alpha(img, x, y, r) == a,
{
    let x0 = window_lo(x, r);
    let x1 = window_hi(x, r, img.width as int);
    let y0 = window_lo(y, r);
    let y1 = window_hi(y, r, img.height as int);
    assert(x0 <= x < x1 <= img.width);
    assert(y0 <= y < y1 <= img.height);
    lemma_rect_sum_uniform(img, y0, y1, x0, x1, a);
    let n = (x1 - x0) * (y1 - y0);
    assert(n > 0) by (nonlinear_arith)
        requires
            n == (x1 - x0) * (y1 - y0),
            x1 - x0 > 0,
            y1 - y0 > 0,
    ;
    assert((a * n) / n == a) by (nonlinear_arith)
        requires
            n > 0,
    ;
}

/// A blur of radius 0 keeps every alpha as it is: the window is the pixel.
pub proof fn law_blur_radius_zero_keeps_alpha(img: &Raster, x: int, y: int)
    requires
        img.wf(),
        0 <= x < img.width,
        0 <= y < img.height,
    ensures
        blurred_alpha(img, x, y, 0) == alpha(img, x, y),
{
    assert(row_sum(img, y, x, x) == 0);
    assert(row_sum(img, y, x, x + 1) == alpha(img, x, y));
    assert(rect_sum(img, y, y, x, x + 1) == 0);
    assert(rect_sum(img, y, y + 1, x, x + 1) == alpha(img, x, y));
    assert(window_lo(x, 0) == x && window_hi(x, 0, img.width as int) == x + 1);
    assert(window_lo(y, 0) == y && window_hi(y, 0, img.height as int) == y + 1);
    assert(((x + 1 - x) * (y + 1 - y)) == 1) by (nonlinear_arith);
    assert(alpha(img, x, y) / 1 == alpha(img, x, y));
}

} // verus!
