//! Frame post-processing: flat background compositing, luminance
//! splitting of a raster, pixelation, and small raster utilities.

use vstd::prelude::*;
use crate::cells::rows_shaped;
use crate::conway::{bucket_of, LifeError};
use crate::modes::{BackgroundColour, Mode};
use crate::pixelops::{bilevel_index, bilevel_lookup, blend_of, blend_px, luma_px};
use crate::raster::{Pixel, Raster};
use vstd::arithmetic::div_mod::{
    lemma_div_by_self, lemma_div_is_ordered, lemma_div_is_ordered_by_denominator,
    lemma_div_multiples_vanish, lemma_fundamental_div_mod, lemma_mod_bound,
};
use vstd::arithmetic::mul::{lemma_mul_inequality, lemma_mul_upper_bound};

verus! {

/// The colour channels of a background choice.
pub open spec fn bg_rgb(colour: BackgroundColour) -> (u8, u8, u8) {
    match colour {
        BackgroundColour::Black => (0u8, 0u8, 0u8),
        BackgroundColour::White => (255u8, 255u8, 255u8),
        BackgroundColour::Custom(t) => t,
    }
}

/// A frame pixel with the flat background composited behind it: the
/// background colour, carrying the complement of the pixel's alpha, is
/// blended over the pixel.
pub open spec fn composited_pixel(p: Pixel, colour: BackgroundColour) -> Pixel {
    let c = bg_rgb(colour);
    Pixel::of_rgba(blend_of(p.rgba(), (c.0, c.1, c.2, (255 - p.a) as u8)))
}

/// A whole frame with the flat background composited behind it.
pub open spec fn bg_map(rv: Seq<Seq<Pixel>>, colour: BackgroundColour) -> Seq<Seq<Pixel>> {
    Seq::new(rv.len(), |y: int| Seq::new(rv[y].len(), |x: int| composited_pixel(rv[y][x], colour)))
}

/// Composite the flat background colour behind every pixel of the frame.
pub fn create_background(foreground: Raster, colour: &BackgroundColour) -> (out: Raster)
    requires
        foreground.wf(),
    ensures
        out.wf(),
        out.width == foreground.width,
        out.height == foreground.height,
        out@ == bg_map(foreground@, *colour),
{
    let (br, bgr, bb): (u8, u8, u8) = match *colour {
        BackgroundColour::Black => (0, 0, 0),
        BackgroundColour::White => (255, 255, 255),
        BackgroundColour::Custom((r, g, b)) => (r, g, b),
    };
    let w = foreground.width;
    let h = foreground.height;
    proof {
        foreground.lemma_shape();
    }
    let ghost rv = foreground@;
    let ghost col = *colour;
    let mut composite = foreground;
    let mut y: usize = 0;
    while y < h
        invariant
            composite.wf(),
            composite.width == w,
            composite.height == h,
            rows_shaped(rv, w as int, h as int),
            rows_shaped(composite@, w as int, h as int),
            (br, bgr, bb) == bg_rgb(col),
            y <= h,
            forall|yy: int, xx: int|
                0 <= yy < h && 0 <= xx < w && yy < y
                    ==> #[trigger] composite@[yy][xx] == composited_pixel(rv[yy][xx], col),
            forall|yy: int, xx: int|
                0 <= yy < h && 0 <= xx < w && yy >= y
                    ==> #[trigger] composite@[yy][xx] == rv[yy][xx],
        decreases h - y,
    {
        let mut x: usize = 0;
        while x < w
            invariant
                composite.wf(),
                composite.width == w,
                composite.height == h,
                rows_shaped(rv, w as int, h as int),
                rows_shaped(composite@, w as int, h as int),
                (br, bgr, bb) == bg_rgb(col),
                y < h,
                x <= w,
                forall|yy: int, xx: int|
                    0 <= yy < h && 0 <= xx < w && (yy < y || (yy == y && xx < x))
                        ==> #[trigger] composite@[yy][xx] == composited_pixel(rv[yy][xx], col),
                forall|yy: int, xx: int|
                    0 <= yy < h && 0 <= xx < w && (yy > y || (yy == y && xx >= x))
                        ==> #[trigger] composite@[yy][xx] == rv[yy][xx],
            decreases w - x,
        {
            let p = composite.get(x, y);
            let blended = blend_px(p, Pixel { r: br, g: bgr, b: bb, a: 255 - p.a });
            composite.set(x, y, blended);
            proof {
                assert(composite@[y as int][x as int] == composited_pixel(
                    rv[y as int][x as int],
                    col,
                ));
            }
            x = x + 1;
        }
        y = y + 1;
    }
    proof {
        assert forall|yy: int| 0 <= yy < h implies composite@[yy] == bg_map(rv, col)[yy] by {
            assert(composite@[yy] =~= bg_map(rv, col)[yy]);
        }
        assert(composite@ =~= bg_map(rv, col));
    }
    composite
}

/// Composite the same flat background behind every frame of a slide
/// sequence, keeping the order.
pub fn background_for_slides(slides: Vec<Raster>, colour: BackgroundColour) -> (out: Vec<Raster>)
    requires
        forall|i: int| 0 <= i < slides@.len() ==> (#[trigger] slides@[i]).wf(),
    ensures
        out@.len() == slides@.len(),
        forall|i: int|
            0 <= i < out@.len() ==> {
                let o = #[trigger] out@[i];
                &&& o.wf()
                &&& o.width == slides@[i].width
                &&& o.height == slides@[i].height
                &&& o@ == bg_map(slides@[i]@, colour)
            },
{
    let mut blended: Vec<Raster> = Vec::new();
    let n: usize = slides.len();
    let mut i: usize = 0;
    while i < n
        invariant
            forall|j: int| 0 <= j < slides@.len() ==> (#[trigger] slides@[j]).wf(),
            n == slides@.len(),
            i <= n,
            blended@.len() == i,
            forall|j: int|
                0 <= j < i ==> {
                    let o = #[trigger] blended@[j];
                    &&& o.wf()
                    &&& o.width == slides@[j].width
                    &&& o.height == slides@[j].height
                    &&& o@ == bg_map(slides@[j]@, colour)
                },
        decreases n - i,
    {
        let s = slides[i].duplicate();
        let new_img = create_background(s, &colour);
        blended.push(new_img);
        i = i + 1;
    }
    blended
}

/// What a pixel becomes when a raster is split by luminance: in Light
/// mode the dark bucket turns white and the light bucket keeps its
/// colour, in Dark mode the reverse; Random mode maps the buckets to the
/// bi-level grey palette.
pub open spec fn whitespace_pixel(p: Pixel, mode: Mode) -> Pixel {
    match mode {
        Mode::Light => {
            if bucket_of(p) == 0 {
                Pixel { r: 255, g: 255, b: 255, a: 255 }
            } else {
                Pixel { r: p.r, g: p.g, b: p.b, a: 255 }
            }
        },
        Mode::Dark => {
            if bucket_of(p) == 0 {
                Pixel { r: p.r, g: p.g, b: p.b, a: 255 }
            } else {
                Pixel { r: 255, g: 255, b: 255, a: 255 }
            }
        },
        Mode::Random => {
            if bucket_of(p) == 0 {
                Pixel { r: 0, g: 0, b: 0, a: 255 }
            } else {
                Pixel { r: 255, g: 255, b: 255, a: 255 }
            }
        },
    }
}

/// A whole raster split by luminance.
pub open spec fn whitespace_map(rv: Seq<Seq<Pixel>>, mode: Mode) -> Seq<Seq<Pixel>> {
    Seq::new(rv.len(), |y: int| Seq::new(rv[y].len(), |x: int| whitespace_pixel(rv[y][x], mode)))
}

/// Split the raster into its two bi-level luminance buckets and map the
/// uninteresting bucket onto whitespace: Light keeps the light pixels'
/// colours on white, Dark keeps the dark pixels' colours, and any other
/// mode renders the plain bi-level image. A bucket outside the palette
/// would be a contract violation.
pub fn map_onto_whitespace(img: &Raster, mode: &Mode) -> (result: Result<Raster, LifeError>)
    requires
        img.wf(),
    ensures
        match result {
            Ok(out) => {
                &&& out.wf()
                &&& out.width == img.width
                &&& out.height == img.height
                &&& out@ == whitespace_map(img@, *mode)
            },
            Err(e) => false,
        },
{
    let w = img.width;
    let h = img.height;
    proof {
        img.lemma_area_fits();
        img.lemma_shape();
    }
    let ghost rv = img@;
    let ghost m = *mode;
    let mut out = Raster::filled(w, h, Pixel { r: 255, g: 255, b: 255, a: 255 });
    proof {
        out.lemma_shape();
    }
    let mut y: usize = 0;
    while y < h
        invariant
            img.wf(),
            img.width == w,
            img.height == h,
            rv == img@,
            m == *mode,
            out.wf(),
            out.width == w,
            out.height == h,
            rows_shaped(rv, w as int, h as int),
            rows_shaped(out@, w as int, h as int),
            y <= h,
            forall|yy: int, xx: int|
                0 <= yy < h && 0 <= xx < w && yy < y
                    ==> #[trigger] out@[yy][xx] == whitespace_pixel(rv[yy][xx], m),
        decreases h - y,
    {
        let mut x: usize = 0;
        while x < w
            invariant
                img.wf(),
                img.width == w,
                img.height == h,
                rv == img@,
                m == *mode,
                out.wf(),
                out.width == w,
                out.height == h,
                rows_shaped(rv, w as int, h as int),
                rows_shaped(out@, w as int, h as int),
                y < h,
                x <= w,
                forall|yy: int, xx: int|
                    0 <= yy < h && 0 <= xx < w && (yy < y || (yy == y && xx < x))
                        ==> #[trigger] out@[yy][xx] == whitespace_pixel(rv[yy][xx], m),
            decreases w - x,
        {
            let p = img.get(x, y);
            let l = luma_px(p);
            let idx = bilevel_index(l);
            let px: Pixel = match mode {
                Mode::Light => {
                    if idx == 0 {
                        Pixel { r: 255, g: 255, b: 255, a: 255 }
                    } else {
                        Pixel { r: p.r, g: p.g, b: p.b, a: 255 }
                    }
                },
                Mode::Dark => {
                    if idx == 0 {
                        Pixel { r: p.r, g: p.g, b: p.b, a: 255 }
                    } else {
                        Pixel { r: 255, g: 255, b: 255, a: 255 }
                    }
                },
                Mode::Random => {
                    match bilevel_lookup(idx) {
                        Some(g) => Pixel { r: g, g: g, b: g, a: 255 },
                        None => {
                            return Err(LifeError::InvalidBucket);
                        },
                    }
                },
            };
            out.set(x, y, px);
            proof {
                assert(out@[y as int][x as int] == whitespace_pixel(rv[y as int][x as int], m));
            }
            x = x + 1;
        }
        y = y + 1;
    }
    proof {
        assert forall|yy: int| 0 <= yy < h implies out@[yy] == whitespace_map(rv, m)[yy] by {
            assert(out@[yy] =~= whitespace_map(rv, m)[yy]);
        }
        assert(out@ =~= whitespace_map(rv, m));
    }
    Ok(out)
}

/// The dimension pairs that evenly squash an image: one entry for each
/// factor `x` of both sides, ascending from 2, holding `(width/x,
/// height/x)`.
pub open spec fn fit_pairs(width: u32, height: u32, x: int) -> Seq<(u32, u32)>
    decreases width - x,
{
    if x >= width {
        Seq::empty()
    } else {
        (if width as int % x == 0 && height as int % x == 0 {
            seq![((width as int / x) as u32, (height as int / x) as u32)]
        } else {
            Seq::empty()
        }) + fit_pairs(width, height, x + 1)
    }
}

/// Find whether the image splits evenly into square blocks: every common
/// factor of the two sides from 2 upwards yields a candidate dimension
/// pair, and no common factor means the image would need cropping.
pub fn fit(width: u32, height: u32) -> (result: Option<Vec<(u32, u32)>>)
    ensures
        match result {
            Some(cm) => cm@ == fit_pairs(width, height, 2) && cm@.len() > 0,
            None => fit_pairs(width, height, 2).len() == 0,
        },
{
    let mut cm: Vec<(u32, u32)> = Vec::new();
    let mut x: u32 = 2;
    while x < width
        invariant
            2 <= x,
            width >= 2 ==> x <= width,
            cm@ + fit_pairs(width, height, x as int) =~= fit_pairs(width, height, 2),
        decreases width - x,
    {
        if width % x == 0 && height % x == 0 {
            cm.push((width / x, height / x));
        }
        proof {
            assert(cm@ + fit_pairs(width, height, x + 1) =~= fit_pairs(width, height, 2));
        }
        x = x + 1;
    }
    proof {
        assert(fit_pairs(width, height, x as int).len() == 0);
        assert(cm@ =~= fit_pairs(width, height, 2));
    }
    if cm.is_empty() {
        None
    } else {
        Some(cm)
    }
}


/// Channel sums (r, g, b, a) of `n` consecutive pixels of row `y`
/// starting at column `x0`.
pub open spec fn row_sums(rv: Seq<Seq<Pixel>>, y: int, x0: int, n: int) -> (int, int, int, int)
    decreases n,
{
    if n <= 0 {
        (0, 0, 0, 0)
    } else {
        let s = row_sums(rv, y, x0, n - 1);
        let p = rv[y][x0 + n - 1];
        (s.0 + p.r, s.1 + p.g, s.2 + p.b, s.3 + p.a)
    }
}

/// Channel sums of a block `side` wide and `rows` tall with its upper
/// left corner at (x0, y0).
pub open spec fn block_sums(
    rv: Seq<Seq<Pixel>>,
    x0: int,
    y0: int,
    side: int,
    rows: int,
) -> (int, int, int, int)
    decreases rows,
{
    if rows <= 0 {
        (0, 0, 0, 0)
    } else {
        let s = block_sums(rv, x0, y0, side, rows - 1);
        let r = row_sums(rv, y0 + rows - 1, x0, side);
        (s.0 + r.0, s.1 + r.1, s.2 + r.2, s.3 + r.3)
    }
}

/// Row sums stay between 0 and 255 per pixel.
proof fn lemma_row_sums_bounds(rv: Seq<Seq<Pixel>>, y: int, x0: int, n: int)
    requires
        n >= 0,
    ensures
        ({
            let s = row_sums(rv, y, x0, n);
            0 <= s.0 <= 255 * n && 0 <= s.1 <= 255 * n && 0 <= s.2 <= 255 * n && 0 <= s.3 <= 255
                * n
        }),
    decreases n,
{
    if n > 0 {
        lemma_row_sums_bounds(rv, y, x0, n - 1);
    }
}

/// Block sums stay between 0 and 255 per pixel of the block.
proof fn lemma_block_sums_bounds(rv: Seq<Seq<Pixel>>, x0: int, y0: int, side: int, rows: int)
    requires
        side >= 0,
        rows >= 0,
    ensures
        ({
            let s = block_sums(rv, x0, y0, side, rows);
            0 <= s.0 <= 255 * side * rows && 0 <= s.1 <= 255 * side * rows && 0 <= s.2 <= 255
                * side * rows && 0 <= s.3 <= 255 * side * rows
        }),
    decreases rows,
{
    if rows > 0 {
        lemma_block_sums_bounds(rv, x0, y0, side, rows - 1);
        lemma_row_sums_bounds(rv, y0 + rows - 1, x0, side);
        assert(255 * side * (rows - 1) + 255 * side == 255 * side * rows) by (nonlinear_arith);
    }
}

/// The channel-wise average pixel of the `side` by `side` block with
/// its upper left corner at (x0, y0).
pub open spec fn average_pixel(rv: Seq<Seq<Pixel>>, x0: int, y0: int, side: int) -> Pixel {
    let s = block_sums(rv, x0, y0, side, side);
    let area = side * side;
    Pixel {
        r: (s.0 / area) as u8,
        g: (s.1 / area) as u8,
        b: (s.2 / area) as u8,
        a: (s.3 / area) as u8,
    }
}

/// The pixelated image: output pixel (x, y) is the average of the
/// source block whose corner sits at (x*side, y*side).
pub open spec fn pixelated(rv: Seq<Seq<Pixel>>, ow: int, oh: int, side: int) -> Seq<Seq<Pixel>> {
    Seq::new(
        oh as nat,
        |y: int| Seq::new(ow as nat, |x: int| average_pixel(rv, x * side, y * side, side)),
    )
}

/// One more pixel of a partly summed block still fits inside the whole
/// block's capacity.
proof fn lemma_partial_block_bound(si: int, dyi: int, dxi: int)
    by (nonlinear_arith)
    requires
        0 <= dyi < si,
        0 <= dxi < si,
    ensures
        255 * si * dyi + 255 * dxi + 255 <= 255 * si * si,
{
}

/// The channel-wise average pixel of one square block of the image.
fn block_average(img: &Raster, x0: usize, y0: usize, side: usize) -> (p: Pixel)
    requires
        img.wf(),
        side >= 1,
        x0 + side <= img.width,
        y0 + side <= img.height,
        255 * side * side <= u32::MAX,
    ensures
        p == average_pixel(img@, x0 as int, y0 as int, side as int),
{
    proof {
        img.lemma_shape();
        lemma_mul_inequality(1, side as int, side as int);
    }
    let ghost rv = img@;
    let ghost si = side as int;
    let mut rt: u32 = 0;
    let mut gt: u32 = 0;
    let mut bt: u32 = 0;
    let mut at: u32 = 0;
    let mut dy: usize = 0;
    while dy < side
        invariant
            img.wf(),
            rv == img@,
            si == side as int,
            side >= 1,
            x0 + side <= img.width,
            y0 + side <= img.height,
            255 * si * si <= u32::MAX,
            rows_shaped(rv, img.width as int, img.height as int),
            dy <= side,
            (rt as int, gt as int, bt as int, at as int) == block_sums(
                rv,
                x0 as int,
                y0 as int,
                si,
                dy as int,
            ),
        decreases side - dy,
    {
        let mut dx: usize = 0;
        while dx < side
            invariant
                img.wf(),
                rv == img@,
                si == side as int,
                side >= 1,
                x0 + side <= img.width,
                y0 + side <= img.height,
                255 * si * si <= u32::MAX,
                rows_shaped(rv, img.width as int, img.height as int),
                dy < side,
                dx <= side,
                ({
                    let b = block_sums(rv, x0 as int, y0 as int, si, dy as int);
                    let r = row_sums(rv, y0 + dy as int, x0 as int, dx as int);
                    (rt as int, gt as int, bt as int, at as int) == (
                        b.0 + r.0,
                        b.1 + r.1,
                        b.2 + r.2,
                        b.3 + r.3,
                    )
                }),
            decreases side - dx,
        {
            proof {
                lemma_block_sums_bounds(rv, x0 as int, y0 as int, si, dy as int);
                lemma_row_sums_bounds(rv, y0 + dy as int, x0 as int, dx as int);
                lemma_partial_block_bound(si, dy as int, dx as int);
            }
            let p = img.get(x0 + dx, y0 + dy);
            rt = rt + p.r as u32;
            gt = gt + p.g as u32;
            bt = bt + p.b as u32;
            at = at + p.a as u32;
            dx = dx + 1;
            proof {
                assert(rv[y0 + dy as int][x0 + dx as int - 1] == p);
            }
        }
        dy = dy + 1;
        proof {
            assert(block_sums(rv, x0 as int, y0 as int, si, dy as int) == ({
                let b = block_sums(rv, x0 as int, y0 as int, si, dy as int - 1);
                let r = row_sums(rv, y0 + dy as int - 1, x0 as int, si);
                (b.0 + r.0, b.1 + r.1, b.2 + r.2, b.3 + r.3)
            }));
        }
    }
    proof {
        assert(255 * si * si == 255 * (si * si)) by (nonlinear_arith);
        assert(si * si >= 0) by (nonlinear_arith);
    }
    let area: u32 = (side * side) as u32;
    proof {
        let a = si * si;
        lemma_block_sums_bounds(rv, x0 as int, y0 as int, si, si);
        lemma_div_multiples_vanish(255, a);
        assert((a * 255) / a == 255);
        assert(255 * si * si == (si * si) * 255) by (nonlinear_arith);
        lemma_div_is_ordered(rt as int, 255 * si * si, a);
        lemma_div_is_ordered(gt as int, 255 * si * si, a);
        lemma_div_is_ordered(bt as int, 255 * si * si, a);
        lemma_div_is_ordered(at as int, 255 * si * si, a);
        lemma_div_is_ordered(0, rt as int, a);
        lemma_div_is_ordered(0, gt as int, a);
        lemma_div_is_ordered(0, bt as int, a);
        lemma_div_is_ordered(0, at as int, a);
    }
    Pixel { r: (rt / area) as u8, g: (gt / area) as u8, b: (bt / area) as u8, a: (at / area) as u8 }
}

/// Pixelate the image: cut it into square blocks of side
/// `width / output_width` and paint each block's channel-wise average
/// colour as one pixel of the scaled-down output.
pub fn pixelate(img: Raster, output_width: usize) -> (out: Raster)
    requires
        img.wf(),
        1 <= output_width <= img.width,
        255 * (img.width as int / output_width as int) * (img.width as int / output_width as int)
            <= u32::MAX,
    ensures
        ({
            let side = img.width as int / output_width as int;
            let oh = img.height as int / side;
            &&& out.wf()
            &&& out.width == output_width
            &&& out.height == oh
            &&& out@ == pixelated(img@, output_width as int, oh, side)
        }),
{
    let w = img.width;
    let h = img.height;
    proof {
        img.lemma_area_fits();
        img.lemma_shape();
        lemma_div_by_self(output_width as int);
        lemma_div_is_ordered(output_width as int, w as int, output_width as int);
    }
    let sub_image_width: usize = w / output_width;
    let output_height: usize = h / sub_image_width;
    proof {
        lemma_div_is_ordered_by_denominator(h as int, 1, sub_image_width as int);
        lemma_div_is_ordered_by_denominator(w as int, 1, output_width as int);
        lemma_mul_upper_bound(
            output_width as int,
            w as int,
            output_height as int,
            h as int,
        );
    }
    let ghost rv = img@;
    let ghost si = sub_image_width as int;
    let ghost ow = output_width as int;
    let ghost oh = output_height as int;
    let mut out = Raster::filled(output_width, output_height, Pixel { r: 0, g: 0, b: 0, a: 0 });
    proof {
        out.lemma_shape();
    }
    let mut y: usize = 0;
    while y < output_height
        invariant
            img.wf(),
            img.width == w,
            img.height == h,
            rv == img@,
            si == w as int / ow,
            ow == output_width as int,
            oh == output_height as int,
            oh == h as int / si,
            1 <= output_width <= w,
            sub_image_width >= 1,
            si == sub_image_width as int,
            255 * si * si <= u32::MAX,
            out.wf(),
            out.width == output_width,
            out.height == output_height,
            rows_shaped(out@, ow, oh),
            y <= output_height,
            forall|yy: int, xx: int|
                0 <= yy < oh && 0 <= xx < ow && yy < y
                    ==> #[trigger] out@[yy][xx] == average_pixel(rv, xx * si, yy * si, si),
        decreases output_height - y,
    {
        let mut x: usize = 0;
        while x < output_width
            invariant
                img.wf(),
                img.width == w,
                img.height == h,
                rv == img@,
                si == w as int / ow,
                ow == output_width as int,
                oh == output_height as int,
                oh == h as int / si,
                1 <= output_width <= w,
                sub_image_width >= 1,
                si == sub_image_width as int,
                255 * si * si <= u32::MAX,
                out.wf(),
                out.width == output_width,
                out.height == output_height,
                rows_shaped(out@, ow, oh),
                y < output_height,
                x <= output_width,
                forall|yy: int, xx: int|
                    0 <= yy < oh && 0 <= xx < ow && (yy < y || (yy == y && xx < x))
                        ==> #[trigger] out@[yy][xx] == average_pixel(rv, xx * si, yy * si, si),
            decreases output_width - x,
        {
            proof {
                lemma_mul_inequality(x as int + 1, ow, si);
                lemma_mul_inequality(y as int + 1, oh, si);
                lemma_fundamental_div_mod(w as int, ow);
                lemma_mod_bound(w as int, ow);
                assert(ow * si <= w as int);
                lemma_fundamental_div_mod(h as int, si);
                lemma_mod_bound(h as int, si);
                assert(oh * si <= h as int);
                assert((x as int + 1) * si == x as int * si + si) by (nonlinear_arith);
                assert((y as int + 1) * si == y as int * si + si) by (nonlinear_arith);
            }
            let x0: usize = x * sub_image_width;
            let y0: usize = y * sub_image_width;
            let avg = block_average(&img, x0, y0, sub_image_width);
            out.set(x, y, avg);
            proof {
                assert(out@[y as int][x as int] == average_pixel(
                    rv,
                    x as int * si,
                    y as int * si,
                    si,
                ));
            }
            x = x + 1;
        }
        y = y + 1;
    }
    proof {
        assert forall|yy: int| 0 <= yy < oh implies out@[yy] == pixelated(rv, ow, oh, si)[yy] by {
            assert(out@[yy] =~= pixelated(rv, ow, oh, si)[yy]);
        }
        assert(out@ =~= pixelated(rv, ow, oh, si));
    }
    out
}

/// The bi-level bucket of one column of a 16-wide horizontal gradient:
/// column `c` carries luminance `255*c/16`, and crosses the 127
/// midpoint exactly above column 8.
pub proof fn lemma_gradient_split(c: int)
    requires
        0 <= c < 16,
    ensures
        (255 * c / 16 > 127) <==> c > 8,
{
    if c >= 9 {
        lemma_div_is_ordered(2295, 255 * c, 16);
        assert(2295int / 16 == 143);
    } else {
        lemma_div_is_ordered(255 * c, 2040, 16);
        assert(2040int / 16 == 127);
    }
}

/// Self-check of the bi-level palette: a 16x16 horizontal gradient from
/// black to white, mapped through the bi-level palette, splits exactly
/// into black columns up to the midpoint and white columns above it.
/// The comparison is proved to succeed, so the check always returns true.
pub fn split() -> (ok: bool)
    ensures
        ok,
{
    let w: u32 = 16;
    let h: u32 = 16;
    let n: u32 = w * h;
    let mut grey: Vec<u8> = Vec::new();
    let mut i: u32 = 0;
    while i < n
        invariant
            w == 16,
            i <= n,
            n == 256,
            grey@.len() == i,
            forall|j: int| 0 <= j < i ==> grey@[j] == 255 * (j % 16) / 16,
        decreases n - i,
    {
        proof {
            let c = (i as int) % 16;
            lemma_div_is_ordered(0, 255 * c, 16);
            lemma_div_is_ordered(255 * c, 3825, 16);
            assert(3825int / 16 == 239);
        }
        grey.push(((255 * (i % w)) / w) as u8);
        i = i + 1;
    }
    let mut mapped: Vec<u8> = Vec::new();
    let mut i2: u32 = 0;
    while i2 < n
        invariant
            w == 16,
            i2 <= n,
            n == 256,
            grey@.len() == 256,
            forall|j: int| 0 <= j < 256 ==> grey@[j] == 255 * (j % 16) / 16,
            mapped@.len() == i2,
            forall|j: int|
                0 <= j < i2 ==> #[trigger] mapped@[j] == (if grey@[j] > 127 {
                    255int
                } else {
                    0int
                }),
        decreases n - i2,
    {
        let g = grey[i2 as usize];
        let idx = bilevel_index(g);
        let px = match bilevel_lookup(idx) {
            Some(v) => v,
            None => 0,
        };
        mapped.push(px);
        i2 = i2 + 1;
    }
    let mut bw: Vec<u8> = Vec::new();
    let mut i3: u32 = 0;
    while i3 < n
        invariant
            w == 16,
            i3 <= n,
            n == 256,
            bw@.len() == i3,
            forall|j: int|
                0 <= j < i3 ==> #[trigger] bw@[j] == (if j % 16 <= 8 {
                    0int
                } else {
                    255int
                }),
        decreases n - i3,
    {
        if i3 % w <= w / 2 {
            bw.push(0);
        } else {
            bw.push(255);
        }
        i3 = i3 + 1;
    }
    let mut same = true;
    let mut i4: u32 = 0;
    while i4 < n
        invariant
            w == 16,
            i4 <= n,
            n == 256,
            mapped@.len() == 256,
            bw@.len() == 256,
            grey@.len() == 256,
            forall|j: int| 0 <= j < 256 ==> grey@[j] == 255 * (j % 16) / 16,
            forall|j: int|
                0 <= j < 256 ==> #[trigger] mapped@[j] == (if grey@[j] > 127 {
                    255int
                } else {
                    0int
                }),
            forall|j: int|
                0 <= j < 256 ==> #[trigger] bw@[j] == (if j % 16 <= 8 {
                    0int
                } else {
                    255int
                }),
            same,
            forall|j: int| 0 <= j < i4 ==> mapped@[j] == bw@[j],
        decreases n - i4,
    {
        proof {
            lemma_gradient_split((i4 as int) % 16);
        }
        if mapped[i4 as usize] != bw[i4 as usize] {
            same = false;
            proof {
                assert(false);
            }
        }
        i4 = i4 + 1;
    }
    same
}


} // verus!
