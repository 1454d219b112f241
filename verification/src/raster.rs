//! The RGBA raster paired with the life grid: a fixed-size, row-major 2D
//! array of pixels, viewed in specifications as a sequence of rows.

use vstd::prelude::*;
use crate::cells::{lemma_row_major_in_bounds, lemma_row_major_injective, rows_shaped};

verus! {

/// One RGBA pixel: four independent 8-bit channels.
#[derive(Clone, Copy, Debug, PartialEq, Eq, Structural)]
pub struct Pixel {
    pub r: u8,
    pub g: u8,
    pub b: u8,
    pub a: u8,
}

impl Pixel {
    /// The four channels as a plain tuple, for channel-level specifications.
    pub open spec fn rgba(self) -> (u8, u8, u8, u8) {
        (self.r, self.g, self.b, self.a)
    }

    /// A pixel rebuilt from a plain channel tuple.
    pub open spec fn of_rgba(t: (u8, u8, u8, u8)) -> Pixel {
        Pixel { r: t.0, g: t.1, b: t.2, a: t.3 }
    }
}

/// A 2D image of RGBA pixels with fixed dimensions, stored row-major in a
/// flat buffer, always paired 1:1 with a grid of identical dimensions.
#[derive(Debug)]
pub struct Raster {
    pub width: usize,
    pub height: usize,
    pub pixels: Vec<Pixel>,
}

impl View for Raster {
    type V = Seq<Seq<Pixel>>;

    closed spec fn view(&self) -> Seq<Seq<Pixel>> {
        Seq::new(
            self.height as nat,
            |y: int| Seq::new(self.width as nat, |x: int| self.pixels@[y * self.width + x]),
        )
    }
}

impl Raster {
    /// The buffer holds exactly one pixel per coordinate.
    pub closed spec fn wf(&self) -> bool {
        self.pixels@.len() == self.width * self.height
    }

    /// A well-formed raster's area fits in the buffer, hence in a `usize`.
    pub proof fn lemma_area_fits(&self)
        requires
            self.wf(),
        ensures
            self.width * self.height <= usize::MAX,
    {
        broadcast use vstd::std_specs::vec::axiom_spec_len;

        assert(vstd::std_specs::vec::spec_vec_len(&self.pixels) == self.pixels@.len());
    }

    /// The view always has `height` rows of `width` pixels each.
    pub proof fn lemma_shape(&self)
        ensures
            rows_shaped(self@, self.width as int, self.height as int),
    {
    }

    /// A fresh raster with every pixel set to `fill`.
    pub fn filled(width: usize, height: usize, fill: Pixel) -> (r: Raster)
        requires
            width * height <= usize::MAX,
        ensures
            r.wf(),
            r.width == width,
            r.height == height,
            forall|y: int, x: int|
                0 <= y < height && 0 <= x < width ==> #[trigger] r@[y][x] == fill,
    {
        let area: usize = width * height;
        let mut pixels: Vec<Pixel> = Vec::new();
        let mut i: usize = 0;
        while i < area
            invariant
                i <= area,
                pixels@.len() == i,
                forall|j: int| 0 <= j < i ==> pixels@[j] == fill,
            decreases area - i,
        {
            pixels.push(fill);
            i = i + 1;
        }
        let r = Raster { width, height, pixels };
        proof {
            assert forall|y: int, x: int|
                0 <= y < height && 0 <= x < width implies #[trigger] r@[y][x] == fill by {
                lemma_row_major_in_bounds(width as int, height as int, x, y);
            }
        }
        r
    }

    /// A raster assembled from a row-major pixel buffer, when the buffer
    /// length matches the dimensions exactly.
    pub fn from_pixels(width: usize, height: usize, pixels: Vec<Pixel>) -> (r: Option<Raster>)
        ensures
            match r {
                Some(img) => {
                    &&& pixels@.len() == width * height
                    &&& img.wf()
                    &&& img.width == width
                    &&& img.height == height
                    &&& forall|y: int, x: int|
                        0 <= y < height && 0 <= x < width
                            ==> #[trigger] img@[y][x] == pixels@[y * width + x]
                },
                None => pixels@.len() != width * height,
            },
    {
        proof {
            broadcast use vstd::std_specs::vec::axiom_spec_len;

            assert(vstd::std_specs::vec::spec_vec_len(&pixels) == pixels@.len());
        }
        match width.checked_mul(height) {
            Some(area) => {
                if pixels.len() == area {
                    Some(Raster { width, height, pixels })
                } else {
                    None
                }
            },
            None => None,
        }
    }

    /// Read the pixel at column `x`, row `y`.
    pub fn get(&self, x: usize, y: usize) -> (p: Pixel)
        requires
            self.wf(),
            x < self.width,
            y < self.height,
        ensures
            p == self@[y as int][x as int],
    {
        proof {
            self.lemma_area_fits();
            lemma_row_major_in_bounds(self.width as int, self.height as int, x as int, y as int);
        }
        let i: usize = y * self.width + x;
        self.pixels[i]
    }

    /// Overwrite the pixel at column `x`, row `y`.
    pub fn set(&mut self, x: usize, y: usize, p: Pixel)
        requires
            old(self).wf(),
            x < old(self).width,
            y < old(self).height,
        ensures
            final(self).wf(),
            final(self).width == old(self).width,
            final(self).height == old(self).height,
            final(self)@ == old(self)@.update(
                y as int,
                old(self)@[y as int].update(x as int, p),
            ),
    {
        proof {
            self.lemma_area_fits();
            lemma_row_major_in_bounds(self.width as int, self.height as int, x as int, y as int);
        }
        let i: usize = y * self.width + x;
        let ghost prev = *self;
        self.pixels.set(i, p);
        proof {
            let w = self.width as int;
            let h = self.height as int;
            let target = prev@.update(y as int, prev@[y as int].update(x as int, p));
            assert forall|yy: int| 0 <= yy < h implies self@[yy] == target[yy] by {
                assert forall|xx: int| 0 <= xx < w implies self@[yy][xx] == target[yy][xx] by {
                    lemma_row_major_in_bounds(w, h, xx, yy);
                    if yy * w + xx == y as int * w + x as int {
                        lemma_row_major_injective(w, xx, yy, x as int, y as int);
                    }
                }
                assert(self@[yy] =~= target[yy]);
            }
            assert(self@ =~= target);
        }
    }

    /// An independent copy of the raster, pixel for pixel.
    pub fn duplicate(&self) -> (r: Raster)
        requires
            self.wf(),
        ensures
            r.wf(),
            r.width == self.width,
            r.height == self.height,
            r@ == self@,
    {
        let mut pixels: Vec<Pixel> = Vec::new();
        let n: usize = self.pixels.len();
        let mut i: usize = 0;
        while i < n
            invariant
                i <= n,
                n == self.pixels@.len(),
                pixels@ =~= self.pixels@.take(i as int),
            decreases n - i,
        {
            pixels.push(self.pixels[i]);
            i = i + 1;
        }
        let r = Raster { width: self.width, height: self.height, pixels };
        proof {
            assert(r.pixels@ =~= self.pixels@);
            assert forall|yy: int| 0 <= yy < self.height as int implies r@[yy] == self@[yy] by {
                assert(r@[yy] =~= self@[yy]);
            }
            assert(r@ =~= self@);
        }
        r
    }
}


/// The colour of the demo cross at (x, y): red on the two 3-wide bars,
/// opaque black elsewhere.
pub open spec fn cross_pixel(x: int, y: int) -> Pixel {
    if (15 <= x <= 17 && 8 <= y < 24) || (15 <= y <= 17 && 8 <= x < 24) {
        Pixel { r: 255, g: 0, b: 0, a: 255 }
    } else {
        Pixel { r: 0, g: 0, b: 0, a: 255 }
    }
}

/// A fresh raster of the given dimensions with every pixel opaque white.
pub fn make_image(dims: (u32, u32)) -> (img: Raster)
    requires
        dims.0 * dims.1 <= usize::MAX,
    ensures
        img.wf(),
        img.width == dims.0,
        img.height == dims.1,
        forall|y: int, x: int|
            0 <= y < dims.1 && 0 <= x < dims.0 ==> #[trigger] img@[y][x] == (Pixel {
                r: 255,
                g: 255,
                b: 255,
                a: 255,
            }),
{
    let (width, height) = dims;
    Raster::filled(width as usize, height as usize, Pixel { r: 255, g: 255, b: 255, a: 255 })
}

/// A 32 by 32 image with a red cross drawn on a black ground: two
/// 3-pixel-wide bars, one upright and one across, crossing mid-image.
pub fn cross() -> (img: Raster)
    ensures
        img.wf(),
        img.width == 32,
        img.height == 32,
        forall|y: int, x: int|
            0 <= y < 32 && 0 <= x < 32 ==> #[trigger] img@[y][x] == cross_pixel(x, y),
{
    let mut img = Raster::filled(32, 32, Pixel { r: 0, g: 0, b: 0, a: 255 });
    proof {
        img.lemma_shape();
    }
    let mut y: usize = 0;
    while y < 32
        invariant
            img.wf(),
            img.width == 32,
            img.height == 32,
            rows_shaped(img@, 32, 32),
            y <= 32,
            forall|yy: int, xx: int|
                0 <= yy < 32 && 0 <= xx < 32 && yy < y
                    ==> #[trigger] img@[yy][xx] == cross_pixel(xx, yy),
            forall|yy: int, xx: int|
                0 <= yy < 32 && 0 <= xx < 32 && yy >= y ==> #[trigger] img@[yy][xx] == (Pixel {
                    r: 0,
                    g: 0,
                    b: 0,
                    a: 255,
                }),
        decreases 32 - y,
    {
        let mut x: usize = 0;
        while x < 32
            invariant
                img.wf(),
                img.width == 32,
                img.height == 32,
                rows_shaped(img@, 32, 32),
                y < 32,
                x <= 32,
                forall|yy: int, xx: int|
                    0 <= yy < 32 && 0 <= xx < 32 && (yy < y || (yy == y && xx < x))
                        ==> #[trigger] img@[yy][xx] == cross_pixel(xx, yy),
                forall|yy: int, xx: int|
                    0 <= yy < 32 && 0 <= xx < 32 && (yy > y || (yy == y && xx >= x))
                        ==> #[trigger] img@[yy][xx] == (Pixel { r: 0, g: 0, b: 0, a: 255 }),
            decreases 32 - x,
        {
            let upright = 15 <= x && x <= 17 && 8 <= y && y < 24;
            let across = 15 <= y && y <= 17 && 8 <= x && x < 24;
            if upright || across {
                img.set(x, y, Pixel { r: 255, g: 0, b: 0, a: 255 });
            }
            proof {
                assert(img@[y as int][x as int] == cross_pixel(x as int, y as int));
            }
            x = x + 1;
        }
        y = y + 1;
    }
    img
}


} // verus!
