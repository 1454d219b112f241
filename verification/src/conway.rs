//! The game-of-life engine: Moore-neighbourhood counting and enumeration,
//! the per-generation transition of grid and raster, seeding, and the
//! simulation driver that collects the frame sequence.

use vstd::prelude::*;
use crate::cells::{CellState, Grid, rows_shaped};
use crate::modes::Mode;
use crate::pixelops::{blend_of, blend_px, bilevel_index, luma_of, luma_px};
use crate::raster::{Pixel, Raster};
use rand::Rng;

verus! {

/// An immutable-per-generation pairing of a grid and a raster of
/// identical dimensions; cell (x, y) maps to pixel (x, y).
pub struct Universe {
    pub cells: Grid,
    pub image: Raster,
}

impl Universe {
    /// Both halves are well formed and share the same dimensions.
    pub open spec fn wf(&self) -> bool {
        &&& self.cells.wf()
        &&& self.image.wf()
        &&& self.cells.width == self.image.width
        &&& self.cells.height == self.image.height
    }
}

/// A contract violation the engine reports instead of proceeding.
#[derive(Clone, Copy, Debug, PartialEq, Eq, Structural)]
pub enum LifeError {
    /// The source raster has no pixels at all.
    EmptyRaster,
    /// The seeding mode has no luminance mapping (Random seeds by drawing
    /// coordinates, not by classifying pixels).
    InvalidMode,
    /// A palette bucket other than the two bi-level buckets turned up.
    InvalidBucket,
}

/// 1 for a counted cell, 0 otherwise.
pub open spec fn b2i(b: bool) -> int {
    if b {
        1
    } else {
        0
    }
}

/// The position lies on the grid and holds a live cell; positions outside
/// `[0,width) x [0,height)` never count.
pub open spec fn alive_at(v: Seq<Seq<CellState>>, x: int, y: int) -> bool {
    &&& 0 <= y < v.len()
    &&& 0 <= x < v[y].len()
    &&& v[y][x] is Alive
}

/// How many of the 8 Moore-neighbourhood positions around (x, y) hold a
/// live cell; the centre cell itself is never included.
pub open spec fn neighbor_count(v: Seq<Seq<CellState>>, x: int, y: int) -> int {
    b2i(alive_at(v, x - 1, y - 1)) + b2i(alive_at(v, x, y - 1)) + b2i(alive_at(v, x + 1, y - 1))
        + b2i(alive_at(v, x - 1, y)) + b2i(alive_at(v, x + 1, y)) + b2i(
        alive_at(v, x - 1, y + 1),
    ) + b2i(alive_at(v, x, y + 1)) + b2i(alive_at(v, x + 1, y + 1))
}

/// The singleton coordinate when the position holds a live cell, else
/// nothing.
pub open spec fn coord_if_alive(v: Seq<Seq<CellState>>, x: int, y: int) -> Seq<(usize, usize)> {
    if alive_at(v, x, y) {
        seq![(x as usize, y as usize)]
    } else {
        Seq::empty()
    }
}

/// The coordinates of every live Moore neighbour of (x, y), in row-major
/// scan order (ascending row, then ascending column); the centre cell is
/// not a neighbour of itself.
pub open spec fn neighbor_coords(v: Seq<Seq<CellState>>, x: int, y: int) -> Seq<(usize, usize)> {
    coord_if_alive(v, x - 1, y - 1) + coord_if_alive(v, x, y - 1) + coord_if_alive(v, x + 1, y - 1)
        + coord_if_alive(v, x - 1, y) + coord_if_alive(v, x + 1, y) + coord_if_alive(
        v,
        x - 1,
        y + 1,
    ) + coord_if_alive(v, x, y + 1) + coord_if_alive(v, x + 1, y + 1)
}


/// Every enumerated coordinate lies on a `w` by `h` grid.
pub open spec fn coords_within(s: Seq<(usize, usize)>, w: int, h: int) -> bool {
    forall|i: int| 0 <= i < s.len() ==> (#[trigger] s[i]).0 < w && s[i].1 < h
}

/// The eight Moore-neighbourhood occupancy flags of `coords`, in row-major
/// scan order, edge-clipped.
fn neighbor_flags(coords: (usize, usize), cells: &Grid) -> (f: (
    bool,
    bool,
    bool,
    bool,
    bool,
    bool,
    bool,
    bool,
))
    requires
        cells.wf(),
        coords.0 < cells.width,
        coords.1 < cells.height,
    ensures
        f.0 == alive_at(cells@, coords.0 - 1, coords.1 - 1),
        f.1 == alive_at(cells@, coords.0 as int, coords.1 - 1),
        f.2 == alive_at(cells@, coords.0 + 1, coords.1 - 1),
        f.3 == alive_at(cells@, coords.0 - 1, coords.1 as int),
        f.4 == alive_at(cells@, coords.0 + 1, coords.1 as int),
        f.5 == alive_at(cells@, coords.0 - 1, coords.1 + 1),
        f.6 == alive_at(cells@, coords.0 as int, coords.1 + 1),
        f.7 == alive_at(cells@, coords.0 + 1, coords.1 + 1),
{
    let (col, row) = coords;
    proof {
        cells.lemma_shape();
    }
    let w = cells.width;
    let h = cells.height;
    let nw: bool = row > 0 && col > 0 && cells.get(col - 1, row - 1) == CellState::Alive;
    let nn: bool = row > 0 && cells.get(col, row - 1) == CellState::Alive;
    let ne: bool = row > 0 && col + 1 < w && cells.get(col + 1, row - 1) == CellState::Alive;
    let ww: bool = col > 0 && cells.get(col - 1, row) == CellState::Alive;
    let ee: bool = col + 1 < w && cells.get(col + 1, row) == CellState::Alive;
    let sw: bool = row + 1 < h && col > 0 && cells.get(col - 1, row + 1) == CellState::Alive;
    let ss: bool = row + 1 < h && cells.get(col, row + 1) == CellState::Alive;
    let se: bool = row + 1 < h && col + 1 < w && cells.get(col + 1, row + 1) == CellState::Alive;
    (nw, nn, ne, ww, ee, sw, ss, se)
}


/// Sum of eight 0/1 indicator flags.
fn tally_flags(nw: bool, nn: bool, ne: bool, ww: bool, ee: bool, sw: bool, ss: bool, se: bool) -> (n:
    u8)
    ensures
        n as int == b2i(nw) + b2i(nn) + b2i(ne) + b2i(ww) + b2i(ee) + b2i(sw) + b2i(ss) + b2i(se),
        n <= 8,
{
    (if nw { 1u8 } else { 0u8 }) + (if nn { 1u8 } else { 0u8 }) + (if ne { 1u8 } else { 0u8 }) + (
    if ww { 1u8 } else { 0u8 }) + (if ee { 1u8 } else { 0u8 }) + (if sw { 1u8 } else { 0u8 }) + (
    if ss { 1u8 } else { 0u8 }) + (if se { 1u8 } else { 0u8 })
}

/// Count the live cells among the 8 positions surrounding `coords` on the
/// grid, clipping at the edges: positions off the grid are skipped, never
/// counted as dead or wrapped around, and the queried cell itself is
/// never part of the total.
pub fn neighbors(coords: (usize, usize), cells: &Grid) -> (n: u8)
    requires
        cells.wf(),
        coords.0 < cells.width,
        coords.1 < cells.height,
    ensures
        n as int == neighbor_count(cells@, coords.0 as int, coords.1 as int),
        n <= 8,
{
    let f = neighbor_flags(coords, cells);
    tally_flags(f.0, f.1, f.2, f.3, f.4, f.5, f.6, f.7)
}

/// Append the coordinate when the flag says the position holds a live
/// neighbour; mirrors one `coord_if_alive` segment of the enumeration and
/// keeps every recorded coordinate on the grid.
fn push_if_alive(
    out: &mut Vec<(usize, usize)>,
    flag: bool,
    x: usize,
    y: usize,
    Ghost(v): Ghost<Seq<Seq<CellState>>>,
    Ghost(xi): Ghost<int>,
    Ghost(yi): Ghost<int>,
    Ghost(w): Ghost<int>,
    Ghost(h): Ghost<int>,
)
    requires
        flag == alive_at(v, xi, yi),
        flag ==> x as int == xi && y as int == yi && x < w && y < h,
        coords_within(old(out)@, w, h),
    ensures
        final(out)@ == old(out)@ + coord_if_alive(v, xi, yi),
        coords_within(final(out)@, w, h),
{
    if flag {
        out.push((x, y));
    }
    proof {
        assert(out@ =~= old(out)@ + coord_if_alive(v, xi, yi));
    }
}

/// Enumerate the coordinates of the live Moore neighbours of `coords`, in
/// row-major scan order, clipping at the edges exactly as `neighbors`
/// does. The order is load-bearing: birth compositing folds colours in
/// this order.
pub fn neighbors_coords(coords: (usize, usize), cells: &Grid) -> (out: Vec<(usize, usize)>)
    requires
        cells.wf(),
        coords.0 < cells.width,
        coords.1 < cells.height,
    ensures
        out@ == neighbor_coords(cells@, coords.0 as int, coords.1 as int),
        coords_within(out@, cells.width as int, cells.height as int),
{
    let (col, row) = coords;
    proof {
        cells.lemma_shape();
    }
    let ghost v = cells@;
    let ghost xi = col as int;
    let ghost yi = row as int;
    let f = neighbor_flags(coords, cells);
    let xm1: usize = if col > 0 { col - 1 } else { 0 };
    let ym1: usize = if row > 0 { row - 1 } else { 0 };
    let xp1: usize = if col < usize::MAX { col + 1 } else { col };
    let yp1: usize = if row < usize::MAX { row + 1 } else { row };
    let ghost gw = cells.width as int;
    let ghost gh = cells.height as int;
    let mut out: Vec<(usize, usize)> = Vec::new();
    push_if_alive(&mut out, f.0, xm1, ym1, Ghost(v), Ghost(xi - 1), Ghost(yi - 1), Ghost(gw),
        Ghost(gh));
    push_if_alive(&mut out, f.1, col, ym1, Ghost(v), Ghost(xi), Ghost(yi - 1), Ghost(gw),
        Ghost(gh));
    push_if_alive(&mut out, f.2, xp1, ym1, Ghost(v), Ghost(xi + 1), Ghost(yi - 1), Ghost(gw),
        Ghost(gh));
    push_if_alive(&mut out, f.3, xm1, row, Ghost(v), Ghost(xi - 1), Ghost(yi), Ghost(gw),
        Ghost(gh));
    push_if_alive(&mut out, f.4, xp1, row, Ghost(v), Ghost(xi + 1), Ghost(yi), Ghost(gw),
        Ghost(gh));
    push_if_alive(&mut out, f.5, xm1, yp1, Ghost(v), Ghost(xi - 1), Ghost(yi + 1), Ghost(gw),
        Ghost(gh));
    push_if_alive(&mut out, f.6, col, yp1, Ghost(v), Ghost(xi), Ghost(yi + 1), Ghost(gw),
        Ghost(gh));
    push_if_alive(&mut out, f.7, xp1, yp1, Ghost(v), Ghost(xi + 1), Ghost(yi + 1), Ghost(gw),
        Ghost(gh));
    proof {
        assert(Seq::<(usize, usize)>::empty() + coord_if_alive(v, xi - 1, yi - 1)
            =~= coord_if_alive(v, xi - 1, yi - 1));
        assert(out@ == neighbor_coords(v, xi, yi));
    }
    out
}


/// One step of alpha decay: the alpha channel drops by `d`, clamping at 0.
pub open spec fn decay_alpha(a: u8, d: u8) -> u8 {
    if a >= d {
        (a - d) as u8
    } else {
        0u8
    }
}

/// Sequential "over"-compositing of the pixels at `coords` (in order) on
/// top of a fully transparent black start pixel.
pub open spec fn composite(rv: Seq<Seq<Pixel>>, coords: Seq<(usize, usize)>) -> Pixel
    decreases coords.len(),
{
    if coords.len() == 0 {
        Pixel { r: 0, g: 0, b: 0, a: 0 }
    } else {
        let c = coords.last();
        Pixel::of_rgba(
            blend_of(
                composite(rv, coords.drop_last()).rgba(),
                rv[c.1 as int][c.0 as int].rgba(),
            ),
        )
    }
}

/// Conway's transition for the cell at (x, y): a live cell survives on 2
/// or 3 live neighbours, a dead cell is born on exactly 3, everything
/// else is dead, always judged against the pre-step grid.
pub open spec fn next_cell(v: Seq<Seq<CellState>>, x: int, y: int) -> CellState {
    let n = neighbor_count(v, x, y);
    if alive_at(v, x, y) {
        if n == 2 || n == 3 {
            CellState::Alive
        } else {
            CellState::Dead
        }
    } else {
        if n == 3 {
            CellState::Alive
        } else {
            CellState::Dead
        }
    }
}

/// The colour of a newborn cell: the live neighbours' pixels composited
/// in row-major order, then forced fully opaque.
pub open spec fn birth_pixel(v: Seq<Seq<CellState>>, rv: Seq<Seq<Pixel>>, x: int, y: int) -> Pixel {
    let c = composite(rv, neighbor_coords(v, x, y));
    Pixel { r: c.r, g: c.g, b: c.b, a: 255 }
}

/// A pixel after one step of alpha decay; the colour channels keep their
/// values.
pub open spec fn decayed_pixel(p: Pixel, d: u8) -> Pixel {
    Pixel { r: p.r, g: p.g, b: p.b, a: decay_alpha(p.a, d) }
}

/// The pixel at (x, y) after one generation: surviving cells keep their
/// pixel, births composite their neighbours' colours, and every other
/// cell's pixel decays.
pub open spec fn next_pixel(
    v: Seq<Seq<CellState>>,
    rv: Seq<Seq<Pixel>>,
    x: int,
    y: int,
    d: u8,
) -> Pixel {
    let n = neighbor_count(v, x, y);
    if alive_at(v, x, y) && (n == 2 || n == 3) {
        rv[y][x]
    } else if !alive_at(v, x, y) && n == 3 {
        birth_pixel(v, rv, x, y)
    } else {
        decayed_pixel(rv[y][x], d)
    }
}

/// The whole grid after one generation.
pub open spec fn next_grid(v: Seq<Seq<CellState>>) -> Seq<Seq<CellState>> {
    Seq::new(v.len(), |y: int| Seq::new(v[y].len(), |x: int| next_cell(v, x, y)))
}

/// The whole raster after one generation.
pub open spec fn next_raster(
    v: Seq<Seq<CellState>>,
    rv: Seq<Seq<Pixel>>,
    d: u8,
) -> Seq<Seq<Pixel>> {
    Seq::new(rv.len(), |y: int| Seq::new(rv[y].len(), |x: int| next_pixel(v, rv, x, y, d)))
}

/// Fold the pixels at `coords` (in order) over a fully transparent black
/// start pixel with the "over" operator.
fn composite_coords(img: &Raster, coords: &Vec<(usize, usize)>) -> (p: Pixel)
    requires
        img.wf(),
        coords_within(coords@, img.width as int, img.height as int),
    ensures
        p == composite(img@, coords@),
{
    let mut acc = Pixel { r: 0, g: 0, b: 0, a: 0 };
    let n: usize = coords.len();
    let mut i: usize = 0;
    while i < n
        invariant
            img.wf(),
            coords_within(coords@, img.width as int, img.height as int),
            n == coords@.len(),
            i <= n,
            acc == composite(img@, coords@.take(i as int)),
        decreases n - i,
    {
        let c = coords[i];
        let px = img.get(c.0, c.1);
        let prev = acc;
        acc = blend_px(prev, px);
        proof {
            assert(coords@.take(i + 1).drop_last() =~= coords@.take(i as int));
            assert(coords@.take(i + 1).last() == coords@[i as int]);
            assert(acc == Pixel::of_rgba(blend_of(prev.rgba(), px.rgba())));
            assert(acc == composite(img@, coords@.take(i + 1)));
        }
        i = i + 1;
    }
    proof {
        assert(coords@.take(n as int) =~= coords@);
    }
    acc
}

/// Apply the transition of one cell: write its next state into
/// `next_frame` and its next pixel into `next_img`, leaving every other
/// position untouched.
fn step_cell(
    frame: &Grid,
    img: &Raster,
    x: usize,
    y: usize,
    decay: u8,
    next_frame: &mut Grid,
    next_img: &mut Raster,
)
    requires
        frame.wf(),
        img.wf(),
        frame.width == img.width,
        frame.height == img.height,
        x < frame.width,
        y < frame.height,
        old(next_frame).wf(),
        old(next_frame).width == frame.width,
        old(next_frame).height == frame.height,
        old(next_img).wf(),
        old(next_img).width == frame.width,
        old(next_img).height == frame.height,
        old(next_frame)@[y as int][x as int] is Dead,
        old(next_img)@[y as int][x as int] == img@[y as int][x as int],
    ensures
        final(next_frame).wf(),
        final(next_frame).width == old(next_frame).width,
        final(next_frame).height == old(next_frame).height,
        final(next_img).wf(),
        final(next_img).width == old(next_img).width,
        final(next_img).height == old(next_img).height,
        final(next_frame)@ == old(next_frame)@.update(
            y as int,
            old(next_frame)@[y as int].update(x as int, next_cell(frame@, x as int, y as int)),
        ),
        final(next_img)@ == old(next_img)@.update(
            y as int,
            old(next_img)@[y as int].update(
                x as int,
                next_pixel(frame@, img@, x as int, y as int, decay),
            ),
        ),
{
    proof {
        frame.lemma_shape();
        img.lemma_shape();
        next_frame.lemma_shape();
        next_img.lemma_shape();
    }
    let ghost v = frame@;
    let ghost rv = img@;
    let ghost xi = x as int;
    let ghost yi = y as int;
    let n = neighbors((x, y), frame);
    let alive = frame.get(x, y) == CellState::Alive;
    if alive && (n == 2 || n == 3) {
        next_frame.set(x, y, CellState::Alive);
        proof {
            assert(next_pixel(v, rv, xi, yi, decay) == rv[yi][xi]);
            assert(next_img@[yi].update(xi, rv[yi][xi]) =~= next_img@[yi]);
            assert(next_img@.update(yi, next_img@[yi].update(xi, rv[yi][xi])) =~= next_img@);
        }
    } else if !alive && n == 3 {
        let coords = neighbors_coords((x, y), frame);
        let blended = composite_coords(img, &coords);
        let birth = Pixel { r: blended.r, g: blended.g, b: blended.b, a: 255 };
        next_img.set(x, y, birth);
        next_frame.set(x, y, CellState::Alive);
        proof {
            assert(birth == next_pixel(v, rv, xi, yi, decay));
        }
    } else {
        let p = next_img.get(x, y);
        let a2: u8 = if p.a >= decay {
            p.a - decay
        } else {
            0
        };
        next_img.set(x, y, Pixel { r: p.r, g: p.g, b: p.b, a: a2 });
        proof {
            assert(Pixel { r: p.r, g: p.g, b: p.b, a: a2 } == next_pixel(v, rv, xi, yi, decay));
            assert(next_cell(v, xi, yi) is Dead);
            assert(next_frame@[yi].update(xi, next_cell(v, xi, yi)) =~= next_frame@[yi]);
            assert(next_frame@.update(yi, next_frame@[yi].update(xi, next_cell(v, xi, yi)))
                =~= next_frame@);
        }
    }
}

/// Advance the universe by one generation. The next grid and raster are
/// computed cell by cell against the unmodified previous generation: the
/// grid starts all dead and records survivals and births, the raster
/// starts as a copy of the previous raster and records birth colours and
/// alpha decay.
pub fn step(frame: Grid, img: &Raster, alpha_decay_per_step: u8) -> (u: Universe)
    requires
        frame.wf(),
        img.wf(),
        frame.width == img.width,
        frame.height == img.height,
    ensures
        u.wf(),
        u.cells.width == frame.width,
        u.cells.height == frame.height,
        u.cells@ == next_grid(frame@),
        u.image@ == next_raster(frame@, img@, alpha_decay_per_step),
{
    let w = frame.width;
    let h = frame.height;
    proof {
        frame.lemma_area_fits();
        frame.lemma_shape();
        img.lemma_shape();
    }
    let ghost v = frame@;
    let ghost rv = img@;
    let ghost d = alpha_decay_per_step;
    let mut next_img = img.duplicate();
    let mut next_frame = Grid::new_dead(w, h);
    proof {
        next_frame.lemma_shape();
        next_img.lemma_shape();
    }
    let mut y: usize = 0;
    while y < h
        invariant
            frame.wf(),
            img.wf(),
            frame.width == w,
            frame.height == h,
            img.width == w,
            img.height == h,
            v == frame@,
            rv == img@,
            d == alpha_decay_per_step,
            next_frame.wf(),
            next_frame.width == w,
            next_frame.height == h,
            next_img.wf(),
            next_img.width == w,
            next_img.height == h,
            rows_shaped(v, w as int, h as int),
            rows_shaped(rv, w as int, h as int),
            rows_shaped(next_frame@, w as int, h as int),
            rows_shaped(next_img@, w as int, h as int),
            y <= h,
            forall|yy: int, xx: int|
                0 <= yy < h && 0 <= xx < w && yy < y
                    ==> #[trigger] next_frame@[yy][xx] == next_cell(v, xx, yy),
            forall|yy: int, xx: int|
                0 <= yy < h && 0 <= xx < w && yy < y
                    ==> #[trigger] next_img@[yy][xx] == next_pixel(v, rv, xx, yy, d),
            forall|yy: int, xx: int|
                0 <= yy < h && 0 <= xx < w && yy >= y
                    ==> #[trigger] next_frame@[yy][xx] is Dead,
            forall|yy: int, xx: int|
                0 <= yy < h && 0 <= xx < w && yy >= y
                    ==> #[trigger] next_img@[yy][xx] == rv[yy][xx],
        decreases h - y,
    {
        let mut x: usize = 0;
        while x < w
            invariant
                frame.wf(),
                img.wf(),
                frame.width == w,
                frame.height == h,
                img.width == w,
                img.height == h,
                v == frame@,
                rv == img@,
                d == alpha_decay_per_step,
                next_frame.wf(),
                next_frame.width == w,
                next_frame.height == h,
                next_img.wf(),
                next_img.width == w,
                next_img.height == h,
                rows_shaped(v, w as int, h as int),
                rows_shaped(rv, w as int, h as int),
                rows_shaped(next_frame@, w as int, h as int),
                rows_shaped(next_img@, w as int, h as int),
                y < h,
                x <= w,
                forall|yy: int, xx: int|
                    0 <= yy < h && 0 <= xx < w && (yy < y || (yy == y && xx < x))
                        ==> #[trigger] next_frame@[yy][xx] == next_cell(v, xx, yy),
                forall|yy: int, xx: int|
                    0 <= yy < h && 0 <= xx < w && (yy < y || (yy == y && xx < x))
                        ==> #[trigger] next_img@[yy][xx] == next_pixel(v, rv, xx, yy, d),
                forall|yy: int, xx: int|
                    0 <= yy < h && 0 <= xx < w && (yy > y || (yy == y && xx >= x))
                        ==> #[trigger] next_frame@[yy][xx] is Dead,
                forall|yy: int, xx: int|
                    0 <= yy < h && 0 <= xx < w && (yy > y || (yy == y && xx >= x))
                        ==> #[trigger] next_img@[yy][xx] == rv[yy][xx],
            decreases w - x,
        {
            step_cell(&frame, img, x, y, alpha_decay_per_step, &mut next_frame, &mut next_img);
            x = x + 1;
        }
        y = y + 1;
    }
    proof {
        next_frame.lemma_shape();
        next_img.lemma_shape();
        assert forall|yy: int| 0 <= yy < h implies next_frame@[yy] == next_grid(v)[yy] by {
            assert(next_frame@[yy] =~= next_grid(v)[yy]);
        }
        assert(next_frame@ =~= next_grid(v));
        assert forall|yy: int| 0 <= yy < h implies next_img@[yy] == next_raster(v, rv, d)[yy] by {
            assert(next_img@[yy] =~= next_raster(v, rv, d)[yy]);
        }
        assert(next_img@ =~= next_raster(v, rv, d));
    }
    Universe { cells: next_frame, image: next_img }
}



/// The bi-level luminance bucket of a pixel: 1 for the light bucket
/// (luminance above the 127 midpoint), 0 for the dark bucket.
pub open spec fn bucket_of(p: Pixel) -> int {
    if luma_of(p.r, p.g, p.b) > 127 {
        1
    } else {
        0
    }
}

/// The seed state of one cell under a luminance mode: Light seeds the
/// light bucket, Dark seeds the dark bucket.
pub open spec fn mask_cell(p: Pixel, mode: Mode) -> CellState {
    if (bucket_of(p) == 1) == (mode is Light) {
        CellState::Alive
    } else {
        CellState::Dead
    }
}

/// The full seed grid a luminance mode derives from a raster.
pub open spec fn luminance_mask(rv: Seq<Seq<Pixel>>, mode: Mode) -> Seq<Seq<CellState>> {
    Seq::new(rv.len(), |y: int| Seq::new(rv[y].len(), |x: int| mask_cell(rv[y][x], mode)))
}

/// Classify every pixel of the raster into one of the two bi-level
/// luminance buckets and seed the matching cells: in Light mode the
/// light bucket comes alive, in Dark mode the dark bucket. Random mode
/// has no luminance mapping and is reported as a contract violation, as
/// is any bucket value outside the bi-level palette.
pub fn map_onto_cells(img: &Raster, mode: &Mode) -> (result: Result<Grid, LifeError>)
    requires
        img.wf(),
    ensures
        match result {
            Ok(g) => {
                &&& !(*mode is Random)
                &&& g.wf()
                &&& g.width == img.width
                &&& g.height == img.height
                &&& g@ == luminance_mask(img@, *mode)
            },
            Err(e) => *mode is Random && e is InvalidMode,
        },
{
    let light: bool = match mode {
        Mode::Light => true,
        Mode::Dark => false,
        Mode::Random => {
            return Err(LifeError::InvalidMode);
        },
    };
    let w = img.width;
    let h = img.height;
    proof {
        img.lemma_area_fits();
        img.lemma_shape();
    }
    let ghost rv = img@;
    let ghost m = *mode;
    let mut cells = Grid::new_dead(w, h);
    proof {
        cells.lemma_shape();
    }
    let mut y: usize = 0;
    while y < h
        invariant
            img.wf(),
            img.width == w,
            img.height == h,
            rv == img@,
            m == *mode,
            light == (m is Light),
            !(m is Random),
            cells.wf(),
            cells.width == w,
            cells.height == h,
            rows_shaped(rv, w as int, h as int),
            rows_shaped(cells@, w as int, h as int),
            y <= h,
            forall|yy: int, xx: int|
                0 <= yy < h && 0 <= xx < w && yy < y
                    ==> #[trigger] cells@[yy][xx] == mask_cell(rv[yy][xx], m),
            forall|yy: int, xx: int|
                0 <= yy < h && 0 <= xx < w && yy >= y ==> #[trigger] cells@[yy][xx] is Dead,
        decreases h - y,
    {
        let mut x: usize = 0;
        while x < w
            invariant
                img.wf(),
                img.width == w,
                img.height == h,
                rv == img@,
                m == *mode,
                light == (m is Light),
                !(m is Random),
                cells.wf(),
                cells.width == w,
                cells.height == h,
                rows_shaped(rv, w as int, h as int),
                rows_shaped(cells@, w as int, h as int),
                y < h,
                x <= w,
                forall|yy: int, xx: int|
                    0 <= yy < h && 0 <= xx < w && (yy < y || (yy == y && xx < x))
                        ==> #[trigger] cells@[yy][xx] == mask_cell(rv[yy][xx], m),
                forall|yy: int, xx: int|
                    0 <= yy < h && 0 <= xx < w && (yy > y || (yy == y && xx >= x))
                        ==> #[trigger] cells@[yy][xx] is Dead,
            decreases w - x,
        {
            let pix = img.get(x, y);
            let l = luma_px(pix);
            let idx = bilevel_index(l);
            if idx > 1 {
                return Err(LifeError::InvalidBucket);
            }
            if (idx == 1) == light {
                cells.set(x, y, CellState::Alive);
            }
            proof {
                assert(cells@[y as int][x as int] == mask_cell(rv[y as int][x as int], m));
            }
            x = x + 1;
        }
        y = y + 1;
    }
    proof {
        assert forall|yy: int| 0 <= yy < h implies cells@[yy] == luminance_mask(rv, m)[yy] by {
            assert(cells@[yy] =~= luminance_mask(rv, m)[yy]);
        }
        assert(cells@ =~= luminance_mask(rv, m));
    }
    Ok(cells)
}

/// Relies on `rand::thread_rng`: a handle to the thread-local random
/// number generator.
#[verifier::external_body]
fn fresh_rng() -> rand::rngs::ThreadRng {
    rand::thread_rng()
}

/// Declares `rand::rngs::ThreadRng` to the verifier as an opaque type,
/// so a generator handle can pass through verified code.
#[verifier::external_type_specification]
#[verifier::external_body]
pub struct ExThreadRng(rand::rngs::ThreadRng);

/// Relies on `rand::Rng::gen_range` over `0..bound`: some value below
/// `bound`; the call panics on an empty range, so the bound must be
/// positive.
#[verifier::external_body]
fn rand_below(rng: &mut rand::rngs::ThreadRng, bound: usize) -> (r: usize)
    requires
        bound >= 1,
    ensures
        r < bound,
{
    rng.gen_range(0..bound)
}

/// The grid is exactly the seeding of the given draws: a cell is alive
/// precisely when its coordinate occurs among them.
pub open spec fn seeded_by_draws(
    gv: Seq<Seq<CellState>>,
    ds: Seq<(usize, usize)>,
    w: int,
    h: int,
) -> bool {
    forall|y: int, x: int|
        0 <= y < h && 0 <= x < w ==> (#[trigger] gv[y][x] is Alive <==> ds.contains(
            (x as usize, y as usize),
        ))
}

/// The grid came out of random seeding: it is the seeding of some
/// sequence of `w * h` in-range draws.
pub open spec fn random_seeded(gv: Seq<Seq<CellState>>, w: int, h: int) -> bool {
    exists|ds: Seq<(usize, usize)>|
        {
            &&& ds.len() == w * h
            &&& coords_within(ds, w, h)
            &&& #[trigger] seeded_by_draws(gv, ds, w, h)
        }
}

/// Mark the drawn cells alive on an otherwise dead grid: a cell is alive
/// exactly when its coordinate occurs among the draws, however often.
pub fn seed_cells(width: usize, height: usize, draws: &Vec<(usize, usize)>) -> (g: Grid)
    requires
        width * height <= usize::MAX,
        coords_within(draws@, width as int, height as int),
    ensures
        g.wf(),
        g.width == width,
        g.height == height,
        seeded_by_draws(g@, draws@, width as int, height as int),
{
    let mut cells = Grid::new_dead(width, height);
    proof {
        cells.lemma_shape();
    }
    let n: usize = draws.len();
    let mut i: usize = 0;
    while i < n
        invariant
            coords_within(draws@, width as int, height as int),
            n == draws@.len(),
            i <= n,
            cells.wf(),
            cells.width == width,
            cells.height == height,
            rows_shaped(cells@, width as int, height as int),
            forall|y: int, x: int|
                0 <= y < height && 0 <= x < width
                    ==> (#[trigger] cells@[y][x] is Alive <==> exists|k: int|
                        0 <= k < i && draws@[k] == (x as usize, y as usize)),
        decreases n - i,
    {
        let (dx, dy) = draws[i];
        let ghost prev = cells@;
        cells.set(dx, dy, CellState::Alive);
        proof {
            assert forall|y: int, x: int| 0 <= y < height && 0 <= x < width implies (
            #[trigger] cells@[y][x] is Alive <==> exists|k: int|
                0 <= k < i + 1 && draws@[k] == (x as usize, y as usize)) by {
                if x == dx as int && y == dy as int {
                    assert(draws@[i as int] == (x as usize, y as usize));
                } else {
                    assert(cells@[y][x] == prev[y][x]);
                    if exists|k: int| 0 <= k < i + 1 && draws@[k] == (x as usize, y as usize) {
                        let k = choose|k: int|
                            0 <= k < i + 1 && draws@[k] == (x as usize, y as usize);
                        assert(k < i);
                    }
                }
            }
        }
        i = i + 1;
    }
    proof {
        assert forall|y: int, x: int| 0 <= y < height && 0 <= x < width implies (
        #[trigger] cells@[y][x] is Alive <==> draws@.contains((x as usize, y as usize))) by {
        }
        assert(seeded_by_draws(cells@, draws@, width as int, height as int));
    }
    cells
}

/// Seed a grid by drawing `width * height` uniformly random coordinate
/// pairs with replacement and marking each drawn cell alive: collisions
/// collapse, so the realized live count is generally below the number of
/// draws. Whatever the generator returns, the grid is the seeding of
/// some such sequence of in-range draws.
pub fn seed_random(width: usize, height: usize) -> (g: Grid)
    requires
        width >= 1,
        height >= 1,
        width * height <= usize::MAX,
    ensures
        g.wf(),
        g.width == width,
        g.height == height,
        random_seeded(g@, width as int, height as int),
{
    let area: usize = width * height;
    let mut rng = fresh_rng();
    let mut draws: Vec<(usize, usize)> = Vec::new();
    let mut i: usize = 0;
    while i < area
        invariant
            width >= 1,
            height >= 1,
            i <= area,
            draws@.len() == i,
            coords_within(draws@, width as int, height as int),
        decreases area - i,
    {
        let x = rand_below(&mut rng, width);
        let y = rand_below(&mut rng, height);
        draws.push((x, y));
        proof {
            assert(coords_within(draws@, width as int, height as int));
        }
        i = i + 1;
    }
    let g = seed_cells(width, height, &draws);
    proof {
        assert(draws@.len() == width * height);
        assert(seeded_by_draws(g@, draws@, width as int, height as int));
        assert(random_seeded(g@, width as int, height as int));
    }
    g
}

/// One generation after another, starting from `g0` cells.
pub open spec fn grid_after(g0: Seq<Seq<CellState>>, k: nat) -> Seq<Seq<CellState>>
    decreases k,
{
    if k == 0 {
        g0
    } else {
        next_grid(grid_after(g0, (k - 1) as nat))
    }
}

/// The raster after `k` generations of the run that started at `g0`/`r0`.
pub open spec fn raster_after(
    g0: Seq<Seq<CellState>>,
    r0: Seq<Seq<Pixel>>,
    k: nat,
    d: u8,
) -> Seq<Seq<Pixel>>
    decreases k,
{
    if k == 0 {
        r0
    } else {
        next_raster(
            grid_after(g0, (k - 1) as nat),
            raster_after(g0, r0, (k - 1) as nat, d),
            d,
        )
    }
}

/// The frame sequence of a run seeded with `g0`/`r0`: five leading
/// copies of the seed raster, then the raster after each generation, in
/// playback order.
pub open spec fn frames_match(
    frames: Seq<Raster>,
    g0: Seq<Seq<CellState>>,
    r0: Seq<Seq<Pixel>>,
    gens: int,
    d: u8,
) -> bool {
    &&& frames.len() == 5 + gens
    &&& forall|i: int| 0 <= i < 5 ==> (#[trigger] frames[i])@ == r0
    &&& forall|k: int|
        0 <= k < gens ==> (#[trigger] frames[5 + k])@ == raster_after(g0, r0, (k + 1) as nat, d)
}

/// Run the seeded universe for `generations` steps, collecting the
/// emitted frames: five duplicates of the seed raster for a visible
/// pause, then the raster of each new generation, in order. Exactly
/// `5 + generations` frames come out.
pub fn simulate(universe: Universe, generations: u64, decay: u8) -> (slides: Vec<Raster>)
    requires
        universe.wf(),
        5 + generations <= usize::MAX,
    ensures
        slides@.len() == 5 + generations,
        frames_match(slides@, universe.cells@, universe.image@, generations as int, decay),
        forall|i: int|
            0 <= i < slides@.len()
                ==> (#[trigger] slides@[i]).wf() && slides@[i].width == universe.image.width
                && slides@[i].height == universe.image.height,
{
    let ghost g0 = universe.cells@;
    let ghost r0 = universe.image@;
    let gw = universe.image.width;
    let gh = universe.image.height;
    let mut slides: Vec<Raster> = Vec::new();
    let mut i: usize = 0;
    while i < 5
        invariant
            universe.wf(),
            universe.image.width == gw,
            universe.image.height == gh,
            i <= 5,
            slides@.len() == i,
            forall|j: int| 0 <= j < i ==> (#[trigger] slides@[j])@ == universe.image@,
            forall|j: int|
                0 <= j < i
                    ==> (#[trigger] slides@[j]).wf() && slides@[j].width == gw && slides@[j].height
                    == gh,
        decreases 5 - i,
    {
        slides.push(universe.image.duplicate());
        i = i + 1;
    }
    let Universe { cells, image } = universe;
    let mut cur_cells = cells;
    let mut cur_image = image;
    let mut k: u64 = 0;
    while k < generations
        invariant
            5 + generations <= usize::MAX,
            k <= generations,
            cur_cells.wf(),
            cur_image.wf(),
            cur_cells.width == gw,
            cur_cells.height == gh,
            cur_image.width == gw,
            cur_image.height == gh,
            cur_cells@ == grid_after(g0, k as nat),
            cur_image@ == raster_after(g0, r0, k as nat, decay),
            slides@.len() == 5 + k,
            forall|j: int| 0 <= j < 5 ==> (#[trigger] slides@[j])@ == r0,
            forall|j: int|
                0 <= j < k ==> (#[trigger] slides@[5 + j])@ == raster_after(
                    g0,
                    r0,
                    (j + 1) as nat,
                    decay,
                ),
            forall|j: int|
                0 <= j < slides@.len()
                    ==> (#[trigger] slides@[j]).wf() && slides@[j].width == gw && slides@[j].height
                    == gh,
        decreases generations - k,
    {
        let u = step(cur_cells, &cur_image, decay);
        cur_cells = u.cells;
        cur_image = u.image;
        slides.push(cur_image.duplicate());
        k = k + 1;
        proof {
            assert(cur_cells@ == grid_after(g0, k as nat));
            assert(cur_image@ == raster_after(g0, r0, k as nat, decay));
        }
    }
    slides
}

/// The frame sequence comes from a run whose seed grid fits the raster
/// and, for the luminance modes, is exactly the bi-level mask of it.
pub open spec fn seeded_frames(
    slides: Seq<Raster>,
    rv: Seq<Seq<Pixel>>,
    w: int,
    h: int,
    mode: Mode,
    gens: int,
    d: u8,
) -> bool {
    exists|g0: Seq<Seq<CellState>>|
        {
            &&& rows_shaped(g0, w, h)
            &&& !(mode is Random) ==> g0 == luminance_mask(rv, mode)
            &&& mode is Random ==> random_seeded(g0, w, h)
            &&& #[trigger] frames_match(slides, g0, rv, gens, d)
        }
}

/// Seed a universe from the source raster per the chosen mode, then run
/// the game of life for `generations` steps, collecting every frame. A
/// raster with no pixels is a contract violation and is reported rather
/// than simulated; for the luminance modes the seed grid is exactly the
/// bi-level mask of the raster.
pub fn begin_life(img: Raster, generations: u64, decay: u8, mode: &Mode) -> (result: Result<
    Vec<Raster>,
    LifeError,
>)
    requires
        img.wf(),
        5 + generations <= usize::MAX,
    ensures
        match result {
            Ok(slides) => {
                &&& img.width > 0 && img.height > 0
                &&& seeded_frames(
                    slides@,
                    img@,
                    img.width as int,
                    img.height as int,
                    *mode,
                    generations as int,
                    decay,
                )
                &&& forall|i: int|
                    0 <= i < slides@.len()
                        ==> (#[trigger] slides@[i]).wf() && slides@[i].width == img.width
                        && slides@[i].height == img.height
            },
            Err(e) => e is EmptyRaster && (img.width == 0 || img.height == 0),
        },
{
    let width = img.width;
    let height = img.height;
    if width == 0 || height == 0 {
        return Err(LifeError::EmptyRaster);
    }
    proof {
        img.lemma_area_fits();
    }
    let cells: Grid = match mode {
        Mode::Random => seed_random(width, height),
        _ => {
            match map_onto_cells(&img, mode) {
                Ok(g) => g,
                Err(e) => {
                    return Err(e);
                },
            }
        },
    };
    proof {
        cells.lemma_shape();
    }
    let ghost g0 = cells@;
    let universe = Universe { cells, image: img };
    let slides = simulate(universe, generations, decay);
    proof {
        assert(universe.image@ == img@);
        assert(seeded_frames(
            slides@,
            img@,
            img.width as int,
            img.height as int,
            *mode,
            generations as int,
            decay,
        )) by {
            assert(rows_shaped(g0, img.width as int, img.height as int));
            assert(frames_match(slides@, g0, img@, generations as int, decay));
            assert(!(*mode is Random) ==> g0 == luminance_mask(img@, *mode));
            assert(*mode is Random ==> random_seeded(g0, img.width as int, img.height as int));
        }
    }
    Ok(slides)
}



/// The neighbour count never includes the queried cell itself: replacing
/// the centre cell's state moves the count not at all, and the count
/// always lies between 0 and 8.
pub proof fn lemma_neighbor_count_excludes_center(
    v: Seq<Seq<CellState>>,
    x: int,
    y: int,
    c: CellState,
)
    requires
        0 <= y < v.len(),
        0 <= x < v[y].len(),
    ensures
        neighbor_count(v.update(y, v[y].update(x, c)), x, y) == neighbor_count(v, x, y),
        0 <= neighbor_count(v, x, y) <= 8,
{
    let v2 = v.update(y, v[y].update(x, c));
    assert(alive_at(v2, x - 1, y - 1) == alive_at(v, x - 1, y - 1));
    assert(alive_at(v2, x, y - 1) == alive_at(v, x, y - 1));
    assert(alive_at(v2, x + 1, y - 1) == alive_at(v, x + 1, y - 1));
    assert(alive_at(v2, x - 1, y) == alive_at(v, x - 1, y));
    assert(alive_at(v2, x + 1, y) == alive_at(v, x + 1, y));
    assert(alive_at(v2, x - 1, y + 1) == alive_at(v, x - 1, y + 1));
    assert(alive_at(v2, x, y + 1) == alive_at(v, x, y + 1));
    assert(alive_at(v2, x + 1, y + 1) == alive_at(v, x + 1, y + 1));
}

/// The count agrees with the enumeration: `neighbor_count` counts
/// exactly the coordinates `neighbor_coords` lists, so out-of-range
/// positions, which the enumeration skips, contribute nothing to the
/// count — they are neither counted as dead nor wrapped around.
pub proof fn lemma_neighbor_count_matches_coords(v: Seq<Seq<CellState>>, x: int, y: int)
    ensures
        neighbor_count(v, x, y) == neighbor_coords(v, x, y).len(),
{
}

/// Every enumerated neighbour lies on the grid, holds a live cell, is
/// adjacent to the queried cell, and is never the queried cell itself.
#[verifier::rlimit(100)]
#[verifier::spinoff_prover]
pub proof fn lemma_neighbor_coords_on_grid(v: Seq<Seq<CellState>>, w: int, h: int, x: int, y: int)
    requires
        rows_shaped(v, w, h),
        w <= usize::MAX,
        h <= usize::MAX,
    ensures
        coords_within(neighbor_coords(v, x, y), w, h),
        forall|i: int|
            0 <= i < neighbor_coords(v, x, y).len() ==> {
                let c = #[trigger] neighbor_coords(v, x, y)[i];
                &&& alive_at(v, c.0 as int, c.1 as int)
                &&& (c.0 as int, c.1 as int) != (x, y)
                &&& x - 1 <= c.0 as int <= x + 1
                &&& y - 1 <= c.1 as int <= y + 1
            },
{
    let s1 = coord_if_alive(v, x - 1, y - 1);
    let s2 = s1 + coord_if_alive(v, x, y - 1);
    let s3 = s2 + coord_if_alive(v, x + 1, y - 1);
    let s4 = s3 + coord_if_alive(v, x - 1, y);
    let s5 = s4 + coord_if_alive(v, x + 1, y);
    let s6 = s5 + coord_if_alive(v, x - 1, y + 1);
    let s7 = s6 + coord_if_alive(v, x, y + 1);
    let s8 = s7 + coord_if_alive(v, x + 1, y + 1);
    let ok = |c: (usize, usize)|
        {
            &&& c.0 < w
            &&& c.1 < h
            &&& alive_at(v, c.0 as int, c.1 as int)
            &&& (c.0 as int, c.1 as int) != (x, y)
            &&& x - 1 <= c.0 as int <= x + 1
            &&& y - 1 <= c.1 as int <= y + 1
        };
    assert forall|i: int|
        0 <= i < coord_if_alive(v, x - 1, y - 1).len() implies ok(
        #[trigger] coord_if_alive(v, x - 1, y - 1)[i],
    ) by {
        if alive_at(v, x - 1, y - 1) {
            assert(v[y - 1].len() == w);
            assert(coord_if_alive(v, x - 1, y - 1)[0] == (((x - 1) as usize), ((y - 1) as usize)));
        }
    }
    assert forall|i: int|
        0 <= i < coord_if_alive(v, x, y - 1).len() implies ok(
        #[trigger] coord_if_alive(v, x, y - 1)[i],
    ) by {
        if alive_at(v, x, y - 1) {
            assert(v[y - 1].len() == w);
            assert(coord_if_alive(v, x, y - 1)[0] == (((x) as usize), ((y - 1) as usize)));
        }
    }
    assert forall|i: int|
        0 <= i < coord_if_alive(v, x + 1, y - 1).len() implies ok(
        #[trigger] coord_if_alive(v, x + 1, y - 1)[i],
    ) by {
        if alive_at(v, x + 1, y - 1) {
            assert(v[y - 1].len() == w);
            assert(coord_if_alive(v, x + 1, y - 1)[0] == (((x + 1) as usize), ((y - 1) as usize)));
        }
    }
    assert forall|i: int|
        0 <= i < coord_if_alive(v, x - 1, y).len() implies ok(
        #[trigger] coord_if_alive(v, x - 1, y)[i],
    ) by {
        if alive_at(v, x - 1, y) {
            assert(v[y].len() == w);
            assert(coord_if_alive(v, x - 1, y)[0] == (((x - 1) as usize), ((y) as usize)));
        }
    }
    assert forall|i: int|
        0 <= i < coord_if_alive(v, x + 1, y).len() implies ok(
        #[trigger] coord_if_alive(v, x + 1, y)[i],
    ) by {
        if alive_at(v, x + 1, y) {
            assert(v[y].len() == w);
            assert(coord_if_alive(v, x + 1, y)[0] == (((x + 1) as usize), ((y) as usize)));
        }
    }
    assert forall|i: int|
        0 <= i < coord_if_alive(v, x - 1, y + 1).len() implies ok(
        #[trigger] coord_if_alive(v, x - 1, y + 1)[i],
    ) by {
        if alive_at(v, x - 1, y + 1) {
            assert(v[y + 1].len() == w);
            assert(coord_if_alive(v, x - 1, y + 1)[0] == (((x - 1) as usize), ((y + 1) as usize)));
        }
    }
    assert forall|i: int|
        0 <= i < coord_if_alive(v, x, y + 1).len() implies ok(
        #[trigger] coord_if_alive(v, x, y + 1)[i],
    ) by {
        if alive_at(v, x, y + 1) {
            assert(v[y + 1].len() == w);
            assert(coord_if_alive(v, x, y + 1)[0] == (((x) as usize), ((y + 1) as usize)));
        }
    }
    assert forall|i: int|
        0 <= i < coord_if_alive(v, x + 1, y + 1).len() implies ok(
        #[trigger] coord_if_alive(v, x + 1, y + 1)[i],
    ) by {
        if alive_at(v, x + 1, y + 1) {
            assert(v[y + 1].len() == w);
            assert(coord_if_alive(v, x + 1, y + 1)[0] == (((x + 1) as usize), ((y + 1) as usize)));
        }
    }
    assert(forall|i: int| 0 <= i < s1.len() ==> ok(#[trigger] s1[i]));
    assert(forall|i: int| 0 <= i < s2.len() ==> ok(#[trigger] s2[i]));
    assert(forall|i: int| 0 <= i < s3.len() ==> ok(#[trigger] s3[i]));
    assert(forall|i: int| 0 <= i < s4.len() ==> ok(#[trigger] s4[i]));
    assert(forall|i: int| 0 <= i < s5.len() ==> ok(#[trigger] s5[i]));
    assert(forall|i: int| 0 <= i < s6.len() ==> ok(#[trigger] s6[i]));
    assert(forall|i: int| 0 <= i < s7.len() ==> ok(#[trigger] s7[i]));
    assert(forall|i: int| 0 <= i < s8.len() ==> ok(#[trigger] s8[i]));
    assert(s8 == neighbor_coords(v, x, y));
}

/// The count is local: two grids that agree on the eight surrounding
/// positions give the queried cell the same count, whatever happens
/// elsewhere — in particular cells on the far edge never leak in.
pub proof fn lemma_neighbor_count_local(
    v1: Seq<Seq<CellState>>,
    v2: Seq<Seq<CellState>>,
    x: int,
    y: int,
)
    requires
        alive_at(v1, x - 1, y - 1) == alive_at(v2, x - 1, y - 1),
        alive_at(v1, x, y - 1) == alive_at(v2, x, y - 1),
        alive_at(v1, x + 1, y - 1) == alive_at(v2, x + 1, y - 1),
        alive_at(v1, x - 1, y) == alive_at(v2, x - 1, y),
        alive_at(v1, x + 1, y) == alive_at(v2, x + 1, y),
        alive_at(v1, x - 1, y + 1) == alive_at(v2, x - 1, y + 1),
        alive_at(v1, x, y + 1) == alive_at(v2, x, y + 1),
        alive_at(v1, x + 1, y + 1) == alive_at(v2, x + 1, y + 1),
    ensures
        neighbor_count(v1, x, y) == neighbor_count(v2, x, y),
{
}

/// One step on a fully dead grid is a no-op for the cells and a uniform
/// alpha decay for the pixels: every cell stays dead, and every pixel
/// keeps its colour while its alpha drops by exactly `min(decay, alpha)`.
pub proof fn lemma_dead_grid_step(
    v: Seq<Seq<CellState>>,
    rv: Seq<Seq<Pixel>>,
    d: u8,
    w: int,
    h: int,
)
    requires
        rows_shaped(v, w, h),
        rows_shaped(rv, w, h),
        forall|y: int, x: int| 0 <= y < h && 0 <= x < w ==> (#[trigger] v[y][x]) is Dead,
    ensures
        forall|y: int, x: int|
            0 <= y < h && 0 <= x < w ==> (#[trigger] next_grid(v)[y][x]) is Dead,
        forall|y: int, x: int|
            0 <= y < h && 0 <= x < w ==> (#[trigger] next_raster(v, rv, d)[y][x])
                == decayed_pixel(rv[y][x], d),
        forall|y: int, x: int|
            0 <= y < h && 0 <= x < w ==> (#[trigger] next_raster(v, rv, d)[y][x]).a == rv[y][x].a
                - (if d <= rv[y][x].a {
                d as int
            } else {
                rv[y][x].a as int
            }),
{
    assert forall|y: int, x: int| 0 <= y < h && 0 <= x < w implies !alive_at(v, x, y) by {
        assert(v[y][x] is Dead);
    }
    assert forall|y: int, x: int| 0 <= y < h && 0 <= x < w implies (#[trigger] next_grid(v)[y][x])
        is Dead && next_raster(v, rv, d)[y][x] == decayed_pixel(rv[y][x], d) by {
        assert(!alive_at(v, x - 1, y - 1));
        assert(!alive_at(v, x, y - 1));
        assert(!alive_at(v, x + 1, y - 1));
        assert(!alive_at(v, x - 1, y));
        assert(!alive_at(v, x + 1, y));
        assert(!alive_at(v, x - 1, y + 1));
        assert(!alive_at(v, x, y + 1));
        assert(!alive_at(v, x + 1, y + 1));
        assert(neighbor_count(v, x, y) == 0);
    }
}

/// Compositing reads nothing but the pixels at the listed coordinates:
/// two rasters that agree there give the same composite, so a birth
/// colour is reproducible byte for byte from the neighbours' colours.
pub proof fn lemma_composite_depends_on_pixels(
    rv1: Seq<Seq<Pixel>>,
    rv2: Seq<Seq<Pixel>>,
    coords: Seq<(usize, usize)>,
)
    requires
        forall|i: int|
            0 <= i < coords.len() ==> rv1[(#[trigger] coords[i]).1 as int][coords[i].0 as int]
                == rv2[coords[i].1 as int][coords[i].0 as int],
    ensures
        composite(rv1, coords) == composite(rv2, coords),
    decreases coords.len(),
{
    if coords.len() > 0 {
        assert(forall|i: int|
            0 <= i < coords.len() - 1 ==> coords.drop_last()[i] == #[trigger] coords[i]);
        lemma_composite_depends_on_pixels(rv1, rv2, coords.drop_last());
    }
}

/// The alpha decay boundary: decay subtracts exactly `min(alpha, decay)`
/// from the alpha channel — a pixel with alpha below the decay lands
/// exactly on 0 and never wraps around.
pub proof fn lemma_alpha_decay_floor(a: u8, d: u8)
    ensures
        a < d ==> decay_alpha(a, d) == 0,
        a >= d ==> decay_alpha(a, d) == a - d,
        decay_alpha(a, d) <= a,
        a as int - decay_alpha(a, d) as int == if d <= a {
            d as int
        } else {
            a as int
        },
{
}



/// Birth determinism: with the grid fixed, a newborn cell's colour is a
/// function of the pixels at its live neighbours' positions alone — the
/// same neighbour colours composite to the same birth pixel, byte for
/// byte, on every run.
pub proof fn lemma_birth_pixel_deterministic(
    v: Seq<Seq<CellState>>,
    rv1: Seq<Seq<Pixel>>,
    rv2: Seq<Seq<Pixel>>,
    x: int,
    y: int,
)
    requires
        forall|i: int|
            0 <= i < neighbor_coords(v, x, y).len()
                ==> rv1[(#[trigger] neighbor_coords(v, x, y)[i]).1 as int][neighbor_coords(
                v,
                x,
                y,
            )[i].0 as int] == rv2[neighbor_coords(v, x, y)[i].1 as int][neighbor_coords(
                v,
                x,
                y,
            )[i].0 as int],
    ensures
        birth_pixel(v, rv1, x, y) == birth_pixel(v, rv2, x, y),
{
    let coords = neighbor_coords(v, x, y);
    assert forall|i: int|
        0 <= i < coords.len() implies rv1[(#[trigger] coords[i]).1 as int][coords[i].0 as int]
        == rv2[coords[i].1 as int][coords[i].0 as int] by {
        assert(coords[i] == neighbor_coords(v, x, y)[i]);
    }
    lemma_composite_depends_on_pixels(rv1, rv2, coords);
}


} // verus!
