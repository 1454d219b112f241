//! The binary cell grid of the simulation: a fixed-size, row-major 2D array
//! of cell states, viewed in specifications as a sequence of rows.

use vstd::prelude::*;

verus! {

/// The state of one cell of the life grid.
#[derive(Clone, Copy, Debug, PartialEq, Eq, Structural)]
pub enum CellState {
    Alive,
    Dead,
}

/// A row-major flat index stays inside a `width * height` buffer.
pub proof fn lemma_row_major_in_bounds(w: int, h: int, x: int, y: int)
    by (nonlinear_arith)
    requires
        0 <= x < w,
        0 <= y < h,
    ensures
        0 <= y * w + x < w * h,
{
}

/// Two row-major flat indices agree only on identical coordinates.
pub proof fn lemma_row_major_injective(w: int, x1: int, y1: int, x2: int, y2: int)
    by (nonlinear_arith)
    requires
        0 <= x1 < w,
        0 <= x2 < w,
        0 <= y1,
        0 <= y2,
        y1 * w + x1 == y2 * w + x2,
    ensures
        x1 == x2,
        y1 == y2,
{
}

/// A sequence of rows has `height` rows of exactly `width` entries each.
pub open spec fn rows_shaped<T>(v: Seq<Seq<T>>, w: int, h: int) -> bool {
    &&& v.len() == h
    &&& forall|y: int| 0 <= y < h ==> (#[trigger] v[y]).len() == w
}

/// A 2D grid of cell states with dimensions fixed for the lifetime of a
/// simulation, stored row-major in a flat buffer.
#[derive(Debug)]
pub struct Grid {
    pub width: usize,
    pub height: usize,
    pub cells: Vec<CellState>,
}

impl View for Grid {
    type V = Seq<Seq<CellState>>;

    closed spec fn view(&self) -> Seq<Seq<CellState>> {
        Seq::new(
            self.height as nat,
            |y: int| Seq::new(self.width as nat, |x: int| self.cells@[y * self.width + x]),
        )
    }
}

impl Grid {
    /// The buffer holds exactly one state per cell.
    pub closed spec fn wf(&self) -> bool {
        self.cells@.len() == self.width * self.height
    }

    /// A well-formed grid's area fits in the buffer, hence in a `usize`.
    pub proof fn lemma_area_fits(&self)
        requires
            self.wf(),
        ensures
            self.width * self.height <= usize::MAX,
    {
        broadcast use vstd::std_specs::vec::axiom_spec_len;

        assert(vstd::std_specs::vec::spec_vec_len(&self.cells) == self.cells@.len());
    }

    /// The view always has `height` rows of `width` cells each.
    pub proof fn lemma_shape(&self)
        ensures
            rows_shaped(self@, self.width as int, self.height as int),
    {
    }

    /// A fresh grid of the given dimensions with every cell `Dead`.
    pub fn new_dead(width: usize, height: usize) -> (g: Grid)
        requires
            width * height <= usize::MAX,
        ensures
            g.wf(),
            g.width == width,
            g.height == height,
            forall|y: int, x: int|
                0 <= y < height && 0 <= x < width ==> #[trigger] g@[y][x] is Dead,
    {
        proof {
            if width > 0 && height > 0 {
                lemma_row_major_in_bounds(width as int, height as int, width - 1, height - 1);
            }
        }
        let area: usize = width * height;
        let mut cells: Vec<CellState> = Vec::new();
        let mut i: usize = 0;
        while i < area
            invariant
                i <= area,
                cells@.len() == i,
                forall|j: int| 0 <= j < i ==> cells@[j] is Dead,
            decreases area - i,
        {
            cells.push(CellState::Dead);
            i = i + 1;
        }
        let g = Grid { width, height, cells };
        proof {
            assert forall|y: int, x: int|
                0 <= y < height && 0 <= x < width implies #[trigger] g@[y][x] is Dead by {
                lemma_row_major_in_bounds(width as int, height as int, x, y);
            }
        }
        g
    }

    /// Read the state of the cell at column `x`, row `y`.
    pub fn get(&self, x: usize, y: usize) -> (c: CellState)
        requires
            self.wf(),
            x < self.width,
            y < self.height,
        ensures
            c == self@[y as int][x as int],
    {
        proof {
            self.lemma_area_fits();
            lemma_row_major_in_bounds(self.width as int, self.height as int, x as int, y as int);
        }
        let i: usize = y * self.width + x;
        self.cells[i]
    }

    /// Overwrite the state of the cell at column `x`, row `y`.
    pub fn set(&mut self, x: usize, y: usize, c: CellState)
        requires
            old(self).wf(),
            x < old(self).width,
            y < old(self).height,
        ensures
            final(self).wf(),
            final(self).width == old(self).width,
            final(self).height == old(self).height,
            final(self)@ == old(self)@.update(
                y as int,
                old(self)@[y as int].update(x as int, c),
            ),
    {
        proof {
            self.lemma_area_fits();
            lemma_row_major_in_bounds(self.width as int, self.height as int, x as int, y as int);
        }
        let i: usize = y * self.width + x;
        let ghost prev = *self;
        self.cells.set(i, c);
        proof {
            let w = self.width as int;
            let h = self.height as int;
            let target = prev@.update(y as int, prev@[y as int].update(x as int, c));
            assert forall|yy: int| 0 <= yy < h implies self@[yy] == target[yy] by {
                assert forall|xx: int| 0 <= xx < w implies self@[yy][xx] == target[yy][xx] by {
                    lemma_row_major_in_bounds(w, h, xx, yy);
                    if yy * w + xx == y as int * w + x as int {
                        lemma_row_major_injective(w, xx, yy, x as int, y as int);
                    }
                }
                assert(self@[yy] =~= target[yy]);
            }
            assert(self@ =~= target);
        }
    }
}

} // verus!
