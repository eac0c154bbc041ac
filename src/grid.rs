use vstd::prelude::*;

verus! {

/// Signals a caller error: a zero direction, a zero range, a zero ray count,
/// or a grid with a zero dimension or cell size.
#[derive(Debug, Clone, Copy, PartialEq, Eq, Structural)]
pub enum CastError {
    InvalidArgument,
}

/// A `width` by `height` occupancy map; each cell spans `cell_size` world
/// units on each axis. Cell (x, y) is stored at index `y * width + x`.
pub struct Grid {
    width: u16,
    height: u16,
    cell_size: u16,
    cells: Vec<bool>,
}

impl Grid {
    pub closed spec fn spec_width(&self) -> int {
        self.width as int
    }

    pub closed spec fn spec_height(&self) -> int {
        self.height as int
    }

    pub closed spec fn spec_cell_size(&self) -> int {
        self.cell_size as int
    }

    /// Well-formedness: positive dimensions and one entry per cell.
    pub closed spec fn wf(&self) -> bool {
        &&& self.width > 0
        &&& self.height > 0
        &&& self.cell_size > 0
        &&& self.cells@.len() == self.width * self.height
    }

    /// A well-formed grid has positive dimensions and cell size.
    pub proof fn lemma_wf_dims(&self)
        requires
            self.wf(),
        ensures
            0 < self.spec_width() <= 0xffff,
            0 < self.spec_height() <= 0xffff,
            0 < self.spec_cell_size() <= 0xffff,
    {
    }

    pub open spec fn in_bounds(&self, x: int, y: int) -> bool {
        0 <= x < self.spec_width() && 0 <= y < self.spec_height()
    }

    /// Whether cell (x, y) is occupied; a cell outside the grid is free.
    pub closed spec fn occupied(&self, x: int, y: int) -> bool {
        self.in_bounds(x, y) && self.cells@[y * self.width + x]
    }

    /// An all-free grid, or `InvalidArgument` when a dimension or the cell
    /// size is zero.
    pub fn new(width: u16, height: u16, cell_size: u16) -> (r: Result<Grid, CastError>)
        ensures
            (width > 0 && height > 0 && cell_size > 0) <==> r is Ok,
            r matches Ok(g) ==> {
                &&& g.wf()
                &&& g.spec_width() == width
                &&& g.spec_height() == height
                &&& g.spec_cell_size() == cell_size
                &&& forall|x: int, y: int| !g.occupied(x, y)
            },
    {
        if width == 0 || height == 0 || cell_size == 0 {
            return Err(CastError::InvalidArgument);
        }
        proof {
            assert(width * height <= 0xffff * 0xffff) by (nonlinear_arith)
                requires
                    width <= 0xffff,
                    height <= 0xffff,
            ;
        }
        let n: usize = width as usize * height as usize;
        let mut cells: Vec<bool> = Vec::new();
        let mut i: usize = 0;
        while i < n
            invariant
                i <= n,
                cells@.len() == i,
                forall|k: int| 0 <= k < i ==> !cells@[k],
            decreases n - i,
        {
            cells.push(false);
            i += 1;
        }
        let g = Grid { width, height, cell_size, cells };
        proof {
            assert forall|x: int, y: int| !g.occupied(x, y) by {
                if g.in_bounds(x, y) {
                    assert(y * width + x < width * height) by (nonlinear_arith)
                        requires 0 <= x < width, 0 <= y < height;
                }
            }
        }
        Ok(g)
    }

    pub fn width(&self) -> (r: u16)
        ensures
            r == self.spec_width(),
    {
        self.width
    }

    pub fn height(&self) -> (r: u16)
        ensures
            r == self.spec_height(),
    {
        self.height
    }

    pub fn cell_size(&self) -> (r: u16)
        ensures
            r == self.spec_cell_size(),
    {
        self.cell_size
    }

    /// Whether cell (x, y) is occupied; false outside the grid.
    pub fn is_occupied(&self, x: i64, y: i64) -> (r: bool)
        requires
            self.wf(),
        ensures
            r == self.occupied(x as int, y as int),
    {
        if x < 0 || y < 0 || x >= self.width as i64 || y >= self.height as i64 {
            return false;
        }
        proof {
            assert(y * self.width + x < self.width * self.height) by (nonlinear_arith)
                requires
                    0 <= x < self.width,
                    0 <= y < self.height,
            ;
            assert(y * self.width <= 0xffff * 0xffff) by (nonlinear_arith)
                requires
                    0 <= y <= 0xffff,
                    0 <= self.width <= 0xffff,
            ;
        }
        let idx: u64 = (y as u64) * (self.width as u64) + (x as u64);
        self.cells[idx as usize]
    }

    /// Sets cell (x, y) to `value`; does nothing outside the grid.
    pub fn set_occupied(&mut self, x: i64, y: i64, value: bool)
        requires
            old(self).wf(),
        ensures
            final(self).wf(),
            final(self).spec_width() == old(self).spec_width(),
            final(self).spec_height() == old(self).spec_height(),
            final(self).spec_cell_size() == old(self).spec_cell_size(),
            forall|i: int, j: int|
                #![trigger final(self).occupied(i, j)]
                final(self).occupied(i, j) == if i == x && j == y && old(self).in_bounds(i, j) {
                    value
                } else {
                    old(self).occupied(i, j)
                },
    {
        if x < 0 || y < 0 || x >= self.width as i64 || y >= self.height as i64 {
            return;
        }
        let ghost w = self.width as int;
        proof {
            assert(y * w + x < w * self.height) by (nonlinear_arith)
                requires
                    0 <= x < w,
                    0 <= y < self.height,
            ;
            assert(y * w <= 0xffff * 0xffff) by (nonlinear_arith)
                requires
                    0 <= y <= 0xffff,
                    0 <= w <= 0xffff,
            ;
        }
        let idx: u64 = (y as u64) * (self.width as u64) + (x as u64);
        self.cells.set(idx as usize, value);
        proof {
            assert forall|i: int, j: int|
                #![trigger self.occupied(i, j)]
                self.occupied(i, j) == if i == x && j == y && old(self).in_bounds(i, j) {
                    value
                } else {
                    old(self).occupied(i, j)
                } by {
                if self.in_bounds(i, j) {
                    assert(j * w + i < w * self.height) by (nonlinear_arith)
                        requires 0 <= i < w, 0 <= j < self.height;
                }
                if self.in_bounds(i, j) && (i != x || j != y) {
                    if j == y {
                    } else if j < y {
                        assert(j * w + i < y * w + x) by (nonlinear_arith)
                            requires j < y, 0 <= i < w, 0 <= x;
                    } else {
                        assert(j * w + i > y * w + x) by (nonlinear_arith)
                            requires j > y, 0 <= i, 0 <= x < w;
                    }
                }
            }
        }
    }
}

} // verus!
