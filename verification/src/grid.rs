use vstd::prelude::*;

verus! {

/// A rectangle of cells stored row by row: cell `(x, y)` is `data[y * width + x]`.
#[derive(Clone)]
pub struct Grid<T> {
    pub data: Vec<T>,
    pub width: usize,
    pub height: usize,
}

/// The place of cell `(x, y)` in the row-major data of a grid `width` wide.
pub open spec fn cell_index(width: int, x: int, y: int) -> int {
    y * width + x
}

/// A cell of a `width` by `height` grid has its index below `width * height`.
pub proof fn lemma_cell_index_bound(width: int, height: int, x: int, y: int)
    requires
        0 <= x < width,
        0 <= y < height,
    ensures
        0 <= cell_index(width, x, y) < width * height,
{
    assert(0 <= y * width && y * width + width <= height * width) by (nonlinear_arith)
        requires
            0 <= y < height,
            0 < width,
    ;
    assert(height * width == width * height) by (nonlinear_arith);
}

/// Two cells of a row-major grid with one index are one cell.
pub proof fn lemma_cell_index_injective(width: int, x1: int, y1: int, x2: int, y2: int)
    requires
        0 <= x1 < width,
        0 <= x2 < width,
        cell_index(width, x1, y1) == cell_index(width, x2, y2),
    ensures
        x1 == x2,
        y1 == y2,
{
    assert(y1 == y2) by (nonlinear_arith)
        requires
            0 <= x1 < width,
            0 <= x2 < width,
            y1 * width + x1 == y2 * width + x2,
    ;
}

impl<T> Grid<T> {
    /// The data holds exactly `width * height` cells.
    pub open spec fn wf(&self) -> bool {
        self.data@.len() == self.width * self.height
    }

    /// `(x, y)` is a cell of the grid.
    pub open spec fn holds(&self, x: int, y: int) -> bool {
        0 <= x < self.width && 0 <= y < self.height
    }

    /// The place of cell `(x, y)` in `data`.
    #[inline]
    pub fn idx(&self, x: usize, y: usize) -> (i: usize)
        requires
            cell_index(self.width as int, x as int, y as int) <= usize::MAX,
        ensures
            i == cell_index(self.width as int, x as int, y as int),
    {
        assert(0 <= y * self.width) by (nonlinear_arith);
        y * self.width + x
    }

    /// Whether `(x, y)` is a cell of the grid. The coordinates are signed,
    /// so that a step off the left or top edge can be asked about.
    #[inline]
    pub fn in_bounds(&self, x: i32, y: i32) -> (b: bool)
        ensures
            b == self.holds(x as int, y as int),
    {
        x >= 0 && y >= 0 && (x as usize) < self.width && (y as usize) < self.height
    }

    /// The value of cell `(x, y)`.
    pub fn get(&self, x: usize, y: usize) -> (cell: &T)
        requires
            self.wf(),
            self.holds(x as int, y as int),
        ensures
            *cell == self.data@[cell_index(self.width as int, x as int, y as int)],
    {
        proof {
            lemma_cell_index_bound(self.width as int, self.height as int, x as int, y as int);
            assert(self.data@.len() == self.data.len());
        }
        &self.data[self.idx(x, y)]
    }

    /// Cell `(x, y)`, to be written: no other cell changes, nor the shape.
    pub fn get_mut(&mut self, x: usize, y: usize) -> (cell: &mut T)
        requires
            old(self).wf(),
            old(self).holds(x as int, y as int),
        ensures
            *cell == old(self).data@[cell_index(old(self).width as int, x as int, y as int)],
            final(self).data@ == old(self).data@.update(
                cell_index(old(self).width as int, x as int, y as int),
                *final(cell),
            ),
            final(self).width == old(self).width,
            final(self).height == old(self).height,
    {
        proof {
            lemma_cell_index_bound(self.width as int, self.height as int, x as int, y as int);
            assert(self.data@.len() == self.data.len());
        }
        let idx = self.idx(x, y);
        &mut self.data[idx]
    }
}

} // verus!
