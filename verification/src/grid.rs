use vstd::prelude::*;

verus! {

/// A grid of cells, stored row by row.
pub struct Grid<T: Copy> {
    pub width: usize,
    pub height: usize,
    pub cells: Vec<T>,
}

impl<T: Copy> Grid<T> {
    /// The place of cell `(i, j)` in the row-by-row order.
    pub open spec fn place(&self, i: usize, j: usize) -> int {
        self.width * j + i
    }

    /// The grid holds a cell for each column of each row.
    pub open spec fn wf(&self) -> bool {
        self.cells@.len() == self.width * self.height
    }

    /// A grid of `width` columns and `height` rows with `init` in every cell.
    pub fn new(width: usize, height: usize, init: T) -> (out: Self)
        requires
            width * height <= usize::MAX,
        ensures
            out.width == width,
            out.height == height,
            out.wf(),
            forall|k: int| 0 <= k < out.cells@.len() ==> out.cells@[k] == init,
    {
        let count = width * height;
        let mut cells: Vec<T> = Vec::new();
        let mut k: usize = 0;
        while k < count
            invariant
                k <= count,
                cells@.len() == k,
                forall|q: int| 0 <= q < k ==> cells@[q] == init,
            decreases count - k,
        {
            cells.push(init);
            k += 1;
        }
        Self { width, height, cells }
    }

    /// The cell in column `i` of row `j`, if the grid holds a cell at that place.
    pub fn get(&self, i: usize, j: usize) -> (out: Option<T>)
        requires
            self.width * j + i <= usize::MAX,
        ensures
            out == if self.place(i, j) < self.cells@.len() {
                Some(self.cells@[self.place(i, j)])
            } else {
                None
            },
    {
        let at = self.width * j + i;
        if at < self.cells.len() {
            Some(self.cells[at])
        } else {
            None
        }
    }

    /// Puts `c` into column `i` of row `j`, if the grid holds a cell at that place.
    pub fn set(&mut self, i: usize, j: usize, c: T)
        requires
            old(self).width * j + i <= usize::MAX,
        ensures
            final(self).width == old(self).width,
            final(self).height == old(self).height,
            final(self).cells@ == if old(self).place(i, j) < old(self).cells@.len() {
                old(self).cells@.update(old(self).place(i, j), c)
            } else {
                old(self).cells@
            },
    {
        let at = self.width * j + i;
        if at < self.cells.len() {
            self.cells[at] = c;
        }
    }
}

} // verus!
