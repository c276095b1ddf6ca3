use crate::board::lemma_row_major_index;
use vstd::prelude::*;

verus! {

/// Mathematical model of a standalone patch of cells.
#[verifier::ext_equal]
pub ghost struct SubGridModel {
    pub width: int,
    pub height: int,
    pub cells: Seq<bool>,
}

impl SubGridModel {
    pub open spec fn wf(self) -> bool {
        &&& 0 <= self.width
        &&& 0 <= self.height
        &&& self.cells.len() == self.width * self.height
    }

    /// The cell at `(x, y)`; coordinates outside the patch read as dead.
    pub open spec fn cell(self, x: int, y: int) -> bool {
        &&& 0 <= x < self.width
        &&& 0 <= y < self.height
        &&& self.cells[y * self.width + x]
    }
}

/// A standalone rectangular patch of live/dead cells, stored row-major,
/// independent of any board: the clipboard contents and the result of
/// extracting a selection.
#[derive(Debug)]
pub struct SubGrid {
    pub width: usize,
    pub height: usize,
    pub cells: Vec<bool>,
}

impl View for SubGrid {
    type V = SubGridModel;

    open spec fn view(&self) -> SubGridModel {
        SubGridModel {
            width: self.width as int,
            height: self.height as int,
            cells: self.cells@,
        }
    }
}

impl SubGrid {
    /// Bounds-checked read with a dead default outside the patch.
    pub fn get(&self, x: usize, y: usize) -> (r: bool)
        requires
            self@.wf(),
        ensures
            r == self@.cell(x as int, y as int),
    {
        if x < self.width && y < self.height {
            proof {
                assert(self.cells.len() == self@.cells.len());
                lemma_row_major_index(self@.width, self@.height, x as int, y as int);
            }
            self.cells[y * self.width + x]
        } else {
            false
        }
    }

    pub fn width(&self) -> (r: usize)
        ensures
            r == self@.width,
    {
        self.width
    }

    pub fn height(&self) -> (r: usize)
        ensures
            r == self@.height,
    {
        self.height
    }
}

} // verus!
