use crate::board::{lemma_row_major_index, Board, BoardModel};
use crate::subgrid::SubGrid;
use crate::util::VecU2;
use vstd::prelude::*;

verus! {

/// A rectangular region of a board, held as two inclusive, unordered
/// corner cells; the bounding box is derived on demand.
#[derive(Clone, Copy, PartialEq, Eq, Structural, Debug)]
pub struct Selection {
    pub start: VecU2,
    pub end: VecU2,
}

/// Direction of a quarter-turn rotation.
#[derive(Clone, Copy, PartialEq, Eq, Structural, Debug)]
pub enum Rotation {
    CW,
    CCW,
}

impl Selection {
    pub open spec fn min_x(self) -> int {
        if self.start.x <= self.end.x {
            self.start.x as int
        } else {
            self.end.x as int
        }
    }

    pub open spec fn max_x(self) -> int {
        if self.start.x <= self.end.x {
            self.end.x as int
        } else {
            self.start.x as int
        }
    }

    pub open spec fn min_y(self) -> int {
        if self.start.y <= self.end.y {
            self.start.y as int
        } else {
            self.end.y as int
        }
    }

    pub open spec fn max_y(self) -> int {
        if self.start.y <= self.end.y {
            self.end.y as int
        } else {
            self.start.y as int
        }
    }

    /// Whether `(x, y)` lies in the inclusive bounding box.
    pub open spec fn in_box(self, x: int, y: int) -> bool {
        self.min_x() <= x <= self.max_x() && self.min_y() <= y <= self.max_y()
    }

    /// Center of the bounding box, with floor-divided halves.
    pub open spec fn center_x(self) -> int {
        self.min_x() + (self.max_x() - self.min_x()) / 2
    }

    pub open spec fn center_y(self) -> int {
        self.min_y() + (self.max_y() - self.min_y()) / 2
    }

    /// The cell whose quarter-turn image about the box center lands on
    /// `(x, y)`: clockwise maps a center offset `(ox, oy)` to
    /// `(oy, -ox)`, counter-clockwise to `(-oy, ox)`.
    pub open spec fn rot_src(self, dir: Rotation, x: int, y: int) -> (int, int) {
        match dir {
            Rotation::CW => (
                self.center_x() + self.center_y() - y,
                self.center_y() + x - self.center_x(),
            ),
            Rotation::CCW => (
                self.center_x() + y - self.center_y(),
                self.center_y() + self.center_x() - x,
            ),
        }
    }

    /// Whether the rotation writes a live cell at `(x, y)`: the source
    /// cell that lands there lies in the box and is live on `m`.
    pub open spec fn rotated_live(self, m: BoardModel, dir: Rotation, x: int, y: int) -> bool {
        &&& self.in_box(self.rot_src(dir, x, y).0, self.rot_src(dir, x, y).1)
        &&& m.cell(self.rot_src(dir, x, y).0, self.rot_src(dir, x, y).1)
    }

    /// What a quarter-turn rotation does to the board, cell by cell:
    /// a cell the rotation writes becomes live, a cleared box cell
    /// that receives nothing becomes dead, and everything else keeps
    /// its value.
    pub open spec fn rotate_effect(self, pre: BoardModel, post: BoardModel, dir: Rotation) -> bool {
        &&& post.width == pre.width
        &&& post.height == pre.height
        &&& post.run_count == pre.run_count
        &&& forall|x: int, y: int|
            #[trigger] post.cell(x, y) == if self.rotated_live(pre, dir, x, y) {
                0 <= x < pre.width && 0 <= y < pre.height
            } else if self.in_box(x, y) {
                false
            } else {
                pre.cell(x, y)
            }
    }

    /// The returned selection of a rotation spans exactly the cells
    /// written to the board: its corners are ordered, every written
    /// cell lies between them, and each of its four bounds is
    /// attained by a written cell.
    pub open spec fn rotate_bounds(self, pre: BoardModel, dir: Rotation, out: Selection) -> bool {
        &&& out.start.x <= out.end.x
        &&& out.start.y <= out.end.y
        &&& forall|x: int, y: int|
            #[trigger] self.rotated_live(pre, dir, x, y) && 0 <= x < pre.width && 0 <= y
                < pre.height ==> out.start.x <= x <= out.end.x && out.start.y <= y <= out.end.y
        &&& exists|x: int, y: int|
            #[trigger] self.rotated_live(pre, dir, x, y) && 0 <= x < pre.width && 0 <= y
                < pre.height && x == out.start.x
        &&& exists|x: int, y: int|
            #[trigger] self.rotated_live(pre, dir, x, y) && 0 <= x < pre.width && 0 <= y
                < pre.height && x == out.end.x
        &&& exists|x: int, y: int|
            #[trigger] self.rotated_live(pre, dir, x, y) && 0 <= x < pre.width && 0 <= y
                < pre.height && y == out.start.y
        &&& exists|x: int, y: int|
            #[trigger] self.rotated_live(pre, dir, x, y) && 0 <= x < pre.width && 0 <= y
                < pre.height && y == out.end.y
    }

    /// A zero-area selection anchored at one cell.
    pub fn new(x: usize, y: usize) -> (r: Self)
        ensures
            r.start == (VecU2 { x, y }),
            r.end == (VecU2 { x, y }),
    {
        Selection { start: VecU2::new(x, y), end: VecU2::new(x, y) }
    }

    pub fn width(&self) -> (r: usize)
        ensures
            r == self.max_x() - self.min_x(),
    {
        if self.start.x >= self.end.x {
            self.start.x - self.end.x
        } else {
            self.end.x - self.start.x
        }
    }

    pub fn height(&self) -> (r: usize)
        ensures
            r == self.max_y() - self.min_y(),
    {
        if self.start.y >= self.end.y {
            self.start.y - self.end.y
        } else {
            self.end.y - self.start.y
        }
    }

    pub fn wh(&self) -> (r: (usize, usize))
        ensures
            r.0 == self.max_x() - self.min_x(),
            r.1 == self.max_y() - self.min_y(),
    {
        (self.width(), self.height())
    }

    /// The inclusive bounding box as `(min_x, min_y, max_x, max_y)`,
    /// derived from the unordered corners.
    pub fn bounding_box(&self) -> (r: (usize, usize, usize, usize))
        ensures
            r.0 == self.min_x(),
            r.1 == self.min_y(),
            r.2 == self.max_x(),
            r.3 == self.max_y(),
    {
        let minx = if self.start.x <= self.end.x {
            self.start.x
        } else {
            self.end.x
        };
        let maxx = if self.start.x <= self.end.x {
            self.end.x
        } else {
            self.start.x
        };
        let miny = if self.start.y <= self.end.y {
            self.start.y
        } else {
            self.end.y
        };
        let maxy = if self.start.y <= self.end.y {
            self.end.y
        } else {
            self.start.y
        };
        (minx, miny, maxx, maxy)
    }

    /// Copies the bounded rectangle (inclusive on both ends) out of
    /// the board, row-major; parts of the box beyond the board edge
    /// read as dead.
    pub fn get_inner_tiles(&self, board: &Board) -> (r: SubGrid)
        requires
            board@.wf(),
            (self.max_x() - self.min_x() + 1) * (self.max_y() - self.min_y() + 1) <= usize::MAX,
        ensures
            r@.wf(),
            r@.width == self.max_x() - self.min_x() + 1,
            r@.height == self.max_y() - self.min_y() + 1,
            forall|dx: int, dy: int|
                #[trigger] r@.cell(dx, dy) == (0 <= dx <= self.max_x() - self.min_x() && 0 <= dy
                    <= self.max_y() - self.min_y() && board@.cell(
                    self.min_x() + dx,
                    self.min_y() + dy,
                )),
    {
        let minx = if self.start.x <= self.end.x {
            self.start.x
        } else {
            self.end.x
        };
        let miny = if self.start.y <= self.end.y {
            self.start.y
        } else {
            self.end.y
        };
        proof {
            let ghost a = self.max_x() - self.min_x();
            let ghost b = self.max_y() - self.min_y();
            assert(a + 1 <= usize::MAX as int && b + 1 <= usize::MAX as int) by (nonlinear_arith)
                requires
                    (a + 1) * (b + 1) <= usize::MAX as int,
                    0 <= a,
                    0 <= b,
            ;
        }
        let w = self.width() + 1;
        let h = self.height() + 1;
        let n = w * h;
        let mut cells: Vec<bool> = Vec::new();
        let mut i: usize = 0;
        while i < n
            invariant
                board@.wf(),
                n == w * h,
                1 <= w,
                1 <= h,
                minx == self.min_x(),
                miny == self.min_y(),
                w == self.max_x() - self.min_x() + 1,
                h == self.max_y() - self.min_y() + 1,
                minx + w - 1 == self.max_x(),
                miny + h - 1 == self.max_y(),
                i <= n,
                cells@.len() == i,
                forall|j: int|
                    0 <= j < i ==> cells@[j] == board@.cell(
                        minx + j % (w as int),
                        miny + j / (w as int),
                    ),
            decreases n - i,
        {
            let dx = i % w;
            let dy = i / w;
            proof {
                let ghost wi = w as int;
                let ghost hi = h as int;
                assert((dy as int) < hi) by (nonlinear_arith)
                    requires
                        (i as int) < (n as int),
                        (n as int) == wi * hi,
                        wi > 0,
                        0 <= i,
                        (dy as int) == (i as int) / wi,
                ;
            }
            let v = board.live(minx + dx, miny + dy);
            cells.push(v);
            i += 1;
        }
        let r = SubGrid { width: w, height: h, cells };
        proof {
            assert forall|dx: int, dy: int|
                #[trigger] r@.cell(dx, dy) == (0 <= dx <= self.max_x() - self.min_x() && 0 <= dy
                    <= self.max_y() - self.min_y() && board@.cell(
                    self.min_x() + dx,
                    self.min_y() + dy,
                )) by {
                if 0 <= dx < w && 0 <= dy < h {
                    lemma_row_major_index(w as int, h as int, dx, dy);
                }
            }
        }
        r
    }

    /// Stores the extracted rectangle into the clipboard.
    pub fn copy(&self, board: &Board, clipboard: &mut Option<SubGrid>)
        requires
            board@.wf(),
            (self.max_x() - self.min_x() + 1) * (self.max_y() - self.min_y() + 1) <= usize::MAX,
        ensures
            (*final(clipboard)) is Some,
            (*final(clipboard))->Some_0@.wf(),
            (*final(clipboard))->Some_0@.width == self.max_x() - self.min_x() + 1,
            (*final(clipboard))->Some_0@.height == self.max_y() - self.min_y() + 1,
            forall|dx: int, dy: int|
                #[trigger] (*final(clipboard))->Some_0@.cell(dx, dy) == (0 <= dx <= self.max_x()
                    - self.min_x() && 0 <= dy <= self.max_y() - self.min_y() && board@.cell(
                    self.min_x() + dx,
                    self.min_y() + dy,
                )),
    {
        *clipboard = Some(self.get_inner_tiles(board));
    }

    /// Sets every cell of the bounding box to dead; parts of the box
    /// beyond the board edge are ignored.
    pub fn clear(&self, board: &mut Board)
        requires
            old(board)@.wf(),
            self.max_x() - self.min_x() < usize::MAX,
            self.max_y() - self.min_y() < usize::MAX,
        ensures
            final(board)@.wf(),
            final(board)@.width == old(board)@.width,
            final(board)@.height == old(board)@.height,
            final(board)@.run_count == old(board)@.run_count,
            forall|x: int, y: int|
                #[trigger] final(board)@.cell(x, y) == (!self.in_box(x, y) && old(board)@.cell(
                    x,
                    y,
                )),
    {
        let w = board.width();
        let h = board.height();
        let n = board.tiles.len();
        let mut next: Vec<bool> = Vec::new();
        let mut i: usize = 0;
        let minx = if self.start.x <= self.end.x {
            self.start.x
        } else {
            self.end.x
        };
        let maxx = if self.start.x <= self.end.x {
            self.end.x
        } else {
            self.start.x
        };
        let miny = if self.start.y <= self.end.y {
            self.start.y
        } else {
            self.end.y
        };
        let maxy = if self.start.y <= self.end.y {
            self.end.y
        } else {
            self.start.y
        };
        while i < n
            invariant
                board@ == old(board)@,
                board@.wf(),
                w == board@.width,
                h == board@.height,
                n == board@.cells.len(),
                minx == self.min_x(),
                maxx == self.max_x(),
                miny == self.min_y(),
                maxy == self.max_y(),
                i <= n,
                next@.len() == i,
                forall|j: int|
                    0 <= j < i ==> next@[j] == (!self.in_box(
                        j % (w as int),
                        j / (w as int),
                    ) && board@.cell(j % (w as int), j / (w as int))),
            decreases n - i,
        {
            proof {
                let ghost hi = board@.height;
                assert(w > 0) by (nonlinear_arith)
                    requires
                        (n as int) == (w as int) * hi,
                        (i as int) < (n as int),
                        0 <= i,
                ;
            }
            let x = i % w;
            let y = i / w;
            let inside = minx <= x && x <= maxx && miny <= y && y <= maxy;
            let val = if inside {
                false
            } else {
                board.live(x, y)
            };
            next.push(val);
            i += 1;
        }
        board.tiles = next;
        proof {
            assert forall|x: int, y: int|
                #[trigger] board@.cell(x, y) == (!self.in_box(x, y) && old(board)@.cell(
                    x,
                    y,
                )) by {
                if 0 <= x < board@.width && 0 <= y < board@.height {
                    lemma_row_major_index(board@.width, board@.height, x, y);
                }
            }
        }
    }

    /// Moves the box contents by `(dx, dy)`: the box is cleared and
    /// its live cells are rewritten shifted, cells pushed past the
    /// board edge being dropped. Returns the selection with both
    /// corners shifted by the same delta.
    pub fn translate(&self, board: &mut Board, dx: isize, dy: isize) -> (r: Selection)
        requires
            old(board)@.wf(),
            0 <= self.start.x + dx <= usize::MAX,
            0 <= self.start.y + dy <= usize::MAX,
            0 <= self.end.x + dx <= usize::MAX,
            0 <= self.end.y + dy <= usize::MAX,
        ensures
            final(board)@.wf(),
            final(board)@.width == old(board)@.width,
            final(board)@.height == old(board)@.height,
            final(board)@.run_count == old(board)@.run_count,
            r.start.x == self.start.x + dx,
            r.start.y == self.start.y + dy,
            r.end.x == self.end.x + dx,
            r.end.y == self.end.y + dy,
            forall|x: int, y: int|
                #[trigger] final(board)@.cell(x, y) == if self.in_box(x - dx, y - dy) && old(
                    board,
                )@.cell(x - dx, y - dy) {
                    0 <= x < old(board)@.width && 0 <= y < old(board)@.height
                } else if self.in_box(x, y) {
                    false
                } else {
                    old(board)@.cell(x, y)
                },
    {
        let w = board.width();
        let n = board.tiles.len();
        let minx = if self.start.x <= self.end.x {
            self.start.x
        } else {
            self.end.x
        };
        let maxx = if self.start.x <= self.end.x {
            self.end.x
        } else {
            self.start.x
        };
        let miny = if self.start.y <= self.end.y {
            self.start.y
        } else {
            self.end.y
        };
        let maxy = if self.start.y <= self.end.y {
            self.end.y
        } else {
            self.start.y
        };
        let dxw: i128 = dx as i128;
        let dyw: i128 = dy as i128;
        let mut next: Vec<bool> = Vec::new();
        let mut i: usize = 0;
        while i < n
            invariant
                board@ == old(board)@,
                board@.wf(),
                w == board@.width,
                n == board@.cells.len(),
                minx == self.min_x(),
                maxx == self.max_x(),
                miny == self.min_y(),
                maxy == self.max_y(),
                dxw == dx as int,
                dyw == dy as int,
                i <= n,
                next@.len() == i,
                forall|j: int|
                    0 <= j < i ==> next@[j] == if self.in_box(
                        j % (w as int) - dx,
                        j / (w as int) - dy,
                    ) && board@.cell(j % (w as int) - dx, j / (w as int) - dy) {
                        true
                    } else if self.in_box(j % (w as int), j / (w as int)) {
                        false
                    } else {
                        board@.cell(j % (w as int), j / (w as int))
                    },
            decreases n - i,
        {
            proof {
                let ghost hi = board@.height;
                assert(w > 0) by (nonlinear_arith)
                    requires
                        (n as int) == (w as int) * hi,
                        (i as int) < (n as int),
                        0 <= i,
                ;
            }
            let x = i % w;
            let y = i / w;
            let sx: i128 = x as i128 - dxw;
            let sy: i128 = y as i128 - dyw;
            let src_in_box = minx as i128 <= sx && sx <= maxx as i128 && miny as i128 <= sy && sy
                <= maxy as i128;
            let val = if src_in_box && board.live_wide(sx, sy) {
                true
            } else if minx <= x && x <= maxx && miny <= y && y <= maxy {
                false
            } else {
                board.live(x, y)
            };
            next.push(val);
            i += 1;
        }
        board.tiles = next;
        proof {
            assert forall|x: int, y: int|
                #[trigger] board@.cell(x, y) == if self.in_box(x - dx, y - dy) && old(
                    board,
                )@.cell(x - dx, y - dy) {
                    0 <= x < old(board)@.width && 0 <= y < old(board)@.height
                } else if self.in_box(x, y) {
                    false
                } else {
                    old(board)@.cell(x, y)
                } by {
                if 0 <= x < board@.width && 0 <= y < board@.height {
                    lemma_row_major_index(board@.width, board@.height, x, y);
                }
            }
        }
        let nsx = ((self.start.x as i128) + dxw) as usize;
        let nsy = ((self.start.y as i128) + dyw) as usize;
        let nex = ((self.end.x as i128) + dxw) as usize;
        let ney = ((self.end.y as i128) + dyw) as usize;
        Selection { start: VecU2::new(nsx, nsy), end: VecU2::new(nex, ney) }
    }

    /// Rotates the box contents a quarter turn about the box center:
    /// the box is cleared and each live cell is rewritten at its
    /// rotated position, cells pushed past the board edge being
    /// dropped. Returns the selection spanning the cells actually
    /// written to the board, or `None` when none was.
    pub fn rotate(&self, board: &mut Board, dir: Rotation) -> (r: Option<Selection>)
        requires
            old(board)@.wf(),
        ensures
            final(board)@.wf(),
            self.rotate_effect(old(board)@, final(board)@, dir),
            (match r {
                Some(sel) => self.rotate_bounds(old(board)@, dir, sel),
                None => forall|x: int, y: int|
                    0 <= x < old(board)@.width && 0 <= y < old(board)@.height
                        ==> !#[trigger] self.rotated_live(old(board)@, dir, x, y),
            }),
    {
        let w = board.width();
        let n = board.tiles.len();
        let minx = if self.start.x <= self.end.x {
            self.start.x
        } else {
            self.end.x
        };
        let maxx = if self.start.x <= self.end.x {
            self.end.x
        } else {
            self.start.x
        };
        let miny = if self.start.y <= self.end.y {
            self.start.y
        } else {
            self.end.y
        };
        let maxy = if self.start.y <= self.end.y {
            self.end.y
        } else {
            self.start.y
        };
        let cx: i128 = minx as i128 + ((maxx - minx) / 2) as i128;
        let cy: i128 = miny as i128 + ((maxy - miny) / 2) as i128;

        let mut found = false;
        let mut bminx: usize = 0;
        let mut bmaxx: usize = 0;
        let mut bminy: usize = 0;
        let mut bmaxy: usize = 0;

        let mut next: Vec<bool> = Vec::new();
        let mut i: usize = 0;
        while i < n
            invariant
                board@ == old(board)@,
                board@.wf(),
                w == board@.width,
                n == board@.cells.len(),
                minx == self.min_x(),
                maxx == self.max_x(),
                miny == self.min_y(),
                maxy == self.max_y(),
                cx as int == self.center_x(),
                cy as int == self.center_y(),
                i <= n,
                next@.len() == i,
                forall|j: int|
                    0 <= j < i ==> next@[j] == if self.rotated_live(
                        board@,
                        dir,
                        j % (w as int),
                        j / (w as int),
                    ) {
                        true
                    } else if self.in_box(j % (w as int), j / (w as int)) {
                        false
                    } else {
                        board@.cell(j % (w as int), j / (w as int))
                    },
                found ==> {
                    &&& bminx <= bmaxx < w
                    &&& bminy <= bmaxy
                    &&& forall|x: int, y: int|
                        #[trigger] self.rotated_live(board@, dir, x, y) && 0 <= x < board@.width
                            && 0 <= y < board@.height && y * board@.width + x < i ==> bminx <= x
                            <= bmaxx && bminy <= y <= bmaxy
                    &&& exists|x: int, y: int|
                        #[trigger] self.rotated_live(board@, dir, x, y) && 0 <= x < board@.width
                            && 0 <= y < board@.height && y * board@.width + x < i && x == bminx
                    &&& exists|x: int, y: int|
                        #[trigger] self.rotated_live(board@, dir, x, y) && 0 <= x < board@.width
                            && 0 <= y < board@.height && y * board@.width + x < i && x == bmaxx
                    &&& exists|x: int, y: int|
                        #[trigger] self.rotated_live(board@, dir, x, y) && 0 <= x < board@.width
                            && 0 <= y < board@.height && y * board@.width + x < i && y == bminy
                    &&& exists|x: int, y: int|
                        #[trigger] self.rotated_live(board@, dir, x, y) && 0 <= x < board@.width
                            && 0 <= y < board@.height && y * board@.width + x < i && y == bmaxy
                },
                !found ==> forall|x: int, y: int|
                    0 <= x < board@.width && 0 <= y < board@.height && y * board@.width + x < i
                        ==> !#[trigger] self.rotated_live(board@, dir, x, y),
            decreases n - i,
        {
            proof {
                let ghost hi = board@.height;
                assert(w > 0) by (nonlinear_arith)
                    requires
                        (n as int) == (w as int) * hi,
                        (i as int) < (n as int),
                        0 <= i,
                ;
            }
            let x = i % w;
            let y = i / w;
            proof {
                let ghost hi = board@.height;
                assert((y as int) < hi) by (nonlinear_arith)
                    requires
                        (i as int) < (n as int),
                        (n as int) == (w as int) * hi,
                        w > 0,
                        0 <= i,
                        (y as int) == (i as int) / (w as int),
                ;
                lemma_row_major_index(w as int, hi, x as int, y as int);
                vstd::arithmetic::div_mod::lemma_fundamental_div_mod(i as int, w as int);
                assert((y as int) * (w as int) + (x as int) == i as int);
            }
            let (sx, sy): (i128, i128) = match dir {
                Rotation::CW => (cx + cy - y as i128, cy + x as i128 - cx),
                Rotation::CCW => (cx + y as i128 - cy, cy + cx - x as i128),
            };
            let src_in_box = minx as i128 <= sx && sx <= maxx as i128 && miny as i128 <= sy && sy
                <= maxy as i128;
            let src_live = src_in_box && board.live_wide(sx, sy);
            proof {
                assert(src_live == self.rotated_live(board@, dir, x as int, y as int));
            }
            let val = if src_live {
                true
            } else if minx <= x && x <= maxx && miny <= y && y <= maxy {
                false
            } else {
                board.live(x, y)
            };
            if src_live {
                if !found {
                    found = true;
                    bminx = x;
                    bmaxx = x;
                    bminy = y;
                    bmaxy = y;
                } else {
                    if x < bminx {
                        bminx = x;
                    }
                    if x > bmaxx {
                        bmaxx = x;
                    }
                    if y < bminy {
                        bminy = y;
                    }
                    if y > bmaxy {
                        bmaxy = y;
                    }
                }
            }
            next.push(val);
            i += 1;
            proof {
                assert forall|px: int, py: int|
                    #![trigger py * board@.width + px]
                    0 <= px < board@.width && 0 <= py < board@.height && py * board@.width + px
                        < i implies (py * board@.width + px < i - 1 || (px == x as int && py
                    == y as int)) by {
                    lemma_row_major_index(board@.width, board@.height, px, py);
                }
            }
        }
        board.tiles = next;
        proof {
            assert forall|x: int, y: int|
                #[trigger] board@.cell(x, y) == if self.rotated_live(
                    old(board)@,
                    dir,
                    x,
                    y,
                ) {
                    0 <= x < old(board)@.width && 0 <= y < old(board)@.height
                } else if self.in_box(x, y) {
                    false
                } else {
                    old(board)@.cell(x, y)
                } by {
                if 0 <= x < board@.width && 0 <= y < board@.height {
                    lemma_row_major_index(board@.width, board@.height, x, y);
                }
            }
            assert forall|x: int, y: int|
                #![trigger y * old(board)@.width + x]
                0 <= x < old(board)@.width && 0 <= y < old(board)@.height implies y * old(
                board,
            )@.width + x < n by {
                lemma_row_major_index(old(board)@.width, old(board)@.height, x, y);
            }
        }
        if found {
            Some(
                Selection {
                    start: VecU2::new(bminx, bminy),
                    end: VecU2::new(bmaxx, bmaxy),
                },
            )
        } else {
            None
        }
    }

    /// One clockwise quarter turn, made exact: when the box is
    /// `[cx-a, cx+a] x [cy-b, cy+b]`, its content touches all four box
    /// edges, both this box and its quarter-turn image
    /// `[cx-b, cx+b] x [cy-a, cy+a]` lie on the board, and the image
    /// box carries no stray live cells outside the original box, then
    /// the returned selection is exactly the image box, every image
    /// cell holds the value of its preimage, and the same side
    /// conditions hold again for the next turn.
    proof fn lemma_rotate_cw_exact(
        self,
        m: BoardModel,
        m2: BoardModel,
        out: Selection,
        cx: int,
        cy: int,
        a: int,
        b: int,
    )
        requires
            0 <= a,
            0 <= b,
            self.min_x() == cx - a,
            self.max_x() == cx + a,
            self.min_y() == cy - b,
            self.max_y() == cy + b,
            0 <= cx - a,
            cx + a < m.width,
            0 <= cy - b,
            cy + b < m.height,
            0 <= cx - b,
            cx + b < m.width,
            0 <= cy - a,
            cy + a < m.height,
            exists|y: int| cy - b <= y <= cy + b && #[trigger] m.cell(cx - a, y),
            exists|y: int| cy - b <= y <= cy + b && #[trigger] m.cell(cx + a, y),
            exists|x: int| cx - a <= x <= cx + a && #[trigger] m.cell(x, cy - b),
            exists|x: int| cx - a <= x <= cx + a && #[trigger] m.cell(x, cy + b),
            forall|x: int, y: int|
                cx - b <= x <= cx + b && cy - a <= y <= cy + a && !(cx - a <= x <= cx + a && cy - b
                    <= y <= cy + b) ==> !#[trigger] m.cell(x, y),
            self.rotate_effect(m, m2, Rotation::CW),
            self.rotate_bounds(m, Rotation::CW, out),
        ensures
            out.start.x == cx - b,
            out.start.y == cy - a,
            out.end.x == cx + b,
            out.end.y == cy + a,
            m2.width == m.width,
            m2.height == m.height,
            forall|x: int, y: int|
                #[trigger] m2.cell(x, y) == if cx - b <= x <= cx + b && cy - a <= y <= cy + a {
                    m.cell(cx + cy - y, cy + x - cx)
                } else if cx - a <= x <= cx + a && cy - b <= y <= cy + b {
                    false
                } else {
                    m.cell(x, y)
                },
            exists|y: int| cy - a <= y <= cy + a && #[trigger] m2.cell(cx - b, y),
            exists|y: int| cy - a <= y <= cy + a && #[trigger] m2.cell(cx + b, y),
            exists|x: int| cx - b <= x <= cx + b && #[trigger] m2.cell(x, cy - a),
            exists|x: int| cx - b <= x <= cx + b && #[trigger] m2.cell(x, cy + a),
            forall|x: int, y: int|
                cx - a <= x <= cx + a && cy - b <= y <= cy + b && !(cx - b <= x <= cx + b && cy - a
                    <= y <= cy + a) ==> !#[trigger] m2.cell(x, y),
    {
        // A cell is written at (x, y) exactly when its preimage
        // (cx+cy-y, cy+x-cx) lies in the box and is live; such targets
        // fill the image box.
        assert forall|x: int, y: int|
            #[trigger] self.rotated_live(m, Rotation::CW, x, y) implies cx - b <= x <= cx + b
            && cy - a <= y <= cy + a && 0 <= x < m.width && 0 <= y < m.height by {}

        // Cell-for-cell effect over the image box.
        assert forall|x: int, y: int|
            #[trigger] m2.cell(x, y) == if cx - b <= x <= cx + b && cy - a <= y <= cy + a {
                m.cell(cx + cy - y, cy + x - cx)
            } else if cx - a <= x <= cx + a && cy - b <= y <= cy + b {
                false
            } else {
                m.cell(x, y)
            } by {
            if cx - b <= x <= cx + b && cy - a <= y <= cy + a {
                if m.cell(cx + cy - y, cy + x - cx) {
                    assert(self.rotated_live(m, Rotation::CW, x, y));
                } else {
                    assert(!self.rotated_live(m, Rotation::CW, x, y));
                }
            }
        }

        // Each spanning witness of the box maps to a spanning witness
        // of the image box.
        let wy1 = choose|y: int| cy - b <= y <= cy + b && #[trigger] m.cell(cx - a, y);
        let wy2 = choose|y: int| cy - b <= y <= cy + b && #[trigger] m.cell(cx + a, y);
        let wx1 = choose|x: int| cx - a <= x <= cx + a && #[trigger] m.cell(x, cy - b);
        let wx2 = choose|x: int| cx - a <= x <= cx + a && #[trigger] m.cell(x, cy + b);
        // column cx - a  ->  row cy + a of the image box
        assert(m2.cell(cx + wy1 - cy, cy + a));
        assert(self.rotated_live(m, Rotation::CW, cx + wy1 - cy, cy + a));
        // column cx + a  ->  row cy - a
        assert(m2.cell(cx + wy2 - cy, cy - a));
        assert(self.rotated_live(m, Rotation::CW, cx + wy2 - cy, cy - a));
        // row cy - b  ->  column cx - b
        assert(m2.cell(cx - b, cy + cx - wx1));
        assert(self.rotated_live(m, Rotation::CW, cx - b, cy + cx - wx1));
        // row cy + b  ->  column cx + b
        assert(m2.cell(cx + b, cy + cx - wx2));
        assert(self.rotated_live(m, Rotation::CW, cx + b, cy + cx - wx2));

        // The returned corners are pinned by the written cells.
        assert(out.start.x <= cx - b && cx - b <= out.end.x);
        assert(out.start.y <= cy - a && cy - a <= out.end.y);
        assert(out.end.x >= cx + b && out.end.y >= cy + a);
        let (px1, py1) = choose|x: int, y: int|
            #[trigger] self.rotated_live(m, Rotation::CW, x, y) && 0 <= x < m.width && 0 <= y
                < m.height && x == out.start.x;
        let (px2, py2) = choose|x: int, y: int|
            #[trigger] self.rotated_live(m, Rotation::CW, x, y) && 0 <= x < m.width && 0 <= y
                < m.height && x == out.end.x;
        let (px3, py3) = choose|x: int, y: int|
            #[trigger] self.rotated_live(m, Rotation::CW, x, y) && 0 <= x < m.width && 0 <= y
                < m.height && y == out.start.y;
        let (px4, py4) = choose|x: int, y: int|
            #[trigger] self.rotated_live(m, Rotation::CW, x, y) && 0 <= x < m.width && 0 <= y
                < m.height && y == out.end.y;
        assert(out.start.x == cx - b && out.end.x == cx + b);
        assert(out.start.y == cy - a && out.end.y == cy + a);
    }

    /// Law: four clockwise quarter turns restore the original
    /// pattern at its original position. It holds when the selection
    /// box has odd-by-odd dimensions and is spanned by its content,
    /// both the box and its quarter-turn image lie on the board, and
    /// the image box carries no stray live cells outside the original
    /// box; each turn acts on the selection the previous one
    /// returned. The final selection is the original box with ordered
    /// corners.
    #[verifier::rlimit(100)]
    pub proof fn lemma_rotate_cycle_restores(
        self,
        m0: BoardModel,
        m1: BoardModel,
        s1: Selection,
        m2: BoardModel,
        s2: Selection,
        m3: BoardModel,
        s3: Selection,
        m4: BoardModel,
        s4: Selection,
    )
        requires
            (self.max_x() - self.min_x()) % 2 == 0,
            (self.max_y() - self.min_y()) % 2 == 0,
            self.max_x() < m0.width,
            self.max_y() < m0.height,
            0 <= self.center_x() - (self.max_y() - self.min_y()) / 2,
            self.center_x() + (self.max_y() - self.min_y()) / 2 < m0.width,
            0 <= self.center_y() - (self.max_x() - self.min_x()) / 2,
            self.center_y() + (self.max_x() - self.min_x()) / 2 < m0.height,
            exists|y: int| self.min_y() <= y <= self.max_y() && #[trigger] m0.cell(self.min_x(), y),
            exists|y: int| self.min_y() <= y <= self.max_y() && #[trigger] m0.cell(self.max_x(), y),
            exists|x: int| self.min_x() <= x <= self.max_x() && #[trigger] m0.cell(x, self.min_y()),
            exists|x: int| self.min_x() <= x <= self.max_x() && #[trigger] m0.cell(x, self.max_y()),
            forall|x: int, y: int|
                self.center_x() - (self.max_y() - self.min_y()) / 2 <= x <= self.center_x() + (
                self.max_y() - self.min_y()) / 2 && self.center_y() - (self.max_x() - self.min_x())
                    / 2 <= y <= self.center_y() + (self.max_x() - self.min_x()) / 2 && !self.in_box(
                    x,
                    y,
                ) ==> !#[trigger] m0.cell(x, y),
            self.rotate_effect(m0, m1, Rotation::CW),
            self.rotate_bounds(m0, Rotation::CW, s1),
            s1.rotate_effect(m1, m2, Rotation::CW),
            s1.rotate_bounds(m1, Rotation::CW, s2),
            s2.rotate_effect(m2, m3, Rotation::CW),
            s2.rotate_bounds(m2, Rotation::CW, s3),
            s3.rotate_effect(m3, m4, Rotation::CW),
            s3.rotate_bounds(m3, Rotation::CW, s4),
        ensures
            forall|x: int, y: int| #[trigger] m4.cell(x, y) == m0.cell(x, y),
            s4.start.x == self.min_x(),
            s4.start.y == self.min_y(),
            s4.end.x == self.max_x(),
            s4.end.y == self.max_y(),
    {
        let cx = self.center_x();
        let cy = self.center_y();
        let a = (self.max_x() - self.min_x()) / 2;
        let b = (self.max_y() - self.min_y()) / 2;
        assert(self.min_x() == cx - a && self.max_x() == cx + a);
        assert(self.min_y() == cy - b && self.max_y() == cy + b);

        self.lemma_rotate_cw_exact(m0, m1, s1, cx, cy, a, b);
        assert(s1.min_x() == cx - b && s1.max_x() == cx + b);
        assert(s1.min_y() == cy - a && s1.max_y() == cy + a);
        assert(s1.center_x() == cx && s1.center_y() == cy);
        s1.lemma_rotate_cw_exact(m1, m2, s2, cx, cy, b, a);
        assert(s2.min_x() == cx - a && s2.max_x() == cx + a);
        assert(s2.min_y() == cy - b && s2.max_y() == cy + b);
        assert(s2.center_x() == cx && s2.center_y() == cy);
        s2.lemma_rotate_cw_exact(m2, m3, s3, cx, cy, a, b);
        assert(s3.min_x() == cx - b && s3.max_x() == cx + b);
        assert(s3.min_y() == cy - a && s3.max_y() == cy + a);
        assert(s3.center_x() == cx && s3.center_y() == cy);
        s3.lemma_rotate_cw_exact(m3, m4, s4, cx, cy, b, a);

        Self::lemma_cycle_cells(m0, m1, m2, m3, m4, cx, cy, a, b);
    }

    /// The cell-level composition of four exact quarter turns: each
    /// cell of the box comes back through the chain of preimages, the
    /// image box stays dead outside the box, and everything else is
    /// untouched.
    proof fn lemma_cycle_cells(
        m0: BoardModel,
        m1: BoardModel,
        m2: BoardModel,
        m3: BoardModel,
        m4: BoardModel,
        cx: int,
        cy: int,
        a: int,
        b: int,
    )
        requires
            forall|x: int, y: int|
                cx - b <= x <= cx + b && cy - a <= y <= cy + a && !(cx - a <= x <= cx + a && cy - b
                    <= y <= cy + b) ==> !#[trigger] m0.cell(x, y),
            forall|x: int, y: int|
                #[trigger] m1.cell(x, y) == if cx - b <= x <= cx + b && cy - a <= y <= cy + a {
                    m0.cell(cx + cy - y, cy + x - cx)
                } else if cx - a <= x <= cx + a && cy - b <= y <= cy + b {
                    false
                } else {
                    m0.cell(x, y)
                },
            forall|x: int, y: int|
                #[trigger] m2.cell(x, y) == if cx - a <= x <= cx + a && cy - b <= y <= cy + b {
                    m1.cell(cx + cy - y, cy + x - cx)
                } else if cx - b <= x <= cx + b && cy - a <= y <= cy + a {
                    false
                } else {
                    m1.cell(x, y)
                },
            forall|x: int, y: int|
                #[trigger] m3.cell(x, y) == if cx - b <= x <= cx + b && cy - a <= y <= cy + a {
                    m2.cell(cx + cy - y, cy + x - cx)
                } else if cx - a <= x <= cx + a && cy - b <= y <= cy + b {
                    false
                } else {
                    m2.cell(x, y)
                },
            forall|x: int, y: int|
                #[trigger] m4.cell(x, y) == if cx - a <= x <= cx + a && cy - b <= y <= cy + b {
                    m3.cell(cx + cy - y, cy + x - cx)
                } else if cx - b <= x <= cx + b && cy - a <= y <= cy + a {
                    false
                } else {
                    m3.cell(x, y)
                },
        ensures
            forall|x: int, y: int| #[trigger] m4.cell(x, y) == m0.cell(x, y),
    {
        assert forall|x: int, y: int| #[trigger] m4.cell(x, y) == m0.cell(x, y) by {
            if cx - a <= x <= cx + a && cy - b <= y <= cy + b {
                // inside the original box: the cell comes back through
                // all four quarter turns
                let (x3, y3) = (cx + cy - y, cy + x - cx);
                let (x2, y2) = (cx + cy - y3, cy + x3 - cx);
                let (x1, y1) = (cx + cy - y2, cy + x2 - cx);
                assert(m4.cell(x, y) == m3.cell(x3, y3));
                assert(m3.cell(x3, y3) == m2.cell(x2, y2));
                assert(m2.cell(x2, y2) == m1.cell(x1, y1));
                assert(m1.cell(x1, y1) == m0.cell(x, y));
            } else if cx - b <= x <= cx + b && cy - a <= y <= cy + a {
                // inside the image box only: dead before and after
                assert(!m0.cell(x, y));
                assert(!m4.cell(x, y));
            } else {
                // untouched by every turn
                assert(m4.cell(x, y) == m3.cell(x, y));
                assert(m3.cell(x, y) == m2.cell(x, y));
                assert(m2.cell(x, y) == m1.cell(x, y));
                assert(m1.cell(x, y) == m0.cell(x, y));
            }
        }
    }

    /// Writes the clipboard contents with their top-left corner at
    /// `(x, y)` and returns the selection spanning the pasted
    /// rectangle; with an empty clipboard nothing happens.
    pub fn paste(board: &mut Board, clipboard: &Option<SubGrid>, x: usize, y: usize) -> (r: Option<
        Selection,
    >)
        requires
            old(board)@.wf(),
            (match *clipboard {
                Some(c) => c@.wf() && 1 <= c@.width && 1 <= c@.height && x + c@.width
                    <= usize::MAX && y + c@.height <= usize::MAX,
                None => true,
            }),
        ensures
            final(board)@.wf(),
            final(board)@.width == old(board)@.width,
            final(board)@.height == old(board)@.height,
            final(board)@.run_count == old(board)@.run_count,
            (match *clipboard {
                Some(c) => {
                    &&& r == Some(
                        Selection {
                            start: VecU2 { x, y },
                            end: VecU2 {
                                x: (x + c@.width - 1) as usize,
                                y: (y + c@.height - 1) as usize,
                            },
                        },
                    )
                    &&& forall|px: int, py: int|
                        #[trigger] final(board)@.cell(px, py) == if x <= px < x + c@.width && y
                            <= py < y + c@.height {
                            px < old(board)@.width && py < old(board)@.height && c@.cell(
                                px - x,
                                py - y,
                            )
                        } else {
                            old(board)@.cell(px, py)
                        }
                },
                None => {
                    &&& r is None
                    &&& final(board)@ == old(board)@
                },
            }),
    {
        match clipboard {
            None => None,
            Some(c) => {
                let cw = c.width();
                let ch = c.height();
                board.set_area(VecU2::new(x, y), c);
                Some(
                    Selection {
                        start: VecU2::new(x, y),
                        end: VecU2::new(x + cw - 1, y + ch - 1),
                    },
                )
            },
        }
    }
}

} // verus!
