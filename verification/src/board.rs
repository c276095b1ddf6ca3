use crate::rule::Rule;
use crate::subgrid::SubGrid;
use crate::util::VecU2;
use vstd::prelude::*;

verus! {

/// Mathematical model of a board: its dimensions, the row-major cell
/// sequence (`true` = live), and the generation counter.
#[verifier::ext_equal]
pub ghost struct BoardModel {
    pub width: int,
    pub height: int,
    pub cells: Seq<bool>,
    pub run_count: int,
}

impl BoardModel {
    pub open spec fn wf(self) -> bool {
        &&& 0 <= self.width
        &&& 0 <= self.height
        &&& 0 <= self.run_count
        &&& self.cells.len() == self.width * self.height
    }

    /// The cell at `(x, y)`; every coordinate outside the grid
    /// (including negative ones) reads as dead.
    pub open spec fn cell(self, x: int, y: int) -> bool {
        &&& 0 <= x < self.width
        &&& 0 <= y < self.height
        &&& self.cells[y * self.width + x]
    }

    /// Number of live cells among the 8 Moore neighbors of `(x, y)`;
    /// neighbors beyond the border count as dead.
    pub open spec fn neighbor_count(self, x: int, y: int) -> int {
        count1(self.cell(x - 1, y - 1)) + count1(self.cell(x, y - 1)) + count1(
            self.cell(x + 1, y - 1),
        ) + count1(self.cell(x - 1, y)) + count1(self.cell(x + 1, y)) + count1(
            self.cell(x - 1, y + 1),
        ) + count1(self.cell(x, y + 1)) + count1(self.cell(x + 1, y + 1))
    }

    /// The state of `(x, y)` in the next generation.
    pub open spec fn step_cell(self, rule: Rule, x: int, y: int) -> bool {
        let n = self.neighbor_count(x, y);
        if self.cell(x, y) {
            rule.survives(n)
        } else {
            rule.births(n)
        }
    }

    /// The whole next generation: every cell stepped at once from the
    /// frozen current generation, and the counter advanced.
    pub open spec fn step(self, rule: Rule) -> BoardModel {
        BoardModel {
            width: self.width,
            height: self.height,
            cells: Seq::new(
                (self.width * self.height) as nat,
                |i: int| self.step_cell(rule, i % self.width, i / self.width),
            ),
            run_count: self.run_count + 1,
        }
    }

    /// Whether column `x` holds a live cell.
    pub open spec fn col_live(self, x: int) -> bool {
        exists|y: int| self.cell(x, y)
    }

    /// Whether row `y` holds a live cell.
    pub open spec fn row_live(self, y: int) -> bool {
        exists|x: int| self.cell(x, y)
    }

    /// Whether any cell is live.
    pub open spec fn has_live(self) -> bool {
        exists|x: int, y: int| self.cell(x, y)
    }

    /// The model after a bounds-checked write: `(x, y)` is updated when
    /// it lies on the grid, and nothing changes otherwise.
    pub open spec fn with_set(self, x: int, y: int, value: bool) -> BoardModel {
        if 0 <= x < self.width && 0 <= y < self.height {
            BoardModel {
                width: self.width,
                height: self.height,
                cells: self.cells.update(y * self.width + x, value),
                run_count: self.run_count,
            }
        } else {
            self
        }
    }
}

/// The first column at index `i` or later that holds a live cell, or
/// `width` when none does.
pub open spec fn first_live_col_from(m: BoardModel, i: int) -> int
    decreases m.width - i,
{
    if i < 0 || i >= m.width {
        m.width
    } else if m.col_live(i) {
        i
    } else {
        first_live_col_from(m, i + 1)
    }
}

/// The last column at index `i` or earlier that holds a live cell, or
/// `-1` when none does.
pub open spec fn last_live_col_from(m: BoardModel, i: int) -> int
    decreases i + 1,
{
    if i < 0 {
        -1
    } else if m.col_live(i) {
        i
    } else {
        last_live_col_from(m, i - 1)
    }
}

/// The first row at index `i` or later that holds a live cell, or
/// `height` when none does.
pub open spec fn first_live_row_from(m: BoardModel, i: int) -> int
    decreases m.height - i,
{
    if i < 0 || i >= m.height {
        m.height
    } else if m.row_live(i) {
        i
    } else {
        first_live_row_from(m, i + 1)
    }
}

/// The last row at index `i` or earlier that holds a live cell, or
/// `-1` when none does.
pub open spec fn last_live_row_from(m: BoardModel, i: int) -> int
    decreases i + 1,
{
    if i < 0 {
        -1
    } else if m.row_live(i) {
        i
    } else {
        last_live_row_from(m, i - 1)
    }
}

/// The minimal sub-board that still holds every live cell: all-dead
/// border columns and rows are trimmed from all four sides, a board
/// with no live cell crops to 0-by-0, and the generation counter is
/// kept.
pub open spec fn crop_of(m: BoardModel) -> BoardModel {
    if !m.has_live() {
        BoardModel { width: 0, height: 0, cells: Seq::empty(), run_count: m.run_count }
    } else {
        let x0 = first_live_col_from(m, 0);
        let y0 = first_live_row_from(m, 0);
        let x1 = last_live_col_from(m, m.width - 1);
        let y1 = last_live_row_from(m, m.height - 1);
        let w = x1 - x0 + 1;
        let h = y1 - y0 + 1;
        BoardModel {
            width: w,
            height: h,
            cells: Seq::new((w * h) as nat, |i: int| m.cell(x0 + i % w, y0 + i / w)),
            run_count: m.run_count,
        }
    }
}

/// Properties of the first-live-column scan: it stays in range, lands
/// on a live column when one exists, and skips only dead columns.
pub proof fn lemma_first_live_col_props(m: BoardModel, i: int)
    requires
        0 <= i <= m.width,
    ensures
        i <= first_live_col_from(m, i) <= m.width,
        first_live_col_from(m, i) < m.width ==> m.col_live(first_live_col_from(m, i)),
        forall|k: int| i <= k < first_live_col_from(m, i) ==> !#[trigger] m.col_live(k),
    decreases m.width - i,
{
    if i < m.width && !m.col_live(i) {
        lemma_first_live_col_props(m, i + 1);
    }
}

/// Properties of the last-live-column scan, mirrored downward.
pub proof fn lemma_last_live_col_props(m: BoardModel, i: int)
    requires
        -1 <= i < m.width,
    ensures
        -1 <= last_live_col_from(m, i) <= i,
        last_live_col_from(m, i) >= 0 ==> m.col_live(last_live_col_from(m, i)),
        forall|k: int| last_live_col_from(m, i) < k <= i ==> !#[trigger] m.col_live(k),
    decreases i + 1,
{
    if i >= 0 && !m.col_live(i) {
        lemma_last_live_col_props(m, i - 1);
    }
}

/// Properties of the first-live-row scan.
pub proof fn lemma_first_live_row_props(m: BoardModel, i: int)
    requires
        0 <= i <= m.height,
    ensures
        i <= first_live_row_from(m, i) <= m.height,
        first_live_row_from(m, i) < m.height ==> m.row_live(first_live_row_from(m, i)),
        forall|k: int| i <= k < first_live_row_from(m, i) ==> !#[trigger] m.row_live(k),
    decreases m.height - i,
{
    if i < m.height && !m.row_live(i) {
        lemma_first_live_row_props(m, i + 1);
    }
}

/// Properties of the last-live-row scan.
pub proof fn lemma_last_live_row_props(m: BoardModel, i: int)
    requires
        -1 <= i < m.height,
    ensures
        -1 <= last_live_row_from(m, i) <= i,
        last_live_row_from(m, i) >= 0 ==> m.row_live(last_live_row_from(m, i)),
        forall|k: int| last_live_row_from(m, i) < k <= i ==> !#[trigger] m.row_live(k),
    decreases i + 1,
{
    if i >= 0 && !m.row_live(i) {
        lemma_last_live_row_props(m, i - 1);
    }
}

/// Cropping keeps the board well-formed, never grows a dimension, and
/// keeps the generation counter.
pub proof fn lemma_crop_wf(m: BoardModel)
    requires
        m.wf(),
    ensures
        crop_of(m).wf(),
        0 <= crop_of(m).width <= m.width,
        0 <= crop_of(m).height <= m.height,
        crop_of(m).run_count == m.run_count,
{
    if m.has_live() {
        let (cw, ch) = (crop_of(m).width, crop_of(m).height);
        let (lx, ly) = choose|x: int, y: int| m.cell(x, y);
        assert(m.col_live(lx));
        assert(m.row_live(ly));
        lemma_first_live_col_props(m, 0);
        lemma_last_live_col_props(m, m.width - 1);
        lemma_first_live_row_props(m, 0);
        lemma_last_live_row_props(m, m.height - 1);
        assert(first_live_col_from(m, 0) <= lx);
        assert(lx <= last_live_col_from(m, m.width - 1));
        assert(first_live_row_from(m, 0) <= ly);
        assert(ly <= last_live_row_from(m, m.height - 1));
        assert(crop_of(m).cells.len() == (cw * ch) as nat);
        assert(cw * ch >= 0) by (nonlinear_arith)
            requires
                cw >= 1,
                ch >= 1,
        ;
    }
}

/// Repeated stepping of the whole board.
pub open spec fn step_n(m: BoardModel, rule: Rule, k: nat) -> BoardModel
    decreases k,
{
    if k == 0 {
        m
    } else {
        step_n(m, rule, (k - 1) as nat).step(rule)
    }
}

/// A board whose live cells are exactly a 2-by-2 block with top-left
/// corner `(x0, y0)`, the whole block on the grid.
pub open spec fn is_block(m: BoardModel, x0: int, y0: int) -> bool {
    &&& 0 <= x0 && x0 + 1 < m.width
    &&& 0 <= y0 && y0 + 1 < m.height
    &&& forall|x: int, y: int|
        #[trigger] m.cell(x, y) <==> ((x == x0 || x == x0 + 1) && (y == y0 || y == y0 + 1))
}

/// A rule that behaves as `"23/3"`: live cells survive on 2 or 3
/// neighbors, dead cells are born on exactly 3.
pub open spec fn conway_rule(r: Rule) -> bool {
    &&& forall|n: int| #[trigger] r.survives(n) <==> (n == 2 || n == 3)
    &&& forall|n: int| #[trigger] r.births(n) <==> n == 3
}

/// Law: one step under rule `"23/3"` leaves a 2-by-2 block board
/// unchanged, cell for cell.
pub proof fn lemma_block_still_life_step(m: BoardModel, r: Rule, x0: int, y0: int)
    requires
        m.wf(),
        conway_rule(r),
        is_block(m, x0, y0),
    ensures
        m.step(r).cells == m.cells,
        m.step(r).width == m.width,
        m.step(r).height == m.height,
{
    assert forall|x: int, y: int| 0 <= x < m.width && 0 <= y < m.height implies m.step_cell(
        r,
        x,
        y,
    ) == #[trigger] m.cell(x, y) by {
        assert(m.cell(x0, y0));
        assert(m.cell(x0 + 1, y0));
        assert(m.cell(x0, y0 + 1));
        assert(m.cell(x0 + 1, y0 + 1));
    }
    assert(m.step(r).cells =~= m.cells) by {
        assert forall|j: int| 0 <= j < m.cells.len() implies m.step(r).cells[j] == m.cells[j] by {
            let w = m.width;
            let h = m.height;
            let ln = m.cells.len() as int;
            vstd::arithmetic::div_mod::lemma_fundamental_div_mod(j, w);
            assert(w > 0) by (nonlinear_arith)
                requires
                    ln == w * h,
                    0 <= j < ln,
                    0 <= w,
                    0 <= h,
            ;
            let x = j % w;
            let y = j / w;
            assert(0 <= x < w);
            assert(j == w * y + x);
            assert(0 <= y) by (nonlinear_arith)
                requires
                    j == w * y + x,
                    0 <= j,
                    0 <= x < w,
            ;
            assert(y < h) by (nonlinear_arith)
                requires
                    j == w * y + x,
                    0 <= x < w,
                    0 <= j < ln,
                    ln == w * h,
                    0 <= y,
            ;
            lemma_row_major_index(w, h, x, y);
            assert(m.step(r).cells[j] == m.step_cell(r, x, y));
            assert(m.cell(x, y) == m.cells[j]);
        }
    }
}

/// Law: under rule `"23/3"` a 2-by-2 block is a still life: any
/// number of steps leaves the grid, cell for cell, as it was.
pub proof fn lemma_block_still_life(m: BoardModel, r: Rule, x0: int, y0: int, k: nat)
    requires
        m.wf(),
        conway_rule(r),
        is_block(m, x0, y0),
    ensures
        step_n(m, r, k).cells == m.cells,
        step_n(m, r, k).width == m.width,
        step_n(m, r, k).height == m.height,
        step_n(m, r, k).wf(),
    decreases k,
{
    if k > 0 {
        lemma_block_still_life(m, r, x0, y0, (k - 1) as nat);
        let prev = step_n(m, r, (k - 1) as nat);
        assert forall|x: int, y: int| #[trigger] prev.cell(x, y) == m.cell(x, y) by {}
        assert(is_block(prev, x0, y0));
        lemma_block_still_life_step(prev, r, x0, y0);
    }
}

/// Truncating halving of the signed difference `new_dim - old_dim`:
/// the recentering offset a resize applies to existing content.
pub open spec fn half_diff(new_dim: int, old_dim: int) -> int {
    if new_dim >= old_dim {
        (new_dim - old_dim) / 2
    } else {
        -((old_dim - new_dim) / 2)
    }
}

pub open spec fn int_abs(a: int) -> int {
    if a >= 0 {
        a
    } else {
        -a
    }
}

/// Well-formed state of the integer line walk toward `(ex, ey)`:
/// `dx`/`dy` are the absolute x-distance and negated absolute
/// y-distance of the whole line, and each step direction points from
/// the current position toward the end point.
pub open spec fn walk_ok(
    x: int,
    y: int,
    ex: int,
    ey: int,
    dx: int,
    dy: int,
    sx: int,
    sy: int,
) -> bool {
    &&& dx >= 0
    &&& dy <= 0
    &&& (sx == 1 || sx == -1)
    &&& (sy == 1 || sy == -1)
    &&& (sx == 1 ==> x <= ex)
    &&& (sx == -1 ==> x >= ex)
    &&& (sy == 1 ==> y <= ey)
    &&& (sy == -1 ==> y >= ey)
}

/// The cells the integer (Bresenham-style) line walk visits from
/// `(x, y)` with error term `err` until it stops, one recursion step
/// per walk iteration.
pub open spec fn line_walk(
    x: int,
    y: int,
    err: int,
    ex: int,
    ey: int,
    dx: int,
    dy: int,
    sx: int,
    sy: int,
) -> Seq<(int, int)>
    decreases int_abs(ex - x) + int_abs(ey - y),
        when walk_ok(x, y, ex, ey, dx, dy, sx, sy)
{
    if x == ex && y == ey {
        seq![(x, y)]
    } else {
        let e2 = 2 * err;
        if e2 >= dy && x == ex {
            seq![(x, y)]
        } else {
            let x1 = if e2 >= dy {
                x + sx
            } else {
                x
            };
            let err1 = if e2 >= dy {
                err + dy
            } else {
                err
            };
            if e2 <= dx && y == ey {
                seq![(x, y)]
            } else {
                let y1 = if e2 <= dx {
                    y + sy
                } else {
                    y
                };
                let err2 = if e2 <= dx {
                    err1 + dx
                } else {
                    err1
                };
                seq![(x, y)] + line_walk(x1, y1, err2, ex, ey, dx, dy, sx, sy)
            }
        }
    }
}

/// The set of cells `draw_line` writes: the walk from `(x0, y0)`
/// toward `(x1, y1)` plus the end point itself.
pub open spec fn line_points(x0: int, y0: int, x1: int, y1: int) -> Set<(int, int)> {
    line_walk(
        x0,
        y0,
        int_abs(x1 - x0) - int_abs(y1 - y0),
        x1,
        y1,
        int_abs(x1 - x0),
        -int_abs(y1 - y0),
        if x0 < x1 {
            1
        } else {
            -1
        },
        if y0 < y1 {
            1
        } else {
            -1
        },
    ).to_set().insert((x1, y1))
}

/// Which cells of the pasted `tw`-by-`th` rectangle at `(px, py)` have
/// been written once `dc` full columns plus `dr` cells of column `dc`
/// are done (writes go column by column).
spec fn area_written(px: int, py: int, tw: int, th: int, dc: int, dr: int, x: int, y: int) -> bool {
    &&& px <= x < px + tw
    &&& py <= y < py + th
    &&& (x - px < dc || (x - px == dc && y - py < dr))
}

pub open spec fn count1(b: bool) -> int {
    if b {
        1
    } else {
        0
    }
}

/// Row-major index arithmetic: inside a `w`-by-`h` grid the flat index
/// of `(x, y)` is in range and decomposes back into `x` and `y`.
pub proof fn lemma_row_major_index(w: int, h: int, x: int, y: int)
    requires
        0 <= x < w,
        0 <= y < h,
    ensures
        0 <= y * w + x < w * h,
        (y * w + x) % w == x,
        (y * w + x) / w == y,
{
    assert(0 <= y * w + x < w * h) by (nonlinear_arith)
        requires
            0 <= x < w,
            0 <= y < h,
    ;
    vstd::arithmetic::div_mod::lemma_fundamental_div_mod_converse_mod(y * w + x, w, y, x);
    vstd::arithmetic::div_mod::lemma_fundamental_div_mod_converse_div(y * w + x, w, y, x);
}

/// What a bounds-checked write does, cell by cell: the written cell
/// (when on the grid) takes the new value and every other cell keeps
/// its old one.
pub proof fn lemma_with_set_cell(m: BoardModel, x: int, y: int, v: bool)
    requires
        m.wf(),
    ensures
        m.with_set(x, y, v).wf(),
        m.with_set(x, y, v).width == m.width,
        m.with_set(x, y, v).height == m.height,
        m.with_set(x, y, v).run_count == m.run_count,
        forall|i: int, j: int|
            #[trigger] m.with_set(x, y, v).cell(i, j) == if i == x && j == y && 0 <= x < m.width
                && 0 <= y < m.height {
                v
            } else {
                m.cell(i, j)
            },
{
    if 0 <= x < m.width && 0 <= y < m.height {
        lemma_row_major_index(m.width, m.height, x, y);
        assert forall|i: int, j: int|
            #[trigger] m.with_set(x, y, v).cell(i, j) == if i == x && j == y {
                v
            } else {
                m.cell(i, j)
            } by {
            if 0 <= i < m.width && 0 <= j < m.height {
                lemma_row_major_index(m.width, m.height, i, j);
            }
        }
    }
}

/// A finite rectangular grid of live/dead cells with a generation
/// counter, stored row-major.
#[derive(Debug)]
pub struct Board {
    pub width: usize,
    pub height: usize,
    pub tiles: Vec<bool>,
    pub run_count: usize,
}

impl View for Board {
    type V = BoardModel;

    open spec fn view(&self) -> BoardModel {
        BoardModel {
            width: self.width as int,
            height: self.height as int,
            cells: self.tiles@,
            run_count: self.run_count as int,
        }
    }
}

impl Clone for Board {
    fn clone(&self) -> (r: Self)
        ensures
            r@ == self@,
    {
        Board {
            width: self.width,
            height: self.height,
            tiles: copy_tiles(&self.tiles),
            run_count: self.run_count,
        }
    }
}

/// A fresh vector holding the same cells.
fn copy_tiles(tiles: &Vec<bool>) -> (r: Vec<bool>)
    ensures
        r@ == tiles@,
{
    let mut v: Vec<bool> = Vec::new();
    let n = tiles.len();
    let mut i: usize = 0;
    while i < n
        invariant
            i <= n,
            n == tiles@.len(),
            v@ == tiles@.subrange(0, i as int),
        decreases n - i,
    {
        v.push(tiles[i]);
        proof {
            assert(v@ =~= tiles@.subrange(0, i + 1));
        }
        i += 1;
    }
    proof {
        assert(v@ =~= tiles@);
    }
    v
}

/// A vector of `n` dead cells.
fn dead_tiles(n: usize) -> (r: Vec<bool>)
    ensures
        r@.len() == n,
        forall|i: int| 0 <= i < n ==> !r@[i],
{
    let mut v: Vec<bool> = Vec::new();
    let mut i: usize = 0;
    while i < n
        invariant
            i <= n,
            v@.len() == i,
            forall|j: int| 0 <= j < i ==> !v@[j],
        decreases n - i,
    {
        v.push(false);
        i += 1;
    }
    v
}

impl Board {
    /// A `width`-by-`height` board with every cell dead and the
    /// generation counter at zero.
    pub fn new(width: usize, height: usize) -> (r: Board)
        requires
            width * height <= usize::MAX,
        ensures
            r@.wf(),
            r@.width == width,
            r@.height == height,
            r@.run_count == 0,
            forall|x: int, y: int| !r@.cell(x, y),
    {
        let n = width * height;
        let tiles = dead_tiles(n);
        let r = Board { width, height, tiles, run_count: 0 };
        proof {
            assert forall|x: int, y: int| !r@.cell(x, y) by {
                if 0 <= x < r@.width && 0 <= y < r@.height {
                    lemma_row_major_index(r@.width, r@.height, x, y);
                }
            }
        }
        r
    }

    pub fn width(&self) -> (r: usize)
        ensures
            r == self@.width,
    {
        self.width
    }

    pub fn height(&self) -> (r: usize)
        ensures
            r == self@.height,
    {
        self.height
    }

    pub fn wh(&self) -> (r: (usize, usize))
        ensures
            r.0 == self@.width,
            r.1 == self@.height,
    {
        (self.width, self.height)
    }

    /// Reads the cell at on-grid coordinates; internal helper shared by
    /// the bounds-checked accessors.
    pub(crate) fn live(&self, x: usize, y: usize) -> (r: bool)
        requires
            self@.wf(),
        ensures
            r == self@.cell(x as int, y as int),
    {
        if x < self.width && y < self.height {
            proof {
                assert(self.tiles.len() == self@.cells.len());
                lemma_row_major_index(
                    self@.width,
                    self@.height,
                    x as int,
                    y as int,
                );
            }
            self.tiles[y * self.width + x]
        } else {
            false
        }
    }

    /// Bounds-checked read: `None` exactly when `(x, y)` is off the grid.
    pub fn get(&self, x: usize, y: usize) -> (r: Option<bool>)
        requires
            self@.wf(),
        ensures
            r == if x < self@.width && y < self@.height {
                Some(self@.cell(x as int, y as int))
            } else {
                None::<bool>
            },
    {
        if x < self.width && y < self.height {
            Some(self.live(x, y))
        } else {
            None
        }
    }

    /// Reads a cell with the fixed dead border: any coordinate outside
    /// `[0, width) x [0, height)`, including a negative one, is dead.
    pub fn get_or_empty(&self, x: isize, y: isize) -> (r: bool)
        requires
            self@.wf(),
        ensures
            r == self@.cell(x as int, y as int),
    {
        if x < 0 || y < 0 {
            return false;
        }
        let xu = x as usize;
        let yu = y as usize;
        self.live(xu, yu)
    }

    /// Bounds-checked write: writing outside the grid is a no-op.
    pub fn set(&mut self, x: usize, y: usize, value: bool)
        requires
            old(self)@.wf(),
        ensures
            final(self)@ == old(self)@.with_set(x as int, y as int, value),
            final(self)@.wf(),
    {
        if x < self.width && y < self.height {
            proof {
                assert(self.tiles.len() == self@.cells.len());
                lemma_row_major_index(
                    self@.width,
                    self@.height,
                    x as int,
                    y as int,
                );
            }
            self.tiles.set(y * self.width + x, value);
        }
        proof {
            assert(self@ =~= old(self)@.with_set(x as int, y as int, value));
        }
    }

    /// Bounds-checked write that reports whether it happened.
    pub fn try_set(&mut self, x: usize, y: usize, value: bool) -> (r: Option<()>)
        requires
            old(self)@.wf(),
        ensures
            final(self)@ == old(self)@.with_set(x as int, y as int, value),
            final(self)@.wf(),
            r is Some <==> (x < old(self)@.width && y < old(self)@.height),
    {
        if x < self.width && y < self.height {
            self.set(x, y, value);
            Some(())
        } else {
            proof {
                assert(self@ =~= old(self)@.with_set(x as int, y as int, value));
            }
            None
        }
    }

    /// Counts the live Moore neighbors of an on-grid cell.
    fn count_neighbors(&self, x: usize, y: usize) -> (r: u8)
        requires
            self@.wf(),
            x < self@.width,
            y < self@.height,
        ensures
            r as int == self@.neighbor_count(x as int, y as int),
    {
        let mut count: u8 = 0;
        if x > 0 && y > 0 && self.live(x - 1, y - 1) {
            count += 1;
        }
        if y > 0 && self.live(x, y - 1) {
            count += 1;
        }
        if y > 0 && self.live(x + 1, y - 1) {
            count += 1;
        }
        if x > 0 && self.live(x - 1, y) {
            count += 1;
        }
        if self.live(x + 1, y) {
            count += 1;
        }
        if x > 0 && self.live(x - 1, y + 1) {
            count += 1;
        }
        if self.live(x, y + 1) {
            count += 1;
        }
        if self.live(x + 1, y + 1) {
            count += 1;
        }
        count
    }

    /// Computes the next generation from the current one into a fresh
    /// buffer, swaps it in, and increments the generation counter.
    pub fn advance(&mut self, rule: &Rule)
        requires
            old(self)@.wf(),
            old(self)@.run_count < usize::MAX,
        ensures
            final(self)@ == old(self)@.step(*rule),
            final(self)@.wf(),
    {
        let w = self.width;
        let n = self.tiles.len();
        let mut next: Vec<bool> = Vec::new();
        let mut i: usize = 0;
        while i < n
            invariant
                self@ == old(self)@,
                self@.wf(),
                w == self@.width,
                n == self@.cells.len(),
                i <= n,
                next@.len() == i,
                forall|j: int|
                    0 <= j < i ==> next@[j] == self@.step_cell(
                        *rule,
                        j % self@.width,
                        j / self@.width,
                    ),
            decreases n - i,
        {
            proof {
                let ghost h0 = self@.height;
                assert(w > 0) by (nonlinear_arith)
                    requires
                        (n as int) == (w as int) * h0,
                        (i as int) < (n as int),
                        0 <= i,
                ;
            }
            let x = i % w;
            let y = i / w;
            proof {
                let ghost h0 = self@.height;
                assert(y < h0) by (nonlinear_arith)
                    requires
                        (i as int) < (n as int),
                        (n as int) == (w as int) * h0,
                        w > 0,
                        0 <= i,
                        (y as int) == (i as int) / (w as int),
                ;
            }
            let count = self.count_neighbors(x, y);
            let cell = self.live(x, y);
            let val = (!cell && rule.born(count)) || (cell && rule.survive(count));
            next.push(val);
            i += 1;
        }
        self.tiles = next;
        self.run_count = self.run_count + 1;
        proof {
            assert(self@.cells =~= old(self)@.step(*rule).cells);
            assert(self@ =~= old(self)@.step(*rule));
        }
    }

    /// Resets every cell to dead and the generation counter to zero,
    /// keeping the dimensions.
    pub fn clear(&mut self)
        requires
            old(self)@.wf(),
        ensures
            final(self)@.wf(),
            final(self)@.width == old(self)@.width,
            final(self)@.height == old(self)@.height,
            final(self)@.run_count == 0,
            forall|x: int, y: int| !final(self)@.cell(x, y),
    {
        let n = self.tiles.len();
        self.tiles = dead_tiles(n);
        self.run_count = 0;
        proof {
            assert forall|x: int, y: int| !self@.cell(x, y) by {
                if 0 <= x < self@.width && 0 <= y < self@.height {
                    lemma_row_major_index(self@.width, self@.height, x, y);
                }
            }
        }
    }

    /// Reads a cell through wide signed coordinates, with the dead
    /// border for anything off the grid.
    pub(crate) fn live_wide(&self, x: i128, y: i128) -> (r: bool)
        requires
            self@.wf(),
        ensures
            r == self@.cell(x as int, y as int),
    {
        if x >= 0 && y >= 0 && x < self.width as i128 && y < self.height as i128 {
            self.live(x as usize, y as usize)
        } else {
            false
        }
    }

    /// Writes a whole patch with its top-left corner at `pos`: every
    /// patch cell lands at its offset from `pos`, and writes that fall
    /// off the grid are dropped.
    pub fn set_area(&mut self, pos: VecU2, tiles: &SubGrid)
        requires
            old(self)@.wf(),
            tiles@.wf(),
            pos.x + tiles@.width <= usize::MAX,
            pos.y + tiles@.height <= usize::MAX,
        ensures
            final(self)@.wf(),
            final(self)@.width == old(self)@.width,
            final(self)@.height == old(self)@.height,
            final(self)@.run_count == old(self)@.run_count,
            forall|x: int, y: int|
                #[trigger] final(self)@.cell(x, y) == if pos.x <= x < pos.x + tiles@.width && pos.y
                    <= y < pos.y + tiles@.height {
                    x < old(self)@.width && y < old(self)@.height && tiles@.cell(
                        x - pos.x,
                        y - pos.y,
                    )
                } else {
                    old(self)@.cell(x, y)
                },
    {
        let (px, py) = pos.as_tuple();
        let w = tiles.width();
        let h = tiles.height();
        let mut cx: usize = 0;
        while cx < w
            invariant
                old(self)@.wf(),
                tiles@.wf(),
                self@.wf(),
                self@.width == old(self)@.width,
                self@.height == old(self)@.height,
                self@.run_count == old(self)@.run_count,
                cx <= w,
                w == tiles@.width,
                h == tiles@.height,
                px == pos.x,
                py == pos.y,
                px + w <= usize::MAX,
                py + h <= usize::MAX,
                forall|x: int, y: int|
                    #[trigger] self@.cell(x, y) == if area_written(
                        px as int,
                        py as int,
                        w as int,
                        h as int,
                        cx as int,
                        0,
                        x,
                        y,
                    ) {
                        x < old(self)@.width && y < old(self)@.height && tiles@.cell(
                            x - px,
                            y - py,
                        )
                    } else {
                        old(self)@.cell(x, y)
                    },
            decreases w - cx,
        {
            let mut cy: usize = 0;
            while cy < h
                invariant
                    old(self)@.wf(),
                    tiles@.wf(),
                    self@.wf(),
                    self@.width == old(self)@.width,
                    self@.height == old(self)@.height,
                    self@.run_count == old(self)@.run_count,
                    cx < w,
                    cy <= h,
                    w == tiles@.width,
                    h == tiles@.height,
                    px == pos.x,
                    py == pos.y,
                    px + w <= usize::MAX,
                    py + h <= usize::MAX,
                    forall|x: int, y: int|
                        #[trigger] self@.cell(x, y) == if area_written(
                            px as int,
                            py as int,
                            w as int,
                            h as int,
                            cx as int,
                            cy as int,
                            x,
                            y,
                        ) {
                            x < old(self)@.width && y < old(self)@.height && tiles@.cell(
                                x - px,
                                y - py,
                            )
                        } else {
                            old(self)@.cell(x, y)
                        },
                decreases h - cy,
            {
                let ghost before = self@;
                let v = tiles.get(cx, cy);
                self.set(px + cx, py + cy, v);
                proof {
                    lemma_with_set_cell(before, (px + cx) as int, (py + cy) as int, v);
                }
                cy += 1;
            }
            cx += 1;
        }
    }

    /// Reallocates the grid to `w`-by-`h`, recentering the old content
    /// by the truncating half of each dimension change; content pushed
    /// past an edge by a shrink is discarded, and the generation
    /// counter restarts at zero.
    pub fn set_wh(&mut self, w: usize, h: usize)
        requires
            old(self)@.wf(),
            w * h <= usize::MAX,
        ensures
            final(self)@.wf(),
            final(self)@.width == w,
            final(self)@.height == h,
            final(self)@.run_count == 0,
            forall|x: int, y: int|
                #[trigger] final(self)@.cell(x, y) == (0 <= x < w && 0 <= y < h && old(self)@.cell(
                    x - half_diff(w as int, old(self)@.width),
                    y - half_diff(h as int, old(self)@.height),
                )),
    {
        let xoff: i128 = if w >= self.width {
            ((w - self.width) / 2) as i128
        } else {
            -(((self.width - w) / 2) as i128)
        };
        let yoff: i128 = if h >= self.height {
            ((h - self.height) / 2) as i128
        } else {
            -(((self.height - h) / 2) as i128)
        };
        let n = w * h;
        let mut next: Vec<bool> = Vec::new();
        let mut i: usize = 0;
        while i < n
            invariant
                self@ == old(self)@,
                self@.wf(),
                n == w * h,
                xoff as int == half_diff(w as int, self@.width),
                yoff as int == half_diff(h as int, self@.height),
                i <= n,
                next@.len() == i,
                forall|j: int|
                    0 <= j < i ==> next@[j] == self@.cell(
                        j % (w as int) - xoff,
                        j / (w as int) - yoff,
                    ),
            decreases n - i,
        {
            proof {
                assert(w > 0) by (nonlinear_arith)
                    requires
                        (n as int) == (w as int) * (h as int),
                        (i as int) < (n as int),
                        0 <= i,
                ;
            }
            let nx = i % w;
            let ny = i / w;
            let val = self.live_wide(nx as i128 - xoff, ny as i128 - yoff);
            next.push(val);
            i += 1;
        }
        self.width = w;
        self.height = h;
        self.tiles = next;
        self.run_count = 0;
        proof {
            assert forall|x: int, y: int|
                #[trigger] self@.cell(x, y) == (0 <= x < w && 0 <= y < h && old(self)@.cell(
                    x - half_diff(w as int, old(self)@.width),
                    y - half_diff(h as int, old(self)@.height),
                )) by {
                if 0 <= x < w && 0 <= y < h {
                    lemma_row_major_index(w as int, h as int, x, y);
                }
            }
        }
    }

    /// Rasterizes the discrete line between the two inclusive end
    /// points with the integer error-term walk and writes `value` to
    /// every visited cell, both end points included; writes that fall
    /// off the grid are dropped.
    pub fn draw_line(
        &mut self,
        start_x: usize,
        start_y: usize,
        end_x: usize,
        end_y: usize,
        to: bool,
    )
        requires
            old(self)@.wf(),
        ensures
            final(self)@.wf(),
            final(self)@.width == old(self)@.width,
            final(self)@.height == old(self)@.height,
            final(self)@.run_count == old(self)@.run_count,
            forall|x: int, y: int|
                #[trigger] final(self)@.cell(x, y) == if line_points(
                    start_x as int,
                    start_y as int,
                    end_x as int,
                    end_y as int,
                ).contains((x, y)) {
                    0 <= x < old(self)@.width && 0 <= y < old(self)@.height && to
                } else {
                    old(self)@.cell(x, y)
                },
    {
        let exi: i128 = end_x as i128;
        let eyi: i128 = end_y as i128;
        let mut x: i128 = start_x as i128;
        let mut y: i128 = start_y as i128;
        let dx: i128 = if end_x >= start_x {
            (end_x - start_x) as i128
        } else {
            (start_x - end_x) as i128
        };
        let dy: i128 = if end_y >= start_y {
            -((end_y - start_y) as i128)
        } else {
            -((start_y - end_y) as i128)
        };
        let sx: i128 = if start_x < end_x {
            1
        } else {
            -1
        };
        let sy: i128 = if start_y < end_y {
            1
        } else {
            -1
        };
        let mut err: i128 = dx + dy;

        let ghost walk0 = line_walk(
            start_x as int,
            start_y as int,
            dx as int + dy as int,
            exi as int,
            eyi as int,
            dx as int,
            dy as int,
            sx as int,
            sy as int,
        );
        let mut pts: Vec<(usize, usize)> = Vec::new();
        let ghost mut gs = Seq::<(int, int)>::empty();

        loop
            invariant_except_break
                walk_ok(x as int, y as int, exi as int, eyi as int, dx as int, dy as int, sx as int, sy as int),
                exi == end_x,
                eyi == end_y,
                dx as int == int_abs(exi as int - start_x as int),
                dy as int == -int_abs(eyi as int - start_y as int),
                0 <= x <= usize::MAX,
                0 <= y <= usize::MAX,
                2 * (dy as int) <= err as int <= 2 * (dx as int),
                gs.len() == pts@.len(),
                forall|k: int|
                    0 <= k < gs.len() ==> gs[k] == (
                        #[trigger] pts@[k].0 as int,
                        pts@[k].1 as int,
                    ),
                walk0 == gs + line_walk(
                    x as int,
                    y as int,
                    err as int,
                    exi as int,
                    eyi as int,
                    dx as int,
                    dy as int,
                    sx as int,
                    sy as int,
                ),
            ensures
                walk0 == gs,
                gs.len() == pts@.len(),
                forall|k: int|
                    0 <= k < gs.len() ==> gs[k] == (
                        #[trigger] pts@[k].0 as int,
                        pts@[k].1 as int,
                    ),
            decreases int_abs(exi as int - x as int) + int_abs(eyi as int - y as int),
        {
            pts.push((x as usize, y as usize));
            proof {
                gs = gs.push((x as int, y as int));
            }
            if x == exi && y == eyi {
                proof {
                    assert(walk0 =~= gs);
                }
                break;
            }
            let e2 = 2 * err;
            let ghost pre = (x as int, y as int, err as int);
            if e2 >= dy {
                if x == exi {
                    proof {
                        assert(walk0 =~= gs);
                    }
                    break;
                }
                err = err + dy;
                x = x + sx;
            }
            if e2 <= dx {
                if y == eyi {
                    proof {
                        assert(line_walk(
                            pre.0,
                            pre.1,
                            pre.2,
                            exi as int,
                            eyi as int,
                            dx as int,
                            dy as int,
                            sx as int,
                            sy as int,
                        ) =~= seq![(pre.0, pre.1)]);
                        assert(walk0 =~= gs);
                    }
                    break;
                }
                err = err + dx;
                y = y + sy;
            }
            proof {
                assert(line_walk(
                    pre.0,
                    pre.1,
                    pre.2,
                    exi as int,
                    eyi as int,
                    dx as int,
                    dy as int,
                    sx as int,
                    sy as int,
                ) =~= seq![(pre.0, pre.1)] + line_walk(
                    x as int,
                    y as int,
                    err as int,
                    exi as int,
                    eyi as int,
                    dx as int,
                    dy as int,
                    sx as int,
                    sy as int,
                ));
            }
        }

        pts.push((end_x, end_y));
        proof {
            gs = gs.push((end_x as int, end_y as int));
        }

        let ghost points = line_points(start_x as int, start_y as int, end_x as int, end_y as int);
        proof {
            assert forall|p: (int, int)| gs.contains(p) implies points.contains(p) by {
                let k = choose|k: int| 0 <= k < gs.len() && gs[k] == p;
                if k < gs.len() - 1 {
                    assert(walk0[k] == p);
                    assert(walk0.contains(p));
                }
            }
            assert forall|p: (int, int)| points.contains(p) implies gs.contains(p) by {
                if p == ((end_x as int, end_y as int)) {
                    assert(gs[gs.len() - 1] == p);
                } else {
                    assert(walk0.contains(p));
                    let k = choose|k: int| 0 <= k < walk0.len() && walk0[k] == p;
                    assert(gs[k] == p);
                }
            }
        }

        let n = pts.len();
        let mut k: usize = 0;
        while k < n
            invariant
                self@.wf(),
                self@.width == old(self)@.width,
                self@.height == old(self)@.height,
                self@.run_count == old(self)@.run_count,
                n == pts@.len(),
                gs.len() == n,
                k <= n,
                forall|idx: int|
                    0 <= idx < gs.len() ==> gs[idx] == (
                        #[trigger] pts@[idx].0 as int,
                        pts@[idx].1 as int,
                    ),
                forall|x: int, y: int|
                    #[trigger] self@.cell(x, y) == if gs.subrange(0, k as int).contains((x, y)) {
                        0 <= x < old(self)@.width && 0 <= y < old(self)@.height && to
                    } else {
                        old(self)@.cell(x, y)
                    },
            decreases n - k,
        {
            let p = pts[k];
            let ghost before = self@;
            self.set(p.0, p.1, to);
            proof {
                lemma_with_set_cell(before, p.0 as int, p.1 as int, to);
                let s0 = gs.subrange(0, k as int);
                let s1 = gs.subrange(0, k as int + 1);
                assert(s1 =~= s0.push(gs[k as int]));
                assert forall|q: (int, int)| s1.contains(q) implies (s0.contains(q) || q == gs[
                    k as int
                ]) by {
                    let i = choose|i: int| 0 <= i < s1.len() && s1[i] == q;
                    if i < s0.len() {
                        assert(s0[i] == q);
                    }
                }
                assert forall|q: (int, int)| s0.contains(q) implies s1.contains(q) by {
                    let i = choose|i: int| 0 <= i < s0.len() && s0[i] == q;
                    assert(s1[i] == q);
                }
                assert(s1.contains(gs[k as int])) by {
                    assert(s1[k as int] == gs[k as int]);
                }
            }
            k += 1;
        }
        proof {
            assert(gs.subrange(0, n as int) =~= gs);
            assert forall|x: int, y: int|
                #[trigger] self@.cell(x, y) == if points.contains((x, y)) {
                    0 <= x < old(self)@.width && 0 <= y < old(self)@.height && to
                } else {
                    old(self)@.cell(x, y)
                } by {}
        }
    }

    /// Whether column `x` holds a live cell.
    fn col_has_live(&self, x: usize) -> (r: bool)
        requires
            self@.wf(),
        ensures
            r == self@.col_live(x as int),
    {
        let h = self.height;
        let mut y: usize = 0;
        while y < h
            invariant
                self@.wf(),
                h == self@.height,
                y <= h,
                forall|j: int| 0 <= j < y ==> !self@.cell(x as int, j),
            decreases h - y,
        {
            if self.live(x, y) {
                proof {
                    assert(self@.cell(x as int, y as int));
                }
                return true;
            }
            y += 1;
        }
        proof {
            assert forall|j: int| !self@.cell(x as int, j) by {}
        }
        false
    }

    /// Whether row `y` holds a live cell.
    fn row_has_live(&self, y: usize) -> (r: bool)
        requires
            self@.wf(),
        ensures
            r == self@.row_live(y as int),
    {
        let w = self.width;
        let mut x: usize = 0;
        while x < w
            invariant
                self@.wf(),
                w == self@.width,
                x <= w,
                forall|i: int| 0 <= i < x ==> !self@.cell(i, y as int),
            decreases w - x,
        {
            if self.live(x, y) {
                proof {
                    assert(self@.cell(x as int, y as int));
                }
                return true;
            }
            x += 1;
        }
        proof {
            assert forall|i: int| !self@.cell(i, y as int) by {}
        }
        false
    }

    /// Trims all-dead border columns and rows from all four sides,
    /// leaving the minimal sub-grid that holds every live cell. A board
    /// with no live cell becomes 0-by-0. The generation counter is
    /// kept.
    pub fn crop(&mut self)
        requires
            old(self)@.wf(),
        ensures
            final(self)@.wf(),
            final(self)@ == crop_of(old(self)@),
    {
        let w = self.width;
        let h = self.height;

        let mut x0: usize = 0;
        loop
            invariant_except_break
                self@ == old(self)@,
                self@.wf(),
                w == self@.width,
                x0 <= w,
                first_live_col_from(self@, 0) == first_live_col_from(self@, x0 as int),
                forall|k: int| 0 <= k < x0 ==> !self@.col_live(k),
            ensures
                self@ == old(self)@,
                x0 <= w,
                first_live_col_from(self@, 0) == x0 as int,
                x0 < w ==> self@.col_live(x0 as int),
                forall|k: int| 0 <= k < x0 ==> !self@.col_live(k),
            decreases w - x0,
        {
            if x0 == w {
                break;
            }
            if self.col_has_live(x0) {
                break;
            }
            x0 += 1;
        }

        if x0 == w {
            proof {
                assert(!self@.has_live()) by {
                    if self@.has_live() {
                        let (x, y) = choose|x: int, y: int| self@.cell(x, y);
                        assert(self@.col_live(x));
                    }
                }
            }
            self.width = 0;
            self.height = 0;
            self.tiles = Vec::new();
            proof {
                assert(self@ =~= crop_of(old(self)@));
            }
            return;
        }

        proof {
            let yw = choose|y: int| self@.cell(x0 as int, y);
            assert(self@.has_live()) by {
                assert(self@.cell(x0 as int, yw));
            }
        }

        let mut x1: usize = w - 1;
        loop
            invariant_except_break
                self@ == old(self)@,
                self@.wf(),
                w == self@.width,
                x0 <= x1 < w,
                self@.col_live(x0 as int),
                last_live_col_from(self@, w as int - 1) == last_live_col_from(self@, x1 as int),
            ensures
                self@ == old(self)@,
                x0 <= x1 < w,
                last_live_col_from(self@, w as int - 1) == x1 as int,
                self@.col_live(x1 as int),
            decreases x1,
        {
            if self.col_has_live(x1) {
                break;
            }
            proof {
                assert(x1 > x0);
            }
            x1 -= 1;
        }

        let mut y0: usize = 0;
        loop
            invariant_except_break
                self@ == old(self)@,
                self@.wf(),
                h == self@.height,
                y0 <= h,
                self@.col_live(x0 as int),
                first_live_row_from(self@, 0) == first_live_row_from(self@, y0 as int),
                forall|k: int| 0 <= k < y0 ==> !self@.row_live(k),
            ensures
                self@ == old(self)@,
                y0 <= h,
                first_live_row_from(self@, 0) == y0 as int,
                y0 < h ==> self@.row_live(y0 as int),
                forall|k: int| 0 <= k < y0 ==> !self@.row_live(k),
                self@.col_live(x0 as int),
            decreases h - y0,
        {
            if y0 == h {
                break;
            }
            if self.row_has_live(y0) {
                break;
            }
            y0 += 1;
        }

        proof {
            if y0 == h {
                let yw = choose|y: int| self@.cell(x0 as int, y);
                assert(self@.row_live(yw)) by {
                    assert(self@.cell(x0 as int, yw));
                }
                assert(false);
            }
        }

        let mut y1: usize = h - 1;
        loop
            invariant_except_break
                self@ == old(self)@,
                self@.wf(),
                h == self@.height,
                y0 <= y1 < h,
                self@.row_live(y0 as int),
                last_live_row_from(self@, h as int - 1) == last_live_row_from(self@, y1 as int),
            ensures
                self@ == old(self)@,
                y0 <= y1 < h,
                last_live_row_from(self@, h as int - 1) == y1 as int,
                self@.row_live(y1 as int),
            decreases y1,
        {
            if self.row_has_live(y1) {
                break;
            }
            proof {
                assert(y1 > y0);
            }
            y1 -= 1;
        }

        let cw = x1 - x0 + 1;
        let ch = y1 - y0 + 1;
        proof {
            assert(self.tiles.len() == self@.cells.len());
            assert((cw as int) * (ch as int) <= (w as int) * (h as int)) by (nonlinear_arith)
                requires
                    0 < cw as int <= w as int,
                    0 < ch as int <= h as int,
            ;
        }
        let n = cw * ch;
        let mut next: Vec<bool> = Vec::new();
        let mut i: usize = 0;
        while i < n
            invariant
                self@ == old(self)@,
                self@.wf(),
                n == cw * ch,
                1 <= cw,
                1 <= ch,
                x0 as int + cw as int <= self@.width,
                y0 as int + ch as int <= self@.height,
                i <= n,
                next@.len() == i,
                forall|j: int|
                    0 <= j < i ==> next@[j] == self@.cell(
                        x0 as int + j % (cw as int),
                        y0 as int + j / (cw as int),
                    ),
            decreases n - i,
        {
            let dx = i % cw;
            let dy = i / cw;
            proof {
                let ghost cwi = cw as int;
                let ghost chi = ch as int;
                assert((dy as int) < chi) by (nonlinear_arith)
                    requires
                        (i as int) < (n as int),
                        (n as int) == cwi * chi,
                        cwi > 0,
                        0 <= i,
                        (dy as int) == (i as int) / cwi,
                ;
            }
            let v = self.live(x0 + dx, y0 + dy);
            next.push(v);
            i += 1;
        }
        self.width = cw;
        self.height = ch;
        self.tiles = next;
        proof {
            assert(self@.cells =~= crop_of(old(self)@).cells);
            assert(self@ =~= crop_of(old(self)@));
        }
    }

    /// Converts a flat row-major index into `(x, y)` coordinates.
    pub fn i_to_xy(&self, i: usize) -> (r: (usize, usize))
        requires
            self@.width > 0,
        ensures
            r.0 == i % self@.width as usize,
            r.1 == i / self@.width as usize,
    {
        crate::util::i_to_xy(self.width, i)
    }
}

} // verus!
