//! The playfield: occupancy grid, collision detection, piece locking,
//! line clearing with cascade, and scoring.

use vstd::prelude::*;

use crate::block::{
    lemma_canonical_mask, lemma_rot_cw_shape, mask_nonempty, mask_of, mask_wf, rot_cw, Block,
    BlockType, RotDir,
};

verus! {

/// A grid position: the top-left corner of a piece's 4x4 bounding box,
/// in columns (`x`) and rows (`y`). Row 0 is the top of the field.
#[derive(Clone, Copy, PartialEq, Eq, Structural, Debug)]
pub struct Pos {
    pub x: i32,
    pub y: i32,
}

/// An abstract input symbol, as the input decoder delivers it.
#[derive(Clone, Copy, PartialEq, Eq, Structural, Debug)]
pub enum Input {
    Up,
    Down,
    Left,
    Right,
    Rotate,
    Confirm,
}

/// Direction of a manual move of the falling piece.
enum Dir {
    Left,
    Right,
    Up,
    Down,
}

/// A well-formed occupancy grid: `h` rows of `w` columns each.
pub open spec fn grid_wf(g: Seq<Seq<bool>>, w: int, h: int) -> bool {
    &&& g.len() == h
    &&& forall|r: int| 0 <= r < h ==> (#[trigger] g[r]).len() == w
}

/// Whether the grid cell at column `x`, row `y` blocks a piece: it lies
/// outside the field, or it is already locked.
pub open spec fn cell_blocked(g: Seq<Seq<bool>>, w: int, h: int, x: int, y: int) -> bool {
    y >= h || y < 0 || x >= w || x < 0 || g[y][x]
}

/// Whether a piece with mask `m` whose bounding box sits at (`px`, `py`)
/// collides: some occupied cell of the mask maps outside the field or onto
/// a locked cell.
pub open spec fn spec_collides(
    g: Seq<Seq<bool>>,
    w: int,
    h: int,
    m: Seq<Seq<bool>>,
    px: int,
    py: int,
) -> bool {
    exists|r: int, c: int|
        0 <= r < 4 && 0 <= c < 4 && (#[trigger] m[r][c]) && cell_blocked(g, w, h, px + c, py + r)
}

/// Whether a piece with mask `m` at (`px`, `py`) covers the grid cell at
/// row `r`, column `c`.
pub open spec fn covers(m: Seq<Seq<bool>>, px: int, py: int, r: int, c: int) -> bool {
    0 <= r - py < 4 && 0 <= c - px < 4 && m[r - py][c - px]
}

/// The grid after locking a piece into it: each cell covered by an occupied
/// mask cell becomes locked, all others keep their state.
pub open spec fn spec_lock(g: Seq<Seq<bool>>, m: Seq<Seq<bool>>, px: int, py: int) -> Seq<
    Seq<bool>,
> {
    Seq::new(g.len(), |r: int| Seq::new(g[r].len(), |c: int| g[r][c] || covers(m, px, py, r, c)))
}

/// Whether every column of the row is locked.
pub open spec fn row_full(row: Seq<bool>) -> bool {
    forall|c: int| 0 <= c < row.len() ==> #[trigger] row[c]
}

/// Whether no row of the grid is full.
pub open spec fn no_full_rows(g: Seq<Seq<bool>>) -> bool {
    forall|r: int| 0 <= r < g.len() ==> !row_full(#[trigger] g[r])
}

/// The grid after removing row `y`: every row above it shifts down by one
/// and row 0 becomes empty; rows below are untouched.
pub open spec fn spec_clear_row(g: Seq<Seq<bool>>, y: int) -> Seq<Seq<bool>> {
    Seq::new(
        g.len(),
        |r: int|
            Seq::new(
                g[r].len(),
                |c: int|
                    if r == 0 {
                        false
                    } else if r <= y {
                        g[r - 1][c]
                    } else {
                        g[r][c]
                    },
            ),
    )
}

/// The line values recorded by one clearing pass that scans rows `y` to
/// `h - 1` top to bottom: each row found full is removed at once, so the
/// rows above it shift before the scan continues, and its distance from the
/// bottom (`h - y`, 1-based) is recorded.
pub open spec fn full_row_values(g: Seq<Seq<bool>>, y: int, h: int) -> Seq<int>
    decreases h - y,
{
    if y >= h {
        seq![]
    } else if row_full(g[y]) {
        seq![h - y] + full_row_values(spec_clear_row(g, y), y + 1, h)
    } else {
        full_row_values(g, y + 1, h)
    }
}

/// The grid left by the same clearing pass.
pub open spec fn grid_after_pass(g: Seq<Seq<bool>>, y: int, h: int) -> Seq<Seq<bool>>
    decreases h - y,
{
    if y >= h {
        g
    } else if row_full(g[y]) {
        grid_after_pass(spec_clear_row(g, y), y + 1, h)
    } else {
        grid_after_pass(g, y + 1, h)
    }
}

/// The score a single cleared row earns: its line value `y` (distance from
/// the bottom, 1-based) times the base for the total number of rows cleared
/// in the same tick.
pub open spec fn spec_line_score(y: int, lines: int) -> int {
    if lines == 1 {
        40 * y
    } else if lines == 2 {
        100 * y
    } else if lines == 3 {
        300 * y
    } else if lines == 4 {
        1200 * y
    } else {
        0
    }
}

/// The total score earned by clearing the rows with the given line values,
/// all under the multiplier for `lines` rows cleared in one tick.
pub open spec fn payout(values: Seq<int>, lines: int) -> int
    decreases values.len(),
{
    if values.len() == 0 {
        0
    } else {
        payout(values.drop_last(), lines) + spec_line_score(values.last(), lines)
    }
}

/// Addition on scores, saturating at the top of `usize`.
pub open spec fn sat_add(a: int, b: int) -> int {
    if a + b <= usize::MAX {
        a + b
    } else {
        usize::MAX as int
    }
}

/// Calculate score for one removed line.
/// `y` - line number counting from the bottom (1 is the lowest row).
/// `lines` - number of lines removed in the same tick; at most 4 can clear
/// from a single lock, so larger counts are ruled out.
pub fn get_score(y: usize, lines: usize) -> (s: usize)
    requires
        lines <= 4,
        y <= 0x1000,
    ensures
        s == spec_line_score(y as int, lines as int),
{
    if lines == 0 {
        0
    } else if lines == 1 {
        40 * y
    } else if lines == 2 {
        100 * y
    } else if lines == 3 {
        300 * y
    } else {
        1200 * y
    }
}

/// The playfield: a fixed-size occupancy grid, the falling piece, and the
/// cumulative score.
pub struct Board {
    pub size: Pos,
    pub block: Block,
    pub block_pos: Pos,
    pub cells: Vec<Vec<bool>>,
    pub score: usize,
}

impl Board {
    /// The field width in columns.
    pub open spec fn w(self) -> int {
        self.size.x as int
    }

    /// The field height in rows.
    pub open spec fn h(self) -> int {
        self.size.y as int
    }

    /// The locked-cell grid, row by row from the top.
    pub open spec fn grid(self) -> Seq<Seq<bool>> {
        Seq::new(self.cells@.len(), |r: int| self.cells@[r]@)
    }

    /// The falling piece's mask.
    pub open spec fn piece_mask(self) -> Seq<Seq<bool>> {
        self.block@
    }

    /// The falling piece's position.
    pub open spec fn piece_pos(self) -> Pos {
        self.block_pos
    }

    /// Well-formedness: bounded dimensions, a grid of matching shape, and a
    /// nonempty well-formed piece mask whose occupied cells lie on the field.
    pub open spec fn wf(self) -> bool {
        &&& 5 <= self.size.x <= 0x1000
        &&& 4 <= self.size.y <= 0x1000
        &&& grid_wf(self.grid(), self.w(), self.h())
        &&& mask_wf(self.piece_mask())
        &&& mask_nonempty(self.piece_mask())
        &&& self.piece_in_bounds()
    }

    /// Every occupied cell of the falling piece lies within the field.
    pub open spec fn piece_in_bounds(self) -> bool {
        forall|r: int, c: int|
            0 <= r < 4 && 0 <= c < 4 && #[trigger] self.piece_mask()[r][c] ==> {
                &&& 0 <= self.block_pos.y + r < self.h()
                &&& 0 <= self.block_pos.x + c < self.w()
            }
    }

    /// The piece position stays within a small margin of the field; this
    /// follows from well-formedness because some cell of the mask is
    /// occupied and must lie on the field.
    pub proof fn lemma_pos_range(self)
        requires
            self.wf(),
        ensures
            -3 <= self.piece_pos().x < self.w(),
            -3 <= self.piece_pos().y < self.h(),
    {
        let (r, c) = choose|r: int, c: int|
            0 <= r < 4 && 0 <= c < 4 && #[trigger] self.piece_mask()[r][c];
        assert(0 <= self.block_pos.y + r < self.h());
        assert(0 <= self.block_pos.x + c < self.w());
    }

    /// The field width.
    pub fn width(&self) -> (w: i32)
        ensures
            w == self.w(),
    {
        self.size.x
    }

    /// The field height.
    pub fn height(&self) -> (h: i32)
        ensures
            h == self.h(),
    {
        self.size.y
    }

    /// The locked state of the cell at column `x`, row `y`.
    pub fn cell(&self, x: usize, y: usize) -> (v: bool)
        requires
            self.wf(),
            x < self.w(),
            y < self.h(),
        ensures
            v == self.grid()[y as int][x as int],
    {
        proof {
            assert(self.grid()[y as int].len() == self.w());
            assert(self.grid()[y as int] == self.cells@[y as int]@);
        }
        self.cells[y][x]
    }

    /// Overwrite the locked state of the cell at column `x`, row `y`.
    pub fn set_cell(&mut self, x: usize, y: usize, value: bool)
        requires
            old(self).wf(),
            x < old(self).w(),
            y < old(self).h(),
        ensures
            final(self).wf(),
            final(self).grid() == old(self).grid().update(
                y as int,
                old(self).grid()[y as int].update(x as int, value),
            ),
            final(self).w() == old(self).w(),
            final(self).h() == old(self).h(),
            final(self).piece_mask() == old(self).piece_mask(),
            final(self).piece_pos() == old(self).piece_pos(),
            final(self).score == old(self).score,
    {
        proof {
            assert(self.grid()[y as int].len() == self.w());
            assert(self.grid()[y as int] == self.cells@[y as int]@);
        }
        self.cells[y][x] = value;
        proof {
            assert(self.grid() =~~= old(self).grid().update(
                y as int,
                old(self).grid()[y as int].update(x as int, value),
            ));
        }
    }

    /// A copy of the falling piece's mask.
    pub fn active_block(&self) -> (b: Block)
        ensures
            b@ == self.piece_mask(),
    {
        self.block
    }

    /// The falling piece's position.
    pub fn block_position(&self) -> (p: Pos)
        ensures
            p == self.piece_pos(),
    {
        self.block_pos
    }

    /// Whether the given mask, placed at `pos`, collides: some occupied
    /// cell falls outside the field or onto a locked cell.
    pub fn check_collision(&self, block: &Block, pos: Pos) -> (hit: bool)
        requires
            self.wf(),
            pos.x <= i32::MAX - 3,
            pos.y <= i32::MAX - 3,
        ensures
            hit == spec_collides(
                self.grid(),
                self.w(),
                self.h(),
                block@,
                pos.x as int,
                pos.y as int,
            ),
    {
        let mut y: usize = 0;
        while y < 4
            invariant
                self.wf(),
                pos.x <= i32::MAX - 3,
                pos.y <= i32::MAX - 3,
                y <= 4,
                forall|r: int, c: int|
                    0 <= r < y && 0 <= c < 4 && #[trigger] block@[r][c] ==> !cell_blocked(
                        self.grid(),
                        self.w(),
                        self.h(),
                        pos.x + c,
                        pos.y + r,
                    ),
            decreases 4 - y,
        {
            let mut x: usize = 0;
            while x < 4
                invariant
                    self.wf(),
                    pos.x <= i32::MAX - 3,
                    pos.y <= i32::MAX - 3,
                    y < 4,
                    x <= 4,
                    forall|r: int, c: int|
                        0 <= r < y && 0 <= c < 4 && #[trigger] block@[r][c] ==> !cell_blocked(
                            self.grid(),
                            self.w(),
                            self.h(),
                            pos.x + c,
                            pos.y + r,
                        ),
                    forall|c: int|
                        0 <= c < x && #[trigger] block@[y as int][c] ==> !cell_blocked(
                            self.grid(),
                            self.w(),
                            self.h(),
                            pos.x + c,
                            pos.y + y as int,
                        ),
                decreases 4 - x,
            {
                if block.cells[y][x] {
                    let abs_x = pos.x + x as i32;
                    let abs_y = pos.y + y as i32;
                    if abs_y >= self.size.y || abs_y < 0 || abs_x >= self.size.x || abs_x < 0 || ({
                        proof {
                            assert(self.grid()[abs_y as int].len() == self.w());
                            assert(self.grid()[abs_y as int] == self.cells@[abs_y as int]@);
                        }
                        self.cells[abs_y as usize][abs_x as usize]
                    }) {
                        proof {
                            assert(block@[y as int][x as int] && cell_blocked(
                                self.grid(),
                                self.w(),
                                self.h(),
                                pos.x + x as int,
                                pos.y + y as int,
                            ));
                        }
                        return true;
                    }
                }
                x += 1;
            }
            y += 1;
        }
        false
    }

    /// A fresh field of `w` by `h` cells with the given shape spawned,
    /// horizontally centered at the top row, and score zero.
    pub fn with_block(w: i32, h: i32, variant: BlockType) -> (b: Board)
        requires
            5 <= w <= 0x1000,
            4 <= h <= 0x1000,
        ensures
            b.wf(),
            b.w() == w,
            b.h() == h,
            b.score == 0,
            forall|r: int, c: int| 0 <= r < h && 0 <= c < w ==> !(#[trigger] b.grid()[r][c]),
            no_full_rows(b.grid()),
            b.piece_pos() == (Pos { x: (w / 2) as i32, y: 0 }),
            b.piece_mask() == mask_of(variant),
    {
        let block = Block::new(variant);
        let mut cells: Vec<Vec<bool>> = Vec::new();
        let mut r: i32 = 0;
        while r < h
            invariant
                0 <= r <= h,
                h <= 0x1000,
                5 <= w <= 0x1000,
                cells@.len() == r,
                forall|i: int|
                    0 <= i < r ==> (#[trigger] cells@[i])@.len() == w && forall|c: int|
                        0 <= c < w ==> !cells@[i]@[c],
            decreases h - r,
        {
            let mut row: Vec<bool> = Vec::new();
            let mut c: i32 = 0;
            while c < w
                invariant
                    0 <= c <= w,
                    row@.len() == c,
                    forall|j: int| 0 <= j < c ==> !row@[j],
                decreases w - c,
            {
                row.push(false);
                c += 1;
            }
            cells.push(row);
            r += 1;
        }
        let b = Board {
            size: Pos { x: w, y: h },
            block,
            block_pos: Pos { x: w / 2, y: 0 },
            cells,
            score: 0,
        };
        proof {
            lemma_canonical_mask(variant);
            assert(forall|i: int| 0 <= i < h ==> b.grid()[i] == b.cells@[i]@);
            assert(w / 2 + 2 < w);
            assert(b.piece_in_bounds());
            assert forall|i: int| 0 <= i < h implies !row_full(#[trigger] b.grid()[i]) by {
                assert(!b.grid()[i][0]);
            }
        }
        b
    }

    /// A fresh field of `w` by `h` cells with a uniformly random shape
    /// spawned, horizontally centered at the top row, and score zero.
    pub fn new(w: i32, h: i32) -> (b: Board)
        requires
            5 <= w <= 0x1000,
            4 <= h <= 0x1000,
        ensures
            b.wf(),
            b.w() == w,
            b.h() == h,
            b.score == 0,
            forall|r: int, c: int| 0 <= r < h && 0 <= c < w ==> !(#[trigger] b.grid()[r][c]),
            no_full_rows(b.grid()),
            b.piece_pos() == (Pos { x: (w / 2) as i32, y: 0 }),
            exists|v: BlockType| b.piece_mask() == mask_of(v),
    {
        Board::with_block(w, h, BlockType::rand())
    }

    /// Lock the falling piece: set every grid cell its occupied mask cells
    /// cover. The piece itself is left in place.
    fn drop_block(&mut self)
        requires
            old(self).wf(),
        ensures
            final(self).wf(),
            final(self).grid() == spec_lock(
                old(self).grid(),
                old(self).piece_mask(),
                old(self).block_pos.x as int,
                old(self).block_pos.y as int,
            ),
            final(self).size == old(self).size,
            final(self).block == old(self).block,
            final(self).block_pos == old(self).block_pos,
            final(self).score == old(self).score,
    {
        let ghost px = self.block_pos.x as int;
        let ghost py = self.block_pos.y as int;
        proof {
            assert(forall|rr: int|
                0 <= rr < old(self).h() ==> old(self).grid()[rr] == #[trigger] old(
                    self,
                ).cells@[rr]@);
        }
        let mut y: usize = 0;
        while y < 4
            invariant
                old(self).wf(),
                y <= 4,
                self.size == old(self).size,
                self.block == old(self).block,
                self.block_pos == old(self).block_pos,
                self.score == old(self).score,
                px == self.block_pos.x as int,
                py == self.block_pos.y as int,
                self.cells@.len() == old(self).cells@.len(),
                forall|rr: int|
                    0 <= rr < self.cells@.len() ==> (#[trigger] self.cells@[rr])@.len() == old(
                        self,
                    ).cells@[rr]@.len(),
                forall|rr: int, cc: int|
                    0 <= rr < old(self).h() && 0 <= cc < old(self).w()
                        ==> #[trigger] self.cells@[rr]@[cc] == (old(self).cells@[rr]@[cc]
                        || covers_upto(old(self).piece_mask(), px, py, rr, cc, y as int, 0)),
            decreases 4 - y,
        {
            let mut x: usize = 0;
            while x < 4
                invariant
                    old(self).wf(),
                    y < 4,
                    x <= 4,
                    self.size == old(self).size,
                    self.block == old(self).block,
                    self.block_pos == old(self).block_pos,
                    self.score == old(self).score,
                    px == self.block_pos.x as int,
                    py == self.block_pos.y as int,
                    self.cells@.len() == old(self).cells@.len(),
                    forall|rr: int|
                        0 <= rr < self.cells@.len() ==> (#[trigger] self.cells@[rr])@.len() == old(
                            self,
                        ).cells@[rr]@.len(),
                    forall|rr: int, cc: int|
                        0 <= rr < old(self).h() && 0 <= cc < old(self).w()
                            ==> #[trigger] self.cells@[rr]@[cc] == (old(self).cells@[rr]@[cc]
                            || covers_upto(
                            old(self).piece_mask(),
                            px,
                            py,
                            rr,
                            cc,
                            y as int,
                            x as int,
                        )),
                decreases 4 - x,
            {
                if self.block.cells[y][x] {
                    proof {
                        assert(old(self).piece_mask()[y as int][x as int]);
                        assert(0 <= py + y < old(self).h() && 0 <= px + x < old(self).w());
                        assert(old(self).grid()[py + y] == old(self).cells@[py + y]@);
                        assert(self.cells@[py + y]@.len() == old(self).w());
                    }
                    let row = (self.block_pos.y + y as i32) as usize;
                    let col = (self.block_pos.x + x as i32) as usize;
                    self.cells[row][col] = true;
                }
                proof {
                    assert(forall|rr: int, cc: int|
                        0 <= rr < old(self).h() && 0 <= cc < old(self).w()
                            ==> #[trigger] self.cells@[rr]@[cc] == (old(self).cells@[rr]@[cc]
                            || covers_upto(
                            old(self).piece_mask(),
                            px,
                            py,
                            rr,
                            cc,
                            y as int,
                            x + 1,
                        )));
                }
                x += 1;
            }
            y += 1;
        }
        proof {
            assert forall|rr: int| 0 <= rr < old(self).h() implies #[trigger] self.grid()[rr]
                =~= spec_lock(old(self).grid(), old(self).piece_mask(), px, py)[rr] by {
                assert(self.grid()[rr] == self.cells@[rr]@);
                assert(old(self).grid()[rr] == old(self).cells@[rr]@);
            }
            assert(self.grid() =~= spec_lock(
                old(self).grid(),
                old(self).piece_mask(),
                px,
                py,
            ));
            assert(self.piece_in_bounds());
        }
    }

    /// Scan every row top to bottom; remove each full row as it is found
    /// and record its line value, then add the payout for the pass to the
    /// score, saturating at the top of `usize`.
    fn try_clear(&mut self)
        requires
            old(self).wf(),
            full_row_values(old(self).grid(), 0, old(self).h()).len() <= 4,
        ensures
            final(self).wf(),
            final(self).grid() == grid_after_pass(old(self).grid(), 0, old(self).h()),
            no_full_rows(final(self).grid()),
            final(self).score == sat_add(
                old(self).score as int,
                payout(
                    full_row_values(old(self).grid(), 0, old(self).h()),
                    full_row_values(old(self).grid(), 0, old(self).h()).len() as int,
                ),
            ),
            final(self).size == old(self).size,
            final(self).block == old(self).block,
            final(self).block_pos == old(self).block_pos,
    {
        let ghost vals0 = full_row_values(old(self).grid(), 0, old(self).h());
        let h = self.size.y;
        let mut lines: Vec<i32> = Vec::new();
        let ghost mut gvals: Seq<int> = Seq::empty();
        let mut y: i32 = 0;
        while y < h
            invariant
                old(self).wf(),
                0 <= y <= h,
                h == old(self).h(),
                self.wf(),
                self.size == old(self).size,
                self.block == old(self).block,
                self.block_pos == old(self).block_pos,
                self.score == old(self).score,
                vals0 == full_row_values(old(self).grid(), 0, old(self).h()),
                grid_after_pass(old(self).grid(), 0, h as int) == grid_after_pass(
                    self.grid(),
                    y as int,
                    h as int,
                ),
                vals0 == gvals + full_row_values(self.grid(), y as int, h as int),
                gvals.len() == lines@.len(),
                forall|i: int| 0 <= i < gvals.len() ==> #[trigger] gvals[i] == lines@[i],
                forall|i: int| 0 <= i < lines@.len() ==> 1 <= #[trigger] lines@[i] <= h,
            decreases h - y,
        {
            if self.should_clear(y as usize) {
                let ghost pre = *self;
                self.clear(y as usize);
                lines.push(h - y);
                proof {
                    let rest = full_row_values(self.grid(), y + 1, h as int);
                    assert(full_row_values(pre.grid(), y as int, h as int) == seq![h - y as int]
                        + rest);
                    gvals = gvals.push((h - y) as int);
                    assert(vals0 =~= gvals + rest);
                }
            } else {
                proof {
                    assert(full_row_values(self.grid(), y as int, h as int) == full_row_values(
                        self.grid(),
                        y + 1,
                        h as int,
                    ));
                }
            }
            y += 1;
        }
        proof {
            assert(vals0 =~= gvals);
            assert(grid_after_pass(self.grid(), h as int, h as int) == self.grid());
            lemma_pass_no_full(old(self).grid(), 0, h as int, old(self).w());
        }
        let n = lines.len();
        let ghost mid = *self;
        let mut i: usize = 0;
        while i < n
            invariant
                old(self).wf(),
                mid.wf(),
                i <= n,
                n == lines@.len(),
                n == gvals.len(),
                n <= 4,
                h == old(self).h(),
                self.size == mid.size,
                self.block == mid.block,
                self.block_pos == mid.block_pos,
                self.cells == mid.cells,
                mid.score == old(self).score,
                gvals.len() == lines@.len(),
                forall|j: int| 0 <= j < gvals.len() ==> #[trigger] gvals[j] == lines@[j],
                forall|j: int| 0 <= j < lines@.len() ==> 1 <= #[trigger] lines@[j] <= h,
                self.score == sat_add(
                    old(self).score as int,
                    payout(gvals.take(i as int), gvals.len() as int),
                ),
            decreases n - i,
        {
            let ghost p = payout(gvals.take(i as int), gvals.len() as int);
            let s = get_score(lines[i] as usize, n);
            self.score = add_sat(self.score, s);
            proof {
                assert(gvals.take(i + 1).drop_last() =~= gvals.take(i as int));
                assert(gvals.take(i + 1).last() == gvals[i as int]);
                assert(payout(gvals.take(i + 1), gvals.len() as int) == p + spec_line_score(
                    gvals[i as int],
                    gvals.len() as int,
                ));
                assert(forall|j: int|
                    0 <= j < gvals.take(i as int).len() ==> #[trigger] gvals.take(i as int)[j]
                        >= 0);
                lemma_payout_nonneg(gvals.take(i as int), gvals.len() as int);
                assert(spec_line_score(gvals[i as int], gvals.len() as int) == s);
                assert(s >= 0);
                assert(sat_add(sat_add(old(self).score as int, p), s as int) == sat_add(
                    old(self).score as int,
                    p + s,
                ));
            }
            i += 1;
        }
        proof {
            assert(gvals.take(n as int) =~= gvals);
            assert(self.grid() =~= mid.grid());
        }
    }

    /// Whether every column of the given row is locked.
    fn should_clear(&self, row: usize) -> (full: bool)
        requires
            self.wf(),
            row < self.h(),
        ensures
            full == row_full(self.grid()[row as int]),
    {
        let w = self.size.x;
        let mut x: i32 = 0;
        while x < w
            invariant
                self.wf(),
                row < self.h(),
                w == self.w(),
                0 <= x <= w,
                forall|c: int| 0 <= c < x ==> self.grid()[row as int][c],
            decreases w - x,
        {
            proof {
                assert(self.grid()[row as int].len() == self.w());
                assert(self.grid()[row as int] == self.cells@[row as int]@);
            }
            if !self.cells[row][x as usize] {
                return false;
            }
            x += 1;
        }
        proof {
            assert(self.grid()[row as int].len() == self.w());
        }
        true
    }

    /// Remove the given row: shift every row above it down by one and empty
    /// row 0.
    fn clear(&mut self, row: usize)
        requires
            old(self).wf(),
            row < old(self).h(),
        ensures
            final(self).wf(),
            final(self).grid() == spec_clear_row(old(self).grid(), row as int),
            final(self).size == old(self).size,
            final(self).block == old(self).block,
            final(self).block_pos == old(self).block_pos,
            final(self).score == old(self).score,
    {
        proof {
            assert(forall|rr: int|
                0 <= rr < old(self).h() ==> old(self).grid()[rr] == #[trigger] old(
                    self,
                ).cells@[rr]@);
        }
        let w = self.size.x as usize;
        let mut y = row;
        while y > 0
            invariant
                old(self).wf(),
                y <= row,
                row < old(self).h(),
                w == old(self).w(),
                self.size == old(self).size,
                self.block == old(self).block,
                self.block_pos == old(self).block_pos,
                self.score == old(self).score,
                self.cells@.len() == old(self).cells@.len(),
                forall|rr: int|
                    0 <= rr < old(self).h() ==> (#[trigger] self.cells@[rr])@ == if y < rr
                        <= row {
                        old(self).cells@[rr - 1]@
                    } else {
                        old(self).cells@[rr]@
                    },
            decreases y,
        {
            let mut x: usize = 0;
            while x < w
                invariant
                    old(self).wf(),
                    0 < y <= row,
                    row < old(self).h(),
                    w == old(self).w(),
                    x <= w,
                    self.size == old(self).size,
                    self.block == old(self).block,
                    self.block_pos == old(self).block_pos,
                    self.score == old(self).score,
                    self.cells@.len() == old(self).cells@.len(),
                    forall|rr: int|
                        0 <= rr < old(self).h() && rr != y ==> (#[trigger] self.cells@[rr])@ == if y
                            < rr <= row {
                            old(self).cells@[rr - 1]@
                        } else {
                            old(self).cells@[rr]@
                        },
                    self.cells@[y as int]@.len() == old(self).cells@[y as int]@.len(),
                    forall|cc: int|
                        0 <= cc < old(self).w() ==> #[trigger] self.cells@[y as int]@[cc] == if cc
                            < x {
                            old(self).cells@[y - 1]@[cc]
                        } else {
                            old(self).cells@[y as int]@[cc]
                        },
                decreases w - x,
            {
                proof {
                    assert(old(self).grid()[y - 1] == old(self).cells@[y - 1]@);
                    assert(old(self).grid()[y as int] == old(self).cells@[y as int]@);
                    assert(self.cells@[y - 1]@ == old(self).cells@[y - 1]@);
                }
                let v = self.cells[y - 1][x];
                self.cells[y][x] = v;
                x += 1;
            }
            proof {
                assert(old(self).grid()[y as int] == old(self).cells@[y as int]@);
                assert(old(self).grid()[y - 1] == old(self).cells@[y - 1]@);
                assert(self.cells@[y as int]@ =~= old(self).cells@[y - 1]@);
            }
            y -= 1;
        }
        let mut x: usize = 0;
        while x < w
            invariant
                old(self).wf(),
                row < old(self).h(),
                w == old(self).w(),
                x <= w,
                self.size == old(self).size,
                self.block == old(self).block,
                self.block_pos == old(self).block_pos,
                self.score == old(self).score,
                self.cells@.len() == old(self).cells@.len(),
                forall|rr: int|
                    0 < rr < old(self).h() ==> (#[trigger] self.cells@[rr])@ == if rr <= row {
                        old(self).cells@[rr - 1]@
                    } else {
                        old(self).cells@[rr]@
                    },
                self.cells@[0]@.len() == old(self).cells@[0]@.len(),
                forall|cc: int|
                    0 <= cc < old(self).w() ==> #[trigger] self.cells@[0]@[cc] == if cc < x {
                        false
                    } else {
                        old(self).cells@[0]@[cc]
                    },
            decreases w - x,
        {
            proof {
                assert(old(self).grid()[0] == old(self).cells@[0]@);
            }
            self.cells[0][x] = false;
            x += 1;
        }
        proof {
            assert forall|rr: int| 0 <= rr < old(self).h() implies #[trigger] self.grid()[rr]
                =~= spec_clear_row(old(self).grid(), row as int)[rr] by {
                assert(self.grid()[rr] == self.cells@[rr]@);
                assert(old(self).grid()[rr] == old(self).cells@[rr]@);
                if rr != 0 {
                    assert(old(self).grid()[rr - 1] == old(self).cells@[rr - 1]@);
                }
            }
            assert(self.grid() =~= spec_clear_row(old(self).grid(), row as int));
            assert(self.piece_in_bounds());
        }
    }
}

/// The number of rows at index `y` or below that are full in the grid as
/// it stands.
pub open spec fn num_full_from(g: Seq<Seq<bool>>, y: int, h: int) -> int
    decreases h - y,
{
    if y >= h {
        0
    } else {
        (if row_full(g[y]) {
            1int
        } else {
            0int
        }) + num_full_from(g, y + 1, h)
    }
}

/// Two grids that agree on rows `y` and below have the same full-row count
/// from `y`.
proof fn lemma_num_full_agree(g1: Seq<Seq<bool>>, g2: Seq<Seq<bool>>, y: int, h: int)
    requires
        forall|r: int| y <= r < h ==> #[trigger] g1[r] == g2[r],
    ensures
        num_full_from(g1, y, h) == num_full_from(g2, y, h),
    decreases h - y,
{
    if y < h {
        lemma_num_full_agree(g1, g2, y + 1, h);
    }
}

/// Removing a row changes nothing at or below the scan position, so the
/// number of line values a pass records equals the number of rows full in
/// the grid the pass started from.
pub proof fn lemma_values_len(g: Seq<Seq<bool>>, y: int, h: int)
    requires
        g.len() == h,
        0 <= y,
    ensures
        full_row_values(g, y, h).len() == num_full_from(g, y, h),
    decreases h - y,
{
    if y < h {
        if row_full(g[y]) {
            let g2 = spec_clear_row(g, y);
            assert forall|r: int| y + 1 <= r < h implies #[trigger] g2[r] == g[r] by {
                assert(g2[r] =~= g[r]);
            }
            lemma_values_len(g2, y + 1, h);
            lemma_num_full_agree(g2, g, y + 1, h);
        } else {
            lemma_values_len(g, y + 1, h);
        }
    }
}

/// When every full row lies in the four-row window starting at `py`, at
/// most four rows are full.
proof fn lemma_num_full_window(g: Seq<Seq<bool>>, y: int, h: int, py: int)
    requires
        forall|r: int| y <= r < h && row_full(#[trigger] g[r]) ==> py <= r < py + 4,
    ensures
        num_full_from(g, y, h) <= if y <= py {
            4int
        } else if y < py + 4 {
            py + 4 - y
        } else {
            0int
        },
    decreases h - y,
{
    if y < h {
        lemma_num_full_window(g, y + 1, h, py);
    }
}

/// A clearing pass leaves no full row: every row of the result is either a
/// row the scan saw and found not full, a copy of such a row shifted down,
/// or the emptied top row.
pub proof fn lemma_pass_no_full(g: Seq<Seq<bool>>, y: int, h: int, w: int)
    requires
        g.len() == h,
        forall|r: int| 0 <= r < h ==> (#[trigger] g[r]).len() == w,
        w >= 1,
        forall|r: int| 0 <= r < y && r < h ==> !row_full(#[trigger] g[r]),
    ensures
        grid_after_pass(g, y, h).len() == h,
        forall|r: int| 0 <= r < h ==> (#[trigger] grid_after_pass(g, y, h)[r]).len() == w,
        no_full_rows(grid_after_pass(g, y, h)),
    decreases h - y,
{
    if y >= h {
    } else if row_full(g[y]) {
        let g2 = spec_clear_row(g, y);
        assert forall|r: int| 0 <= r < y + 1 && r < h implies !row_full(#[trigger] g2[r]) by {
            if r == 0 {
                assert(!g2[0][0]);
            } else {
                assert(!row_full(g[r - 1]));
                let c = choose|c: int| 0 <= c < g[r - 1].len() && !(#[trigger] g[r - 1][c]);
                assert(!g2[r][c]);
            }
        }
        lemma_pass_no_full(g2, y + 1, h, w);
    } else {
        lemma_pass_no_full(g, y + 1, h, w);
    }
}

/// A pass over a grid with no full row removes nothing: the grid and the
/// score are left as they were.
pub proof fn lemma_pass_noop(g: Seq<Seq<bool>>, y: int, h: int)
    requires
        forall|r: int| y <= r < h ==> !row_full(#[trigger] g[r]),
    ensures
        grid_after_pass(g, y, h) == g,
        full_row_values(g, y, h) == Seq::<int>::empty(),
    decreases h - y,
{
    if y < h {
        lemma_pass_noop(g, y + 1, h);
    }
    assert(full_row_values(g, y, h) =~= Seq::<int>::empty());
}

/// Every line value a pass records lies between 1 and `h - y`.
pub proof fn lemma_values_range(g: Seq<Seq<bool>>, y: int, h: int)
    ensures
        forall|i: int|
            0 <= i < full_row_values(g, y, h).len() ==> 1 <= #[trigger] full_row_values(
                g,
                y,
                h,
            )[i] <= h - y,
    decreases h - y,
{
    if y < h {
        if row_full(g[y]) {
            lemma_values_range(spec_clear_row(g, y), y + 1, h);
            let vals = full_row_values(g, y, h);
            let rest = full_row_values(spec_clear_row(g, y), y + 1, h);
            assert(vals == seq![h - y] + rest);
            assert forall|i: int| 0 <= i < vals.len() implies 1 <= #[trigger] vals[i] <= h
                - y by {
                if i == 0 {
                    assert(vals[i] == h - y);
                } else {
                    assert(vals[i] == rest[i - 1]);
                }
            }
        } else {
            lemma_values_range(g, y + 1, h);
            let vals = full_row_values(g, y, h);
            let rest = full_row_values(g, y + 1, h);
            assert(vals == rest);
            assert forall|i: int| 0 <= i < vals.len() implies 1 <= #[trigger] vals[i] <= h
                - y by {
                assert(vals[i] == rest[i]);
            }
        }
    }
}

/// A payout over nonnegative line values is nonnegative.
proof fn lemma_payout_nonneg(values: Seq<int>, lines: int)
    requires
        forall|i: int| 0 <= i < values.len() ==> #[trigger] values[i] >= 0,
    ensures
        payout(values, lines) >= 0,
    decreases values.len(),
{
    if values.len() > 0 {
        lemma_payout_nonneg(values.drop_last(), lines);
    }
}

/// Addition saturating at the top of `usize`.
fn add_sat(a: usize, b: usize) -> (r: usize)
    ensures
        r == sat_add(a as int, b as int),
{
    if a <= usize::MAX - b {
        a + b
    } else {
        usize::MAX
    }
}

/// How one gravity tick, or a manual move down, transforms the field: the
/// piece falls one row if nothing blocks it; otherwise it locks, full rows
/// clear with their payout, a fresh piece (some canonical shape) spawns
/// centered at the top, and `over` reports whether that piece immediately
/// collides.
pub open spec fn step_rel(pre: Board, post: Board, over: bool) -> bool {
    if !spec_collides(
        pre.grid(),
        pre.w(),
        pre.h(),
        pre.piece_mask(),
        pre.piece_pos().x as int,
        pre.piece_pos().y + 1,
    ) {
        &&& post.grid() == pre.grid()
        &&& post.piece_mask() == pre.piece_mask()
        &&& post.piece_pos() == (Pos { x: pre.piece_pos().x, y: (pre.piece_pos().y + 1) as i32 })
        &&& post.score == pre.score
        &&& post.size == pre.size
        &&& over == false
    } else {
        let locked = spec_lock(
            pre.grid(),
            pre.piece_mask(),
            pre.piece_pos().x as int,
            pre.piece_pos().y as int,
        );
        let vals = full_row_values(locked, 0, pre.h());
        &&& post.grid() == grid_after_pass(locked, 0, pre.h())
        &&& post.score as int == sat_add(pre.score as int, payout(vals, vals.len() as int))
        &&& (exists|v: BlockType| post.piece_mask() == mask_of(v))
        &&& post.piece_pos() == (Pos { x: (pre.w() / 2) as i32, y: 0 })
        &&& post.size == pre.size
        &&& over == spec_collides(
            post.grid(),
            pre.w(),
            pre.h(),
            post.piece_mask(),
            pre.w() / 2,
            0,
        )
    }
}

/// How a manual horizontal move by `dx` transforms the field: the piece
/// shifts if the target placement is free, else nothing changes.
pub open spec fn shift_rel(pre: Board, post: Board, dx: int) -> bool {
    if spec_collides(
        pre.grid(),
        pre.w(),
        pre.h(),
        pre.piece_mask(),
        pre.piece_pos().x + dx,
        pre.piece_pos().y as int,
    ) {
        post == pre
    } else {
        &&& post.grid() == pre.grid()
        &&& post.piece_mask() == pre.piece_mask()
        &&& post.piece_pos() == (Pos {
            x: (pre.piece_pos().x + dx) as i32,
            y: pre.piece_pos().y,
        })
        &&& post.score == pre.score
        &&& post.size == pre.size
    }
}

/// How a rotation attempt transforms the field: the clockwise-rotated mask
/// is tried at the piece's position, then kicked one column right, then one
/// column left of the original position; if all three placements collide
/// the piece is unchanged. The grid and score never change.
pub open spec fn rotate_rel(pre: Board, post: Board) -> bool {
    let rm = rot_cw(pre.piece_mask());
    let px = pre.piece_pos().x as int;
    let py = pre.piece_pos().y as int;
    &&& post.grid() == pre.grid()
    &&& post.score == pre.score
    &&& post.size == pre.size
    &&& if !spec_collides(pre.grid(), pre.w(), pre.h(), rm, px, py) {
        post.piece_mask() == rm && post.piece_pos() == pre.piece_pos()
    } else if !spec_collides(pre.grid(), pre.w(), pre.h(), rm, px + 1, py) {
        post.piece_mask() == rm && post.piece_pos() == (Pos {
            x: (px + 1) as i32,
            y: pre.piece_pos().y,
        })
    } else if !spec_collides(pre.grid(), pre.w(), pre.h(), rm, px - 1, py) {
        post.piece_mask() == rm && post.piece_pos() == (Pos {
            x: (px - 1) as i32,
            y: pre.piece_pos().y,
        })
    } else {
        post == pre
    }
}

impl Board {
    /// Replace the falling piece by the given block at the centered top
    /// position. Returns whether the fresh piece immediately collides with
    /// the grid as it stands, which signals game over. The grid and the
    /// score are untouched either way.
    pub fn spawn(&mut self, block: Block) -> (over: bool)
        requires
            old(self).wf(),
            mask_wf(block@),
            mask_nonempty(block@),
            (forall|r: int, c: int|
                0 <= r < 4 && 0 <= c < 4 && #[trigger] block@[r][c] ==> old(self).w() / 2 + c
                    < old(self).w()),
        ensures
            final(self).wf(),
            final(self).grid() == old(self).grid(),
            final(self).score == old(self).score,
            final(self).size == old(self).size,
            final(self).piece_mask() == block@,
            final(self).piece_pos() == (Pos { x: (old(self).w() / 2) as i32, y: 0 }),
            over == spec_collides(
                old(self).grid(),
                old(self).w(),
                old(self).h(),
                block@,
                old(self).w() / 2,
                0,
            ),
    {
        self.block = block;
        self.block_pos = Pos { x: self.size.x / 2, y: 0 };
        proof {
            assert(self.piece_in_bounds());
        }
        let b = self.block;
        self.check_collision(&b, self.block_pos)
    }

    /// Try to rotate the falling piece clockwise, with the bounded wall
    /// kick that `rotate_rel` describes.
    fn rotate(&mut self)
        requires
            old(self).wf(),
        ensures
            final(self).wf(),
            (rotate_rel(*old(self), *final(self))),
    {
        proof {
            lemma_rot_cw_shape(old(self).piece_mask());
            old(self).lemma_pos_range();
        }
        let rotated = self.block.rotate(RotDir::Clockwise);
        let pos = self.block_pos;
        if !self.check_collision(&rotated, pos) {
            self.block = rotated;
            proof {
                assert(self.piece_in_bounds());
            }
            return;
        }
        let pos1 = Pos { x: pos.x + 1, y: pos.y };
        if !self.check_collision(&rotated, pos1) {
            self.block = rotated;
            self.block_pos = pos1;
            proof {
                assert(self.piece_in_bounds());
            }
            return;
        }
        let pos2 = Pos { x: pos.x - 1, y: pos.y };
        if !self.check_collision(&rotated, pos2) {
            self.block = rotated;
            self.block_pos = pos2;
            proof {
                assert(self.piece_in_bounds());
            }
        }
    }

    /// Apply one manual move. Down behaves exactly like a gravity tick:
    /// when something blocks the fall, the piece locks, full rows clear,
    /// and a fresh random piece spawns; the result then reports whether
    /// that piece immediately collided (game over). Up is ignored, and no
    /// other direction can end the game.
    fn mv(&mut self, dir: Dir) -> (over: bool)
        requires
            old(self).wf(),
            no_full_rows(old(self).grid()),
        ensures
            final(self).wf(),
            no_full_rows(final(self).grid()),
            (match dir {
                Dir::Up => *final(self) == *old(self) && over == false,
                Dir::Down => step_rel(*old(self), *final(self), over),
                Dir::Left => shift_rel(*old(self), *final(self), -1) && over == false,
                Dir::Right => shift_rel(*old(self), *final(self), 1) && over == false,
            }),
    {
        proof {
            old(self).lemma_pos_range();
        }
        match dir {
            Dir::Up => false,
            Dir::Down => {
                let below = Pos { x: self.block_pos.x, y: self.block_pos.y + 1 };
                let b = self.block;
                if self.check_collision(&b, below) {
                    let ghost py = old(self).block_pos.y as int;
                    self.drop_block();
                    proof {
                        let locked = self.grid();
                        assert forall|r: int|
                            0 <= r < self.h() && row_full(#[trigger] locked[r]) implies py <= r
                            < py + 4 by {
                            if !(py <= r < py + 4) {
                                assert(locked[r] =~= old(self).grid()[r]);
                                assert(!row_full(old(self).grid()[r]));
                            }
                        }
                        lemma_values_len(locked, 0, self.h());
                        lemma_num_full_window(locked, 0, self.h(), py);
                    }
                    self.try_clear();
                    let variant = BlockType::rand();
                    let nb = Block::new(variant);
                    proof {
                        lemma_canonical_mask(variant);
                        assert(self.w() / 2 + 2 < self.w());
                    }
                    self.spawn(nb)
                } else {
                    self.block_pos.y = self.block_pos.y + 1;
                    proof {
                        assert(self.piece_in_bounds());
                    }
                    false
                }
            }
            Dir::Left => {
                let target = Pos { x: self.block_pos.x - 1, y: self.block_pos.y };
                let b = self.block;
                if !self.check_collision(&b, target) {
                    self.block_pos = target;
                    proof {
                        assert(self.piece_in_bounds());
                    }
                }
                false
            }
            Dir::Right => {
                let target = Pos { x: self.block_pos.x + 1, y: self.block_pos.y };
                let b = self.block;
                if !self.check_collision(&b, target) {
                    self.block_pos = target;
                    proof {
                        assert(self.piece_in_bounds());
                    }
                }
                false
            }
        }
    }

    /// Advance one gravity tick: the same transition as a manual move down.
    /// Returns true when the freshly spawned piece immediately collides:
    /// the game is over.
    pub fn step(&mut self) -> (over: bool)
        requires
            old(self).wf(),
            no_full_rows(old(self).grid()),
        ensures
            final(self).wf(),
            no_full_rows(final(self).grid()),
            (step_rel(*old(self), *final(self), over)),
    {
        self.mv(Dir::Down)
    }

    /// Apply one input symbol: the arrows move the piece (up is ignored),
    /// `Rotate` tries the wall-kicked rotation, and any other symbol is a
    /// no-op. A game over caused by a down move is not reported here; the
    /// next tick finds the blocked spawn again and reports it.
    pub fn input(&mut self, code: Input)
        requires
            old(self).wf(),
            no_full_rows(old(self).grid()),
        ensures
            final(self).wf(),
            no_full_rows(final(self).grid()),
            (match code {
                Input::Up => *final(self) == *old(self),
                Input::Down => exists|over: bool| step_rel(*old(self), *final(self), over),
                Input::Left => shift_rel(*old(self), *final(self), -1),
                Input::Right => shift_rel(*old(self), *final(self), 1),
                Input::Rotate => rotate_rel(*old(self), *final(self)),
                Input::Confirm => *final(self) == *old(self),
            }),
    {
        match code {
            Input::Up => {
                self.mv(Dir::Up);
            }
            Input::Down => {
                let over = self.mv(Dir::Down);
                proof {
                    assert(step_rel(*old(self), *self, over));
                }
            }
            Input::Left => {
                self.mv(Dir::Left);
            }
            Input::Right => {
                self.mv(Dir::Right);
            }
            Input::Rotate => {
                self.rotate();
            }
            Input::Confirm => {}
        }
    }
}

/// Whether an occupied mask cell strictly before scan position (`yy`, `xx`)
/// in row-major order covers the grid cell at row `r`, column `c`.
spec fn covers_upto(
    m: Seq<Seq<bool>>,
    px: int,
    py: int,
    r: int,
    c: int,
    yy: int,
    xx: int,
) -> bool {
    &&& 0 <= r - py < 4
    &&& 0 <= c - px < 4
    &&& m[r - py][c - px]
    &&& (r - py < yy || (r - py == yy && c - px < xx))
}

} // verus!
