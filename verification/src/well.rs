//! The playfield: a fixed 10-column by 22-row matrix of settled cells.
//! Row 0 is the top; the top two rows are spawn rows, collision-checked and
//! clearable like any other but never rendered. A cell holds 0 when empty and
//! the producing piece kind's nonzero code when occupied.

use crate::tetromino::Piece;
use crate::tetromino::PieceShape;
use crate::tetromino::Position;
use vstd::prelude::*;

verus! {

/// Number of columns of the playfield.
pub const GRID_WIDTH: usize = 10;

/// Number of rows of the playfield, spawn rows included.
pub const GRID_HEIGHT: usize = 22;

/// Total number of cells, row-major.
pub const GRID_CELLS: usize = 220;

/// A grid value is well formed when it holds exactly one code per cell.
pub open spec fn grid_wf(g: Seq<u32>) -> bool {
    g.len() == 220
}

/// Row `r` is full when every one of its ten cells is occupied.
pub open spec fn row_full(g: Seq<u32>, r: int) -> bool {
    forall|c: int| 0 <= c < 10 ==> #[trigger] g[10 * r + c] != 0
}

/// The indices of the rows of `g` at or below row `j` that are not full,
/// in top-to-bottom order. These are the rows a line clear keeps.
pub open spec fn kept_rows(g: Seq<u32>, j: int) -> Seq<int>
    decreases 22 - j,
{
    if j < 0 || j >= 22 {
        Seq::empty()
    } else if row_full(g, j) {
        kept_rows(g, j + 1)
    } else {
        seq![j] + kept_rows(g, j + 1)
    }
}

/// How many rows a line clear removes from `g`: the full ones.
pub open spec fn cleared_count(g: Seq<u32>) -> int {
    22 - kept_rows(g, 0).len()
}

/// The grid after a line clear: every full row removed, the kept rows packed
/// to the bottom in their original order, and empty rows filling the top.
pub open spec fn cleared_grid(g: Seq<u32>) -> Seq<u32> {
    Seq::new(220, |i: int| {
        let r = i / 10;
        let c = i % 10;
        if r < cleared_count(g) {
            0u32
        } else {
            g[10 * kept_rows(g, 0)[r - cleared_count(g)] + c]
        }
    })
}

/// The canonical boundary and occupancy rule, for one shape cell: the shape
/// cell at local (r, c) of a shape whose top-left corner sits at column `x`,
/// row `y` collides when it is occupied and maps left of column 0, at or right
/// of column 10, above row 0, at or below row 22, or onto an occupied grid
/// cell. The top bound (`r + y < 0`) is checked like the other three, so the
/// predicate is total: a spawn above row 0 reads as a collision instead of
/// being left undefined.
pub open spec fn hits(g: Seq<u32>, s: Seq<u32>, x: int, y: int, r: int, c: int) -> bool {
    s[4 * r + c] != 0 && (c + x < 0 || c + x >= 10 || r + y < 0 || r + y >= 22
        || g[10 * (r + y) + (c + x)] != 0)
}

/// A shape at position (`x`, `y`) collides with the grid `g` when some cell
/// of its 4 x 4 region does.
pub open spec fn collides(g: Seq<u32>, s: Seq<u32>, x: int, y: int) -> bool {
    exists|r: int, c: int| 0 <= r < 4 && 0 <= c < 4 && #[trigger] hits(g, s, x, y, r, c)
}

/// Every occupied cell of the shape maps inside the grid: what `land` needs
/// to write its cells without touching memory out of bounds. A non-colliding
/// position always satisfies it (`lemma_no_collision_in_bounds`).
pub open spec fn shape_in_bounds(s: Seq<u32>, x: int, y: int) -> bool {
    forall|r: int, c: int| 0 <= r < 4 && 0 <= c < 4 && #[trigger] s[4 * r + c] != 0
        ==> 0 <= r + y && r + y < 22 && 0 <= c + x && c + x < 10
}

/// Grid cell (`r`, `c`) is covered by an occupied cell of a shape whose
/// top-left corner sits at column `x`, row `y`.
pub open spec fn covered(s: Seq<u32>, x: int, y: int, r: int, c: int) -> bool {
    0 <= r - y < 4 && 0 <= c - x < 4 && s[4 * (r - y) + (c - x)] != 0
}

/// The grid after a shape lands on `g` at position (`x`, `y`): every covered
/// cell takes the shape cell's code, every other cell keeps its old value.
/// Landing never empties a cell.
pub open spec fn landed_grid(g: Seq<u32>, s: Seq<u32>, x: int, y: int) -> Seq<u32> {
    Seq::new(220, |i: int| {
        let r = i / 10;
        let c = i % 10;
        if covered(s, x, y, r, c) {
            s[4 * (r - y) + (c - x)]
        } else {
            g[i]
        }
    })
}

/// `kept_rows(g, j)` holds at most `22 - j` indices, each naming a row
/// between `j` and the bottom of the grid.
pub proof fn lemma_kept_rows_bounds(g: Seq<u32>, j: int)
    requires
        0 <= j <= 22,
    ensures
        kept_rows(g, j).len() <= 22 - j,
        forall|i: int| 0 <= i < kept_rows(g, j).len() ==> j <= #[trigger] kept_rows(g, j)[i] < 22,
    decreases 22 - j,
{
    if j < 22 {
        lemma_kept_rows_bounds(g, j + 1);
    }
}

/// A position that does not collide places every occupied shape cell inside
/// the grid: establishing that `check_for_collisions` returns false is enough
/// to call `land`.
pub proof fn lemma_no_collision_in_bounds(g: Seq<u32>, s: Seq<u32>, x: int, y: int)
    requires
        !collides(g, s, x, y),
    ensures
        shape_in_bounds(s, x, y),
{
    assert forall|r: int, c: int| 0 <= r < 4 && 0 <= c < 4 && #[trigger] s[4 * r + c] != 0
        implies 0 <= r + y && r + y < 22 && 0 <= c + x && c + x < 10 by {
        assert(!hits(g, s, x, y, r, c));
    }
}

/// Rows that are all full contribute nothing to the kept rows.
pub proof fn lemma_kept_rows_all_full(g: Seq<u32>, a: int, b: int)
    requires
        0 <= a <= b <= 22,
        forall|r: int| a <= r < b ==> row_full(g, r),
    ensures
        kept_rows(g, a) == kept_rows(g, b),
    decreases b - a,
{
    if a < b {
        lemma_kept_rows_all_full(g, a + 1, b);
    }
}

/// Rows that are all non-full are kept one for one, in order.
pub proof fn lemma_kept_rows_none_full(g: Seq<u32>, a: int, b: int)
    requires
        0 <= a <= b <= 22,
        forall|r: int| a <= r < b ==> !row_full(g, r),
    ensures
        kept_rows(g, a) == Seq::new((b - a) as nat, |i: int| a + i) + kept_rows(g, b),
    decreases b - a,
{
    if a < b {
        lemma_kept_rows_none_full(g, a + 1, b);
        assert(!row_full(g, a));
        assert(kept_rows(g, a) =~= Seq::new((b - a) as nat, |i: int| a + i) + kept_rows(g, b));
    } else {
        assert(kept_rows(g, a) =~= Seq::new((b - a) as nat, |i: int| a + i) + kept_rows(g, b));
    }
}

/// Reading `cleared_grid` cell by cell, in row and column terms.
pub proof fn lemma_cleared_grid_cell(g: Seq<u32>, m: int, c: int)
    requires
        grid_wf(g),
        0 <= m < 22,
        0 <= c < 10,
    ensures
        0 <= cleared_count(g) <= 22,
        m < cleared_count(g) ==> cleared_grid(g)[10 * m + c] == 0u32,
        m >= cleared_count(g) ==> cleared_grid(g)[10 * m + c]
            == g[10 * kept_rows(g, 0)[m - cleared_count(g)] + c],
{
    lemma_kept_rows_bounds(g, 0);
    let i = 10 * m + c;
    assert(i / 10 == m && i % 10 == c) by (nonlinear_arith)
        requires
            0 <= m < 22 && 0 <= c < 10 && i == 10 * m + c,
    ;
    assert(0 <= i < 220);
}

/// Reading `landed_grid` cell by cell, in row and column terms.
pub proof fn lemma_landed_grid_cell(g: Seq<u32>, s: Seq<u32>, x: int, y: int, m: int, c: int)
    requires
        grid_wf(g),
        0 <= m < 22,
        0 <= c < 10,
    ensures
        covered(s, x, y, m, c) ==> landed_grid(g, s, x, y)[10 * m + c]
            == s[4 * (m - y) + (c - x)],
        !covered(s, x, y, m, c) ==> landed_grid(g, s, x, y)[10 * m + c] == g[10 * m + c],
{
    let i = 10 * m + c;
    assert(i / 10 == m && i % 10 == c) by (nonlinear_arith)
        requires
            0 <= m < 22 && 0 <= c < 10 && i == 10 * m + c,
    ;
    assert(0 <= i < 220);
}

/// Landing on an empty grid paints exactly the shape: afterwards every grid
/// cell covered by an occupied shape entry holds that entry's code, and every
/// other cell is still empty.
pub proof fn lemma_land_on_empty(g: Seq<u32>, s: Seq<u32>, x: int, y: int)
    requires
        grid_wf(g),
        forall|i: int| 0 <= i < 220 ==> g[i] == 0u32,
    ensures
        forall|m: int, c: int| 0 <= m < 22 && 0 <= c < 10 && covered(s, x, y, m, c)
            ==> #[trigger] landed_grid(g, s, x, y)[10 * m + c] == s[4 * (m - y) + (c - x)],
        forall|m: int, c: int| 0 <= m < 22 && 0 <= c < 10 && !covered(s, x, y, m, c)
            ==> #[trigger] landed_grid(g, s, x, y)[10 * m + c] == 0u32,
{
    assert forall|m: int, c: int| 0 <= m < 22 && 0 <= c < 10
        implies (covered(s, x, y, m, c)
            ==> #[trigger] landed_grid(g, s, x, y)[10 * m + c] == s[4 * (m - y) + (c - x)])
        && (!covered(s, x, y, m, c) ==> landed_grid(g, s, x, y)[10 * m + c] == 0u32) by {
        lemma_landed_grid_cell(g, s, x, y, m, c);
        assert(g[10 * m + c] == 0u32);
    }
}

/// When no row is full, clearing lines removes nothing and changes nothing;
/// in particular a second call right after the first finds the same grid, so
/// the no-op clear is idempotent.
pub proof fn lemma_clear_lines_noop(g: Seq<u32>)
    requires
        grid_wf(g),
        forall|r: int| 0 <= r < 22 ==> !row_full(g, r),
    ensures
        cleared_count(g) == 0,
        cleared_grid(g) == g,
{
    lemma_kept_rows_none_full(g, 0, 22);
    assert(kept_rows(g, 0).len() == 22);
    assert forall|m: int, c: int| 0 <= m < 22 && 0 <= c < 10
        implies #[trigger] cleared_grid(g)[10 * m + c] == g[10 * m + c] by {
        lemma_cleared_grid_cell(g, m, c);
        assert(kept_rows(g, 0)[m] == m);
    }
    assert forall|i: int| 0 <= i < 220 implies cleared_grid(g)[i] == g[i] by {
        let m = i / 10;
        let c = i % 10;
        assert(0 <= m < 22 && 0 <= c < 10 && i == 10 * m + c) by (nonlinear_arith)
            requires
                0 <= i < 220 && m == i / 10 && c == i % 10,
        ;
        assert(cleared_grid(g)[10 * m + c] == g[10 * m + c]);
    }
    assert(cleared_grid(g) =~= g);
}

/// On an all-empty grid a line clear removes nothing and leaves every cell
/// empty.
pub proof fn lemma_clear_lines_empty_grid(g: Seq<u32>)
    requires
        grid_wf(g),
        forall|i: int| 0 <= i < 220 ==> g[i] == 0u32,
    ensures
        cleared_count(g) == 0,
        cleared_grid(g) == g,
{
    assert forall|r: int| 0 <= r < 22 implies !row_full(g, r) by {
        assert(g[10 * r + 0] == 0u32);
    }
    lemma_clear_lines_noop(g);
}

/// One full row: on a grid whose row 20 is full while every other row is
/// empty, a line clear removes exactly one row; afterwards row 0 is empty,
/// every row from 1 through 20 holds what stood one row above it, and row 21,
/// below the cleared row, is untouched.
pub proof fn lemma_single_full_row(g: Seq<u32>)
    requires
        grid_wf(g),
        row_full(g, 20),
        forall|m: int, c: int| 0 <= m < 22 && m != 20 && 0 <= c < 10
            ==> #[trigger] g[10 * m + c] == 0u32,
    ensures
        cleared_count(g) == 1,
        forall|c: int| 0 <= c < 10 ==> #[trigger] cleared_grid(g)[10 * 0 + c] == 0u32,
        forall|m: int, c: int| 1 <= m <= 20 && 0 <= c < 10
            ==> #[trigger] cleared_grid(g)[10 * m + c] == g[10 * (m - 1) + c],
        forall|c: int| 0 <= c < 10 ==> #[trigger] cleared_grid(g)[10 * 21 + c] == g[10 * 21 + c],
{
    assert forall|r: int| 0 <= r < 22 && r != 20 implies !row_full(g, r) by {
        assert(g[10 * r + 0] == 0u32);
    }
    lemma_kept_rows_none_full(g, 21, 22);
    lemma_kept_rows_all_full(g, 20, 21);
    lemma_kept_rows_none_full(g, 0, 20);
    let kept = kept_rows(g, 0);
    assert(kept.len() == 21);
    assert(cleared_count(g) == 1);
    assert forall|m: int, c: int| 0 <= m < 22 && 0 <= c < 10
        implies #[trigger] cleared_grid(g)[10 * m + c]
            == (if m == 0 { 0u32 } else if m <= 20 { g[10 * (m - 1) + c] } else { g[10 * 21 + c] }) by {
        lemma_cleared_grid_cell(g, m, c);
        if m >= 1 {
            if m <= 20 {
                assert(kept[m - 1] == m - 1);
            } else {
                assert(kept[20] == 21);
            }
        }
    }
}

/// Four simultaneous full rows: on a grid whose rows 18 through 21 are full
/// while no row above them is, one line clear removes all four at once;
/// afterwards rows 0 through 3 are empty and every row from 4 down holds what
/// stood four rows above it.
pub proof fn lemma_simultaneous_full_rows(g: Seq<u32>)
    requires
        grid_wf(g),
        forall|r: int| 18 <= r < 22 ==> row_full(g, r),
        forall|r: int| 0 <= r < 18 ==> !row_full(g, r),
    ensures
        cleared_count(g) == 4,
        forall|m: int, c: int| 0 <= m < 4 && 0 <= c < 10
            ==> #[trigger] cleared_grid(g)[10 * m + c] == 0u32,
        forall|m: int, c: int| 4 <= m < 22 && 0 <= c < 10
            ==> #[trigger] cleared_grid(g)[10 * m + c] == g[10 * (m - 4) + c],
{
    lemma_kept_rows_all_full(g, 18, 22);
    lemma_kept_rows_none_full(g, 0, 18);
    let kept = kept_rows(g, 0);
    assert(kept.len() == 18);
    assert(cleared_count(g) == 4);
    assert forall|m: int, c: int| 0 <= m < 22 && 0 <= c < 10
        implies #[trigger] cleared_grid(g)[10 * m + c]
            == (if m < 4 { 0u32 } else { g[10 * (m - 4) + c] }) by {
        lemma_cleared_grid_cell(g, m, c);
        if m >= 4 {
            assert(kept[m - 4] == m - 4);
        }
    }
}

/// The playfield.
#[derive(Clone, Debug)]
pub struct Well {
    data: Vec<u32>,
}

impl View for Well {
    type V = Seq<u32>;

    closed spec fn view(&self) -> Seq<u32> {
        self.data@
    }
}

impl Well {
    /// The dimensions never change: every well holds 220 cells.
    pub open spec fn wf(&self) -> bool {
        grid_wf(self@)
    }

    /// An all-empty well.
    pub fn new() -> (w: Self)
        ensures
            w.wf(),
            forall|i: int| 0 <= i < 220 ==> w@[i] == 0u32,
    {
        let mut data: Vec<u32> = Vec::new();
        let mut i: usize = 0;
        while i < 220
            invariant
                i <= 220,
                data@.len() == i as int,
                forall|k: int| 0 <= k < i as int ==> data@[k] == 0u32,
            decreases 220 - i,
        {
            data.push(0u32);
            i = i + 1;
        }
        Well { data }
    }

    /// Overwrite row `dst` with the contents of row `src`; no other cell moves.
    fn copy_row(&mut self, dst: usize, src: usize)
        requires
            old(self).wf(),
            dst < 22,
            src < 22,
            dst != src,
        ensures
            final(self).wf(),
            forall|c: int| 0 <= c < 10 ==> #[trigger] final(self)@[10 * dst as int + c]
                == old(self)@[10 * src as int + c],
            forall|i: int| 0 <= i < 220 && !(10 * dst as int <= i < 10 * dst as int + 10)
                ==> #[trigger] final(self)@[i] == old(self)@[i],
    {
        let mut c: usize = 0;
        while c < 10
            invariant
                self.wf(),
                dst < 22,
                src < 22,
                dst != src,
                c <= 10,
                forall|k: int| 0 <= k < c as int ==> #[trigger] self@[10 * dst as int + k]
                    == old(self)@[10 * src as int + k],
                forall|i: int| 0 <= i < 220 && !(10 * dst as int <= i < 10 * dst as int + c as int)
                    ==> #[trigger] self@[i] == old(self)@[i],
            decreases 10 - c,
        {
            let v = self.data[10 * src + c];
            self.data.set(10 * dst + c, v);
            c = c + 1;
        }
    }

    /// Empty out row `r`; no other cell moves.
    fn zero_row(&mut self, r: usize)
        requires
            old(self).wf(),
            r < 22,
        ensures
            final(self).wf(),
            forall|c: int| 0 <= c < 10 ==> #[trigger] final(self)@[10 * r as int + c] == 0u32,
            forall|i: int| 0 <= i < 220 && !(10 * r as int <= i < 10 * r as int + 10)
                ==> #[trigger] final(self)@[i] == old(self)@[i],
    {
        let mut c: usize = 0;
        while c < 10
            invariant
                self.wf(),
                r < 22,
                c <= 10,
                forall|k: int| 0 <= k < c as int ==> #[trigger] self@[10 * r as int + k] == 0u32,
                forall|i: int| 0 <= i < 220 && !(10 * r as int <= i < 10 * r as int + c as int)
                    ==> #[trigger] self@[i] == old(self)@[i],
            decreases 10 - c,
        {
            self.data.set(10 * r + c, 0u32);
            c = c + 1;
        }
    }

    /// Compact the well after row `starting_row` was found full: pull every
    /// row above it down by one, so row `starting_row` takes the contents of
    /// the row directly above, and so on up; row 0 becomes empty. Rows below
    /// `starting_row` do not move.
    pub fn naive_line_clear(&mut self, starting_row: usize)
        requires
            old(self).wf(),
            starting_row < 22,
        ensures
            final(self).wf(),
            forall|c: int| 0 <= c < 10 ==> #[trigger] final(self)@[c] == 0u32,
            forall|r: int, c: int| 1 <= r <= starting_row as int && 0 <= c < 10
                ==> #[trigger] final(self)@[10 * r + c] == old(self)@[10 * (r - 1) + c],
            forall|r: int, c: int| (starting_row as int) < r < 22 && 0 <= c < 10
                ==> #[trigger] final(self)@[10 * r + c] == old(self)@[10 * r + c],
    {
        let mut row: usize = starting_row;
        while row >= 1
            invariant
                self.wf(),
                starting_row < 22,
                row <= starting_row,
                forall|r: int, c: int| (row as int) < r <= starting_row as int && 0 <= c < 10
                    ==> #[trigger] self@[10 * r + c] == old(self)@[10 * (r - 1) + c],
                forall|i: int| 0 <= i < 220
                    && (i < 10 * row as int + 10 || i >= 10 * starting_row as int + 10)
                    ==> #[trigger] self@[i] == old(self)@[i],
            decreases row,
        {
            self.copy_row(row, row - 1);
            row = row - 1;
        }
        self.zero_row(0);
        proof {
            assert forall|c: int| 0 <= c < 10 implies self@[c] == 0u32 by {
                assert(self@[10 * 0 + c] == 0u32);
            }
        }
    }

    /// Read the settled cell at row `r`, column `c`: the read-only view of
    /// the grid contents that rendering consumes.
    pub fn cell(&self, r: usize, c: usize) -> (code: u32)
        requires
            self.wf(),
            r < 22,
            c < 10,
        ensures
            code == self@[10 * r as int + c as int],
    {
        self.data[10 * r + c]
    }

    /// Would the shape, with its top-left corner at `position`, overlap an
    /// occupied cell or leave the playfield? Tests every occupied shape cell
    /// against the canonical boundary and occupancy rule.
    pub fn check_for_collisions(&self, shape: &PieceShape, position: Position) -> (b: bool)
        requires
            self.wf(),
            shape.wf(),
        ensures
            b == collides(self@, shape@, position.x as int, position.y as int),
    {
        let x = position.x as i64;
        let y = position.y as i64;
        let ghost xi = position.x as int;
        let ghost yi = position.y as int;
        let mut collision_found = false;
        let mut r: usize = 0;
        while r < 4
            invariant
                self.wf(),
                shape.wf(),
                r <= 4,
                x == xi && y == yi,
                x == position.x as i64 && y == position.y as i64,
                collision_found == exists|rr: int, cc: int|
                    0 <= rr < r as int && 0 <= cc < 4 && #[trigger] hits(self@, shape@, xi, yi, rr, cc),
            decreases 4 - r,
        {
            let mut c: usize = 0;
            while c < 4
                invariant
                    self.wf(),
                    shape.wf(),
                    r < 4,
                    c <= 4,
                    x == xi && y == yi,
                    x == position.x as i64 && y == position.y as i64,
                    collision_found == exists|rr: int, cc: int|
                        (0 <= rr < r as int && 0 <= cc < 4
                            || rr == r as int && 0 <= cc < c as int)
                        && #[trigger] hits(self@, shape@, xi, yi, rr, cc),
                decreases 4 - c,
            {
                let code = shape.cell(r, c);
                if code != 0 {
                    let gc = c as i64 + x;
                    let gr = r as i64 + y;
                    if gc < 0 || gc >= 10 || gr < 0 || gr >= 22 {
                        collision_found = true;
                        proof {
                            assert(hits(self@, shape@, xi, yi, r as int, c as int));
                        }
                    } else if self.data[(gr as usize) * 10 + (gc as usize)] != 0 {
                        collision_found = true;
                        proof {
                            assert(hits(self@, shape@, xi, yi, r as int, c as int));
                        }
                    } else {
                        proof {
                            assert(!hits(self@, shape@, xi, yi, r as int, c as int));
                        }
                    }
                } else {
                    proof {
                        assert(!hits(self@, shape@, xi, yi, r as int, c as int));
                    }
                }
                c = c + 1;
            }
            r = r + 1;
        }
        collision_found
    }

    /// Would the shape, one row further down than `position`, collide? This
    /// is the resting test: a piece sitting at `position` cannot descend any
    /// further exactly when this returns true. It applies the same canonical
    /// rule as `check_for_collisions`, re-tested at row `position.y + 1`.
    pub fn check_for_landing(&self, shape: &PieceShape, position: Position) -> (b: bool)
        requires
            self.wf(),
            shape.wf(),
            position.y < i32::MAX,
        ensures
            b == collides(self@, shape@, position.x as int, position.y as int + 1),
    {
        let below = Position { x: position.x, y: position.y + 1 };
        self.check_for_collisions(shape, below)
    }

    /// Merge the piece's occupied cells into the well, at the piece's own
    /// position: the only operation that marks cells occupied. Empty shape
    /// cells write nothing, so landing never clears a settled cell; an
    /// occupied grid cell under an occupied shape cell is silently
    /// overwritten, which is why callers must have established, through
    /// `check_for_collisions`, that the move was legal before committing it.
    pub fn land(&mut self, current_t: &Piece)
        requires
            old(self).wf(),
            current_t.wf(),
            shape_in_bounds(current_t.shape_spec(), current_t.top_left.x as int,
                current_t.top_left.y as int),
        ensures
            final(self).wf(),
            final(self)@ == landed_grid(old(self)@, current_t.shape_spec(),
                current_t.top_left.x as int, current_t.top_left.y as int),
    {
        let current_shape = current_t.current_shape();
        self.land_shape(&current_shape, current_t.top_left);
    }

    /// Merge one shape matrix into the well at `position`, under the same
    /// contract as `land`: occupied shape cells are written, empty ones leave
    /// the grid cell as it was.
    pub fn land_shape(&mut self, shape: &PieceShape, position: Position)
        requires
            old(self).wf(),
            shape.wf(),
            shape_in_bounds(shape@, position.x as int, position.y as int),
        ensures
            final(self).wf(),
            final(self)@ == landed_grid(old(self)@, shape@, position.x as int,
                position.y as int),
    {
        let x = position.x;
        let y = position.y;
        let ghost s = shape@;
        let ghost xi = x as int;
        let ghost yi = y as int;
        let mut r: usize = 0;
        while r < 4
            invariant
                self.wf(),
                shape.wf(),
                shape@ == s,
                xi == x as int && yi == y as int,
                shape_in_bounds(s, xi, yi),
                r <= 4,
                forall|i: int| 0 <= i < 220 && covered(s, xi, yi, i / 10, i % 10)
                    && i / 10 - yi < r as int ==> #[trigger] self@[i] == s[4 * (i / 10 - yi) + (i % 10 - xi)],
                forall|i: int| 0 <= i < 220 && !(covered(s, xi, yi, i / 10, i % 10)
                    && i / 10 - yi < r as int) ==> #[trigger] self@[i] == old(self)@[i],
            decreases 4 - r,
        {
            let mut c: usize = 0;
            while c < 4
                invariant
                    self.wf(),
                    shape.wf(),
                    shape@ == s,
                    xi == x as int && yi == y as int,
                    shape_in_bounds(s, xi, yi),
                    r < 4,
                    c <= 4,
                    forall|i: int| 0 <= i < 220 && covered(s, xi, yi, i / 10, i % 10)
                        && (i / 10 - yi < r as int
                            || i / 10 - yi == r as int && i % 10 - xi < c as int)
                        ==> #[trigger] self@[i] == s[4 * (i / 10 - yi) + (i % 10 - xi)],
                    forall|i: int| 0 <= i < 220 && !(covered(s, xi, yi, i / 10, i % 10)
                        && (i / 10 - yi < r as int
                            || i / 10 - yi == r as int && i % 10 - xi < c as int))
                        ==> #[trigger] self@[i] == old(self)@[i],
                decreases 4 - c,
            {
                let code = shape.cell(r, c);
                if code != 0 {
                    let gr = (r as i64 + y as i64) as usize;
                    let gc = (c as i64 + x as i64) as usize;
                    proof {
                        assert(s[4 * r as int + c as int] != 0);
                        assert(0 <= r as int + yi && r as int + yi < 22);
                        assert(0 <= c as int + xi && c as int + xi < 10);
                    }
                    self.data.set(gr * 10 + gc, code);
                    proof {
                        let i = 10 * (r as int + yi) + (c as int + xi);
                        assert(i / 10 == r as int + yi && i % 10 == c as int + xi) by (nonlinear_arith)
                            requires 0 <= r as int + yi < 22 && 0 <= c as int + xi < 10,
                                i == 10 * (r as int + yi) + (c as int + xi);
                        assert(covered(s, xi, yi, i / 10, i % 10));
                    }
                }
                c = c + 1;
            }
            r = r + 1;
        }
        proof {
            assert(self@ =~= landed_grid(old(self)@, s, xi, yi));
        }
    }

    /// Is every cell of row `r` occupied?
    fn is_row_full(&self, r: usize) -> (b: bool)
        requires
            self.wf(),
            r < 22,
        ensures
            b == row_full(self@, r as int),
    {
        let mut b = true;
        let mut c: usize = 0;
        while c < 10
            invariant
                self.wf(),
                r < 22,
                c <= 10,
                b == (forall|k: int| 0 <= k < c as int ==> #[trigger] self@[10 * r as int + k] != 0),
            decreases 10 - c,
        {
            if self.data[10 * r + c] == 0 {
                b = false;
            }
            c = c + 1;
        }
        b
    }

    /// Scan the rows from the bottom (21) towards the top (0). Each full row
    /// found is compacted away at once with `naive_line_clear`, and the row it
    /// exposes is re-tested before the scan moves up, so rows that were full
    /// at the same time are all removed in one call. Returns how many rows
    /// were cleared. The net effect is exact: every originally full row is
    /// gone, the remaining rows are packed to the bottom in their original
    /// order, and as many empty rows fill the top.
    pub fn clear_lines(&mut self) -> (n: u32)
        requires
            old(self).wf(),
        ensures
            final(self).wf(),
            n as int == cleared_count(old(self)@),
            final(self)@ == cleared_grid(old(self)@),
    {
        let ghost g0 = self@;
        let mut lines_cleared: u32 = 0;
        let mut r: usize = 21;
        let ghost mut j: int = 22;
        loop
            invariant_except_break
                self.wf(),
                g0 == old(self)@,
                g0.len() == 220,
                1 <= j <= 22,
                r as int == lines_cleared as int + j - 1,
                r <= 21,
                lines_cleared as int == (22 - j) - kept_rows(g0, j).len(),
                kept_rows(g0, j).len() == 21 - r as int,
                forall|i: int, c: int| 0 <= i < j && 0 <= c < 10
                    ==> #[trigger] self@[10 * (lines_cleared as int + i) + c] == g0[10 * i + c],
                forall|m: int, c: int| 0 <= m < lines_cleared as int && 0 <= c < 10
                    ==> #[trigger] self@[10 * m + c] == 0u32,
                forall|m: int, c: int| (r as int) < m < 22 && 0 <= c < 10
                    ==> #[trigger] self@[10 * m + c]
                        == g0[10 * kept_rows(g0, j)[m - (r as int + 1)] + c],
            ensures
                self.wf(),
                g0 == old(self)@,
                lines_cleared as int == 22 - kept_rows(g0, 0).len(),
                forall|m: int, c: int| 0 <= m < lines_cleared as int && 0 <= c < 10
                    ==> #[trigger] self@[10 * m + c] == 0u32,
                forall|m: int, c: int| lines_cleared as int <= m < 22 && 0 <= c < 10
                    ==> #[trigger] self@[10 * m + c]
                        == g0[10 * kept_rows(g0, 0)[m - lines_cleared as int] + c],
            decreases j,
        {
            let ghost k = lines_cleared as int;
            let ghost j0 = j;
            let ghost prev = self@;
            let full = self.is_row_full(r);
            if full {
                proof {
                    assert forall|c: int| 0 <= c < 10 implies #[trigger] g0[10 * (j0 - 1) + c] != 0 by {
                        assert(prev[10 * (k + (j0 - 1)) + c] == g0[10 * (j0 - 1) + c]);
                        assert(prev[10 * r as int + c] != 0);
                    }
                    assert(row_full(g0, j0 - 1));
                    assert(kept_rows(g0, j0 - 1) == kept_rows(g0, j0));
                }
                self.naive_line_clear(r);
                lines_cleared = lines_cleared + 1;
                proof {
                    j = j - 1;
                    assert forall|i: int, c: int| 0 <= i < j && 0 <= c < 10
                        implies #[trigger] self@[10 * (lines_cleared as int + i) + c] == g0[10 * i + c] by {
                        let m = k + 1 + i;
                        assert(1 <= m <= r as int);
                        assert(self@[10 * m + c] == prev[10 * (m - 1) + c]);
                        assert(prev[10 * (k + i) + c] == g0[10 * i + c]);
                    }
                    assert forall|m: int, c: int| 0 <= m < lines_cleared as int && 0 <= c < 10
                        implies #[trigger] self@[10 * m + c] == 0u32 by {
                        if m == 0 {
                            assert(self@[10 * 0 + c] == self@[c]);
                        } else {
                            assert(m <= r as int);
                            assert(self@[10 * m + c] == prev[10 * (m - 1) + c]);
                            assert(prev[10 * (m - 1) + c] == 0u32);
                        }
                    }
                    assert forall|m: int, c: int| (r as int) < m < 22 && 0 <= c < 10
                        implies #[trigger] self@[10 * m + c]
                            == g0[10 * kept_rows(g0, j)[m - (r as int + 1)] + c] by {
                        assert(self@[10 * m + c] == prev[10 * m + c]);
                        assert(prev[10 * m + c] == g0[10 * kept_rows(g0, j0)[m - (r as int + 1)] + c]);
                    }
                }
                if r < lines_cleared as usize {
                    proof {
                        assert(j == 0);
                        assert(r as int == lines_cleared as int - 1);
                        assert(row_full(g0, 0));
                        assert(kept_rows(g0, 0) == kept_rows(g0, 1));
                        assert forall|m: int, c: int| lines_cleared as int <= m < 22 && 0 <= c < 10
                            implies #[trigger] self@[10 * m + c]
                                == g0[10 * kept_rows(g0, 0)[m - lines_cleared as int] + c] by {
                            assert(self@[10 * m + c] == g0[10 * kept_rows(g0, 1)[m - (r as int + 1)] + c]);
                        }
                    }
                    break;
                }
            } else {
                proof {
                    assert(!row_full(prev, r as int));
                    let cw = choose|c: int| 0 <= c < 10 && #[trigger] prev[10 * r as int + c] == 0;
                    assert(prev[10 * (k + (j0 - 1)) + cw] == g0[10 * (j0 - 1) + cw]);
                    assert(g0[10 * (j0 - 1) + cw] == 0);
                    assert(!row_full(g0, j0 - 1));
                    assert(kept_rows(g0, j0 - 1) == seq![j0 - 1] + kept_rows(g0, j0));
                    j = j - 1;
                }
                if r == 0 {
                    proof {
                        assert(k == 0 && j0 == 1);
                        assert(kept_rows(g0, 0) == seq![0] + kept_rows(g0, 1));
                        assert(kept_rows(g0, 0).len() == 22);
                        assert forall|m: int, c: int| 0 <= m < 22 && 0 <= c < 10
                            implies #[trigger] self@[10 * m + c]
                                == g0[10 * kept_rows(g0, 0)[m] + c] by {
                            if m == 0 {
                                assert(kept_rows(g0, 0)[0] == 0);
                                assert(self@[10 * (0 + 0) + c] == g0[10 * 0 + c]);
                            } else {
                                assert(kept_rows(g0, 0)[m] == kept_rows(g0, 1)[m - 1]);
                                assert(self@[10 * m + c] == g0[10 * kept_rows(g0, 1)[m - 1] + c]);
                            }
                        }
                    }
                    break;
                }
                r = r - 1;
                if r < lines_cleared as usize {
                    proof {
                        assert(j == 0 && j0 == 1);
                        assert(r as int == k - 1);
                        assert(kept_rows(g0, 0) == seq![0] + kept_rows(g0, 1));
                        assert forall|m: int, c: int| lines_cleared as int <= m < 22 && 0 <= c < 10
                            implies #[trigger] self@[10 * m + c]
                                == g0[10 * kept_rows(g0, 0)[m - lines_cleared as int] + c] by {
                            if m == k {
                                assert(kept_rows(g0, 0)[0] == 0);
                                assert(self@[10 * (k + 0) + c] == g0[10 * 0 + c]);
                            } else {
                                assert(kept_rows(g0, 0)[m - k] == kept_rows(g0, 1)[m - k - 1]);
                                assert(self@[10 * m + c] == g0[10 * kept_rows(g0, 1)[m - (r as int + 2)] + c]);
                            }
                        }
                    }
                    break;
                }
                proof {
                    assert forall|m: int, c: int| (r as int) < m < 22 && 0 <= c < 10
                        implies #[trigger] self@[10 * m + c]
                            == g0[10 * kept_rows(g0, j)[m - (r as int + 1)] + c] by {
                        if m == r as int + 1 {
                            assert(kept_rows(g0, j)[0] == j0 - 1);
                            assert(self@[10 * (k + (j0 - 1)) + c] == g0[10 * (j0 - 1) + c]);
                        } else {
                            assert(kept_rows(g0, j)[m - (r as int + 1)]
                                == kept_rows(g0, j0)[m - (r as int + 2)]);
                            assert(self@[10 * m + c] == g0[10 * kept_rows(g0, j0)[m - (r as int + 2)] + c]);
                        }
                    }
                }
            }
        }
        proof {
            lemma_kept_rows_bounds(old(self)@, 0);
            assert forall|i: int| 0 <= i < 220 implies self@[i] == cleared_grid(old(self)@)[i] by {
                let m = i / 10;
                let c = i % 10;
                assert(0 <= m < 22 && 0 <= c < 10 && i == 10 * m + c) by (nonlinear_arith)
                    requires 0 <= i < 220 && m == i / 10 && c == i % 10;
                if m < lines_cleared as int {
                    assert(self@[10 * m + c] == 0u32);
                } else {
                    assert(self@[10 * m + c]
                        == g0[10 * kept_rows(g0, 0)[m - lines_cleared as int] + c]);
                }
            }
            assert(self@ =~= cleared_grid(old(self)@));
        }
        lines_cleared
    }
}

} // verus!
