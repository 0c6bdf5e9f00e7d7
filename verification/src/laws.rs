//! Laws about locking and clearing: cell counting, the effect of a lock
//! that completes no row, and the blocked spawn that ends a game.

use vstd::prelude::*;

use crate::block::{lemma_canonical_mask, mask_of, mask_wf, BlockType};
use crate::board::{
    cell_blocked, covers, full_row_values, grid_after_pass, grid_wf, lemma_pass_noop, no_full_rows,
    payout, spec_collides, spec_lock,
};

verus! {

/// The number of locked cells in one row.
pub open spec fn count_row(row: Seq<bool>) -> int
    decreases row.len(),
{
    if row.len() == 0 {
        0
    } else {
        count_row(row.drop_last()) + if row.last() {
            1int
        } else {
            0int
        }
    }
}

/// The number of locked cells in a grid; on a 4x4 mask, the number of
/// occupied cells of a piece.
pub open spec fn count_grid(g: Seq<Seq<bool>>) -> int
    decreases g.len(),
{
    if g.len() == 0 {
        0
    } else {
        count_grid(g.drop_last()) + count_row(g.last())
    }
}

/// The sum of a sequence of integers.
pub open spec fn sum_ints(s: Seq<int>) -> int
    decreases s.len(),
{
    if s.len() == 0 {
        0
    } else {
        sum_ints(s.drop_last()) + s.last()
    }
}

/// The elementwise disjunction of two rows of equal length.
pub open spec fn or_row(a: Seq<bool>, b: Seq<bool>) -> Seq<bool> {
    Seq::new(a.len(), |c: int| a[c] || b[c])
}

/// A mask row spread over a row of width `w`, its cell `i` landing at
/// column `px + i`.
pub open spec fn window_row(mrow: Seq<bool>, px: int, w: int) -> Seq<bool> {
    Seq::new(w as nat, |c: int| 0 <= c - px < mrow.len() && mrow[c - px])
}

/// A row without locked cells counts zero.
proof fn lemma_count_row_zero(row: Seq<bool>)
    requires
        forall|c: int| 0 <= c < row.len() ==> !(#[trigger] row[c]),
    ensures
        count_row(row) == 0,
    decreases row.len(),
{
    if row.len() > 0 {
        lemma_count_row_zero(row.drop_last());
    }
}

/// A row with a locked cell counts at least one.
proof fn lemma_count_row_nonzero(row: Seq<bool>, c: int)
    requires
        0 <= c < row.len(),
        row[c],
    ensures
        count_row(row) >= 1,
    decreases row.len(),
{
    if c < row.len() - 1 {
        lemma_count_row_nonzero(row.drop_last(), c);
    }
    lemma_count_row_nonneg(row.drop_last());
}

/// A count of cells is never negative.
proof fn lemma_count_row_nonneg(row: Seq<bool>)
    ensures
        count_row(row) >= 0,
    decreases row.len(),
{
    if row.len() > 0 {
        lemma_count_row_nonneg(row.drop_last());
    }
}

/// Overwriting one cell moves the count by the difference of the old and
/// new cell.
proof fn lemma_count_row_update(row: Seq<bool>, c: int, v: bool)
    requires
        0 <= c < row.len(),
    ensures
        count_row(row.update(c, v)) == count_row(row) - (if row[c] {
            1int
        } else {
            0int
        }) + (if v {
            1int
        } else {
            0int
        }),
    decreases row.len(),
{
    let upd = row.update(c, v);
    if c == row.len() - 1 {
        assert(upd.drop_last() =~= row.drop_last());
    } else {
        assert(upd.drop_last() =~= row.drop_last().update(c, v));
        lemma_count_row_update(row.drop_last(), c, v);
    }
}

/// Disjoint rows disjoin into a row whose count is the sum of theirs.
proof fn lemma_count_row_or(a: Seq<bool>, b: Seq<bool>)
    requires
        a.len() == b.len(),
        forall|c: int| 0 <= c < a.len() ==> !(#[trigger] a[c] && b[c]),
    ensures
        count_row(or_row(a, b)) == count_row(a) + count_row(b),
    decreases a.len(),
{
    if a.len() > 0 {
        assert(or_row(a, b).drop_last() =~= or_row(a.drop_last(), b.drop_last()));
        lemma_count_row_or(a.drop_last(), b.drop_last());
        assert(or_row(a, b).last() == (a.last() || b.last()));
    } else {
        assert(or_row(a, b).len() == 0);
    }
}

/// Spreading a mask row over a wide row keeps its count, as long as every
/// occupied cell lands within the row.
proof fn lemma_count_window(mrow: Seq<bool>, px: int, w: int)
    requires
        w >= 0,
        forall|i: int| 0 <= i < mrow.len() && #[trigger] mrow[i] ==> 0 <= px + i < w,
    ensures
        count_row(window_row(mrow, px, w)) == count_row(mrow),
    decreases mrow.len(),
{
    if mrow.len() == 0 {
        lemma_count_row_zero(window_row(mrow, px, w));
    } else {
        let m0 = mrow.drop_last();
        let last_at = px + mrow.len() - 1;
        lemma_count_window(m0, px, w);
        if mrow.last() {
            assert(window_row(mrow, px, w) =~= window_row(m0, px, w).update(last_at, true));
            assert(!window_row(m0, px, w)[last_at]);
            lemma_count_row_update(window_row(m0, px, w), last_at, true);
        } else {
            assert(window_row(mrow, px, w) =~= window_row(m0, px, w));
        }
    }
}

/// Summing rowwise differences: when each row of `b` counts `d` more than
/// the same row of `a`, the grids differ by the sum of `d`.
proof fn lemma_count_grid_pointwise(a: Seq<Seq<bool>>, b: Seq<Seq<bool>>, d: Seq<int>)
    requires
        a.len() == b.len(),
        a.len() == d.len(),
        forall|r: int|
            0 <= r < a.len() ==> count_row(#[trigger] b[r]) == count_row(a[r]) + d[r],
    ensures
        count_grid(b) == count_grid(a) + sum_ints(d),
    decreases a.len(),
{
    if a.len() > 0 {
        lemma_count_grid_pointwise(a.drop_last(), b.drop_last(), d.drop_last());
    }
}

/// A grid's count is the sum of its row counts.
proof fn lemma_count_grid_as_sum(g: Seq<Seq<bool>>, rows: Seq<int>)
    requires
        rows.len() == g.len(),
        forall|r: int| 0 <= r < g.len() ==> #[trigger] rows[r] == count_row(g[r]),
    ensures
        count_grid(g) == sum_ints(rows),
    decreases g.len(),
{
    if g.len() > 0 {
        lemma_count_grid_as_sum(g.drop_last(), rows.drop_last());
    }
}

/// The sum of a sequence that is zero everywhere.
proof fn lemma_sum_zero(s: Seq<int>)
    requires
        forall|i: int| 0 <= i < s.len() ==> #[trigger] s[i] == 0,
    ensures
        sum_ints(s) == 0,
    decreases s.len(),
{
    if s.len() > 0 {
        lemma_sum_zero(s.drop_last());
    }
}

/// Overwriting one entry moves the sum by the difference.
proof fn lemma_sum_update(s: Seq<int>, i: int, v: int)
    requires
        0 <= i < s.len(),
    ensures
        sum_ints(s.update(i, v)) == sum_ints(s) - s[i] + v,
    decreases s.len(),
{
    let upd = s.update(i, v);
    if i == s.len() - 1 {
        assert(upd.drop_last() =~= s.drop_last());
    } else {
        assert(upd.drop_last() =~= s.drop_last().update(i, v));
        lemma_sum_update(s.drop_last(), i, v);
    }
}

/// Spreading a short sequence of values over a long one of zeros keeps the
/// sum, as long as every nonzero value lands within range.
proof fn lemma_sum_window(vals: Seq<int>, py: int, h: int)
    requires
        h >= 0,
        forall|j: int| 0 <= j < vals.len() && #[trigger] vals[j] != 0 ==> 0 <= py + j < h,
    ensures
        sum_ints(
            Seq::new(
                h as nat,
                |r: int|
                    if 0 <= r - py < vals.len() {
                        vals[r - py]
                    } else {
                        0
                    },
            ),
        ) == sum_ints(vals),
    decreases vals.len(),
{
    let spread = Seq::new(
        h as nat,
        |r: int|
            if 0 <= r - py < vals.len() {
                vals[r - py]
            } else {
                0
            },
    );
    if vals.len() == 0 {
        lemma_sum_zero(spread);
    } else {
        let v0 = vals.drop_last();
        let spread0 = Seq::new(
            h as nat,
            |r: int|
                if 0 <= r - py < v0.len() {
                    v0[r - py]
                } else {
                    0
                },
        );
        let last_at = py + vals.len() - 1;
        lemma_sum_window(v0, py, h);
        if vals.last() != 0 {
            assert(spread =~= spread0.update(last_at, vals.last()));
            assert(spread0[last_at] == 0);
            lemma_sum_update(spread0, last_at, vals.last());
        } else {
            assert(spread =~= spread0);
        }
    }
}

/// Locking a piece whose occupied cells all lie on the field and overlap no
/// locked cell grows the locked-cell count by exactly the piece's occupied
/// cell count.
pub proof fn lemma_lock_adds_piece_cells(
    g: Seq<Seq<bool>>,
    m: Seq<Seq<bool>>,
    px: int,
    py: int,
    w: int,
    h: int,
)
    requires
        grid_wf(g, w, h),
        mask_wf(m),
        forall|r: int, c: int|
            0 <= r < 4 && 0 <= c < 4 && #[trigger] m[r][c] ==> 0 <= py + r < h && 0 <= px + c
                < w,
        forall|r: int, c: int| 0 <= r < 4 && 0 <= c < 4 && #[trigger] m[r][c] ==> !g[py + r][px
            + c],
    ensures
        count_grid(spec_lock(g, m, px, py)) == count_grid(g) + count_grid(m),
{
    let locked = spec_lock(g, m, px, py);
    let d = Seq::new(
        h as nat,
        |r: int|
            if 0 <= r - py < 4 {
                count_row(m[r - py])
            } else {
                0
            },
    );
    assert forall|r: int| 0 <= r < h implies count_row(#[trigger] locked[r]) == count_row(g[r])
        + d[r] by {
        if 0 <= r - py < 4 {
            let j = r - py;
            let win = window_row(m[j], px, w);
            assert(locked[r] =~= or_row(g[r], win));
            assert forall|c: int| 0 <= c < w implies !(#[trigger] g[r][c] && win[c]) by {
                if win[c] {
                    assert(m[j][c - px]);
                    assert(!g[py + j][px + (c - px)]);
                }
            }
            lemma_count_row_or(g[r], win);
            lemma_count_window(m[j], px, w);
        } else {
            assert(locked[r] =~= g[r]);
        }
    }
    lemma_count_grid_pointwise(g, locked, d);
    let vals = Seq::new(4, |j: int| count_row(m[j]));
    assert forall|j: int| 0 <= j < vals.len() && #[trigger] vals[j] != 0 implies 0 <= py + j
        < h by {
        if !(forall|c: int| 0 <= c < m[j].len() ==> !(#[trigger] m[j][c])) {
            let c = choose|c: int| 0 <= c < m[j].len() && #[trigger] m[j][c];
            assert(m[j][c]);
        } else {
            lemma_count_row_zero(m[j]);
        }
    }
    lemma_sum_window(vals, py, h);
    assert(d =~= Seq::new(
        h as nat,
        |r: int|
            if 0 <= r - py < vals.len() {
                vals[r - py]
            } else {
                0
            },
    ));
    lemma_count_grid_as_sum(m, vals);
}

/// Lock-then-clear idempotence: when locking the piece completes no full
/// row, the locked-cell count grows by exactly the piece's occupied-cell
/// count, the clearing pass leaves the grid as the lock left it, and the
/// pass records no line, so its payout is zero and the score is unchanged.
pub proof fn lemma_lock_then_clear_no_full(
    g: Seq<Seq<bool>>,
    m: Seq<Seq<bool>>,
    px: int,
    py: int,
    w: int,
    h: int,
)
    requires
        grid_wf(g, w, h),
        mask_wf(m),
        forall|r: int, c: int|
            0 <= r < 4 && 0 <= c < 4 && #[trigger] m[r][c] ==> 0 <= py + r < h && 0 <= px + c
                < w,
        forall|r: int, c: int| 0 <= r < 4 && 0 <= c < 4 && #[trigger] m[r][c] ==> !g[py + r][px
            + c],
        no_full_rows(spec_lock(g, m, px, py)),
    ensures
        count_grid(spec_lock(g, m, px, py)) == count_grid(g) + count_grid(m),
        grid_after_pass(spec_lock(g, m, px, py), 0, h) == spec_lock(g, m, px, py),
        full_row_values(spec_lock(g, m, px, py), 0, h) == Seq::<int>::empty(),
        payout(Seq::<int>::empty(), 0) == 0,
{
    lemma_lock_adds_piece_cells(g, m, px, py, w, h);
    lemma_pass_noop(spec_lock(g, m, px, py), 0, h);
}

/// Game-over trigger: a piece spawned onto a field whose top two rows are
/// fully occupied collides at once, whatever its shape and wherever its
/// bounding box starts: every canonical mask occupies cell (1, 1).
pub proof fn lemma_spawn_blocked_on_full_top(
    g: Seq<Seq<bool>>,
    w: int,
    h: int,
    v: BlockType,
    px: int,
)
    requires
        grid_wf(g, w, h),
        h >= 2,
        forall|c: int| 0 <= c < w ==> #[trigger] g[0][c],
        forall|c: int| 0 <= c < w ==> #[trigger] g[1][c],
    ensures
        spec_collides(g, w, h, mask_of(v), px, 0),
{
    lemma_canonical_mask(v);
    assert(mask_of(v)[1][1]);
    assert(cell_blocked(g, w, h, px + 1, 1));
}

} // verus!
