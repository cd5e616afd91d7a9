//! Heuristic evaluators: Hamming distance, Manhattan distance and Manhattan
//! plus linear conflicts. Each scores how far one grid is from another and
//! scores `0` exactly on equal grids.

use vstd::prelude::*;
use vstd::arithmetic::div_mod::lemma_fundamental_div_mod_converse;

use crate::sums::{
    lemma_sum_range_eq, lemma_sum_range_extend, lemma_sum_range_ge_term, lemma_sum_range_nonneg,
    lemma_sum_range_zero, sum_range,
};
use crate::types::{Atom, AtomPair, Cost, HeuristicKind, Puzzle, find_val, lemma_find_val,
    lemma_wf_grid_complete, wf_grid};
use crate::util::{grids_equal, xy};

verus! {

/// The distance between two integers on a line.
pub open spec fn abs_diff(a: int, b: int) -> int {
    if a >= b {
        a - b
    } else {
        b - a
    }
}

/// The `(x, y)` coordinates of flat index `i` on a board of side `size`.
pub open spec fn spec_coord(i: int, size: int) -> (int, int) {
    (i % size, i / size)
}

/// The Manhattan distance between two coordinate pairs.
pub open spec fn spec_dist(a: (int, int), b: (int, int)) -> int {
    abs_diff(a.0, b.0) + abs_diff(a.1, b.1)
}

/// `1` when position `i` holds different values in the two grids.
pub open spec fn hamming_term(a: Seq<Atom>, b: Seq<Atom>, i: int) -> int {
    if a[i] != b[i] {
        1int
    } else {
        0int
    }
}

pub open spec fn hamming_term_fn(a: Seq<Atom>, b: Seq<Atom>) -> spec_fn(int) -> int {
    |i: int| hamming_term(a, b, i)
}

/// The number of positions whose values differ between the two grids.
pub open spec fn spec_hamming(a: Seq<Atom>, b: Seq<Atom>) -> int {
    sum_range(0, a.len() as int, hamming_term_fn(a, b))
}

/// How far value `v` stands in `a` from where it stands in `b`.
pub open spec fn value_dist(a: Seq<Atom>, b: Seq<Atom>, size: int, v: int) -> int {
    spec_dist(
        spec_coord(find_val(a, v as Atom), size),
        spec_coord(find_val(b, v as Atom), size),
    )
}

pub open spec fn value_dist_fn(a: Seq<Atom>, b: Seq<Atom>, size: int) -> spec_fn(int) -> int {
    |v: int| value_dist(a, b, size, v)
}

/// The summed displacement of every tile value between the two grids.
pub open spec fn spec_manhattan(a: Seq<Atom>, b: Seq<Atom>, size: int) -> int {
    sum_range(0, a.len() as int, value_dist_fn(a, b, size))
}

/// `1` when the tiles at columns `x < x2` of row `row` in `a` both belong to
/// that row of `b` but stand there in the reversed left-to-right order.
pub open spec fn row_conflict(
    a: Seq<Atom>,
    b: Seq<Atom>,
    size: int,
    row: int,
    x: int,
    x2: int,
) -> int {
    let g = find_val(b, a[row * size + x]);
    let g2 = find_val(b, a[row * size + x2]);
    if g / size == row && g2 / size == row && g % size > g2 % size {
        1int
    } else {
        0int
    }
}

pub open spec fn row_conflict_fn(
    a: Seq<Atom>,
    b: Seq<Atom>,
    size: int,
    row: int,
    x: int,
) -> spec_fn(int) -> int {
    |x2: int| row_conflict(a, b, size, row, x, x2)
}

/// The conflicts that column `x` of row `row` opens with columns to its right.
pub open spec fn row_pen_x(a: Seq<Atom>, b: Seq<Atom>, size: int, row: int, x: int) -> int {
    sum_range(x + 1, size, row_conflict_fn(a, b, size, row, x))
}

pub open spec fn row_pen_x_fn(
    a: Seq<Atom>,
    b: Seq<Atom>,
    size: int,
    row: int,
) -> spec_fn(int) -> int {
    |x: int| row_pen_x(a, b, size, row, x)
}

/// The conflicts within row `row`.
pub open spec fn row_pen(a: Seq<Atom>, b: Seq<Atom>, size: int, row: int) -> int {
    sum_range(0, size - 1, row_pen_x_fn(a, b, size, row))
}

pub open spec fn row_pen_fn(a: Seq<Atom>, b: Seq<Atom>, size: int) -> spec_fn(int) -> int {
    |row: int| row_pen(a, b, size, row)
}

/// The conflicts summed over all rows.
pub open spec fn spec_row_penalty(a: Seq<Atom>, b: Seq<Atom>, size: int) -> int {
    sum_range(0, size, row_pen_fn(a, b, size))
}

/// `1` when the tiles at rows `y < y2` of column `col` in `a` both belong to
/// that column of `b` but stand there in the reversed top-to-bottom order.
pub open spec fn col_conflict(
    a: Seq<Atom>,
    b: Seq<Atom>,
    size: int,
    col: int,
    y: int,
    y2: int,
) -> int {
    let g = find_val(b, a[col + y * size]);
    let g2 = find_val(b, a[col + y2 * size]);
    if g % size == col && g2 % size == col && g / size > g2 / size {
        1int
    } else {
        0int
    }
}

pub open spec fn col_conflict_fn(
    a: Seq<Atom>,
    b: Seq<Atom>,
    size: int,
    col: int,
    y: int,
) -> spec_fn(int) -> int {
    |y2: int| col_conflict(a, b, size, col, y, y2)
}

/// The conflicts that row `y` of column `col` opens with rows below it.
pub open spec fn col_pen_y(a: Seq<Atom>, b: Seq<Atom>, size: int, col: int, y: int) -> int {
    sum_range(y + 1, size, col_conflict_fn(a, b, size, col, y))
}

pub open spec fn col_pen_y_fn(
    a: Seq<Atom>,
    b: Seq<Atom>,
    size: int,
    col: int,
) -> spec_fn(int) -> int {
    |y: int| col_pen_y(a, b, size, col, y)
}

/// The conflicts within column `col`.
pub open spec fn col_pen(a: Seq<Atom>, b: Seq<Atom>, size: int, col: int) -> int {
    sum_range(0, size - 1, col_pen_y_fn(a, b, size, col))
}

pub open spec fn col_pen_fn(a: Seq<Atom>, b: Seq<Atom>, size: int) -> spec_fn(int) -> int {
    |col: int| col_pen(a, b, size, col)
}

/// The conflicts summed over all columns.
pub open spec fn spec_col_penalty(a: Seq<Atom>, b: Seq<Atom>, size: int) -> int {
    sum_range(0, size, col_pen_fn(a, b, size))
}

/// The extra-slide penalty added to Manhattan distance: two per conflicting
/// pair is the true lower bound, one per pair is what this evaluator adds.
pub open spec fn spec_penalty(a: Seq<Atom>, b: Seq<Atom>, size: int) -> int {
    spec_row_penalty(a, b, size) + spec_col_penalty(a, b, size)
}

/// Manhattan distance plus the linear-conflict penalty.
pub open spec fn spec_linear_conflicts(a: Seq<Atom>, b: Seq<Atom>, size: int) -> int {
    spec_manhattan(a, b, size) + spec_penalty(a, b, size)
}

/// What each `HeuristicKind` evaluates to.
pub open spec fn spec_evaluate(h: HeuristicKind, a: Seq<Atom>, b: Seq<Atom>, size: int) -> int {
    match h {
        HeuristicKind::Hamming => spec_hamming(a, b),
        HeuristicKind::Manhattan => spec_manhattan(a, b, size),
        HeuristicKind::LinearConflicts => spec_linear_conflicts(a, b, size),
    }
}

/// The Manhattan distance between two board coordinates.
#[inline]
pub fn dist(a: AtomPair, b: AtomPair) -> (r: Cost)
    ensures
        r as int == spec_dist((a.0 as int, a.1 as int), (b.0 as int, b.1 as int)),
{
    let x: Cost = if a.0 >= b.0 {
        (a.0 - b.0) as Cost
    } else {
        (b.0 - a.0) as Cost
    };
    let y: Cost = if a.1 >= b.1 {
        (a.1 - b.1) as Cost
    } else {
        (b.1 - a.1) as Cost
    };
    x + y
}

/// The first position of `v` in `g`.
fn find_pos(g: &Puzzle, v: Atom) -> (r: usize)
    requires
        exists|i: int| 0 <= i < g@.len() && g@[i] == v,
    ensures
        r as int == find_val(g@, v),
        r < g@.len(),
        g@[r as int] == v,
{
    let n = g.len();
    let mut i: usize = 0;
    while i < n
        invariant
            0 <= i <= n,
            n == g@.len(),
            exists|k: int| 0 <= k < g@.len() && g@[k] == v,
            forall|k: int| 0 <= k < i ==> g@[k] != v,
        decreases n - i,
    {
        if g[i] == v {
            proof {
                lemma_find_val(g@, v);
            }
            return i;
        }
        i = i + 1;
    }
    proof {
        assert(false);
    }
    0
}

/// Counts the positions where the two grids disagree. Zero exactly on equal
/// grids.
pub fn hamming(a: &Puzzle, b: &Puzzle, _size: Atom) -> (r: Cost)
    requires
        a@.len() == b@.len(),
    ensures
        r as int == spec_hamming(a@, b@),
        r == 0 <==> a@ == b@,
{
    let mut total: Cost = 0;

    if grids_equal(a, b) {
        proof {
            lemma_sum_range_zero(0, a@.len() as int, hamming_term_fn(a@, b@));
        }
        return 0;
    }

    let n = a.len();
    let mut i: usize = 0;
    while i < n
        invariant
            0 <= i <= n,
            n == a@.len() == b@.len(),
            total as int == sum_range(0, i as int, hamming_term_fn(a@, b@)),
            total <= i,
        decreases n - i,
    {
        proof {
            lemma_sum_range_extend(0, i as int, hamming_term_fn(a@, b@));
        }
        if a[i] != b[i] {
            total = total + 1;
        }
        i = i + 1;
    }
    proof {
        if total == 0 {
            assert forall|k: int| 0 <= k < n implies a@[k] == b@[k] by {
                lemma_sum_range_ge_term(0, n as int, hamming_term_fn(a@, b@), k);
            }
            assert(a@ =~= b@);
        }
    }
    total
}

/// Sums, over every tile value, how far its cell in `a` lies from its cell
/// in `b`. Zero exactly on equal grids.
pub fn manhattan(a: &Puzzle, b: &Puzzle, size: Atom) -> (r: Cost)
    requires
        wf_grid(a@, size as int),
        wf_grid(b@, size as int),
    ensures
        r as int == spec_manhattan(a@, b@, size as int),
        r as int <= a@.len() * (2 * size as int),
        r == 0 <==> a@ == b@,
{
    let ghost s: int = size as int;

    if grids_equal(a, b) {
        proof {
            lemma_manhattan_self(a@, b@, s);
            assert(a@.len() * (2 * s) >= 0) by (nonlinear_arith)
                requires
                    a@.len() >= 0,
                    s >= 1,
            ;
        }
        return 0;
    }

    proof {
        lemma_manhattan_positive(a@, b@, s);
    }

    proof {
        assert(size as int * size as int <= 0x10000) by (nonlinear_arith)
            requires
                1 <= size as int <= 256,
        ;
    }
    let n = a.len();
    let mut total: Cost = 0;
    let mut v: usize = 0;
    while v < n
        invariant
            0 <= v <= n,
            n == a@.len() <= 0x10000,
            wf_grid(a@, size as int),
            wf_grid(b@, size as int),
            s == size as int,
            total as int == sum_range(0, v as int, value_dist_fn(a@, b@, s)),
            total as int <= v as int * (2 * s),
        decreases n - v,
    {
        proof {
            lemma_wf_grid_complete(a@, s, v as Atom);
            lemma_wf_grid_complete(b@, s, v as Atom);
        }
        let pa = find_pos(a, v as Atom);
        let pb = find_pos(b, v as Atom);
        proof {
            assert((pa as int / s) < s && (pb as int / s) < s) by (nonlinear_arith)
                requires
                    s >= 1,
                    0 <= pa as int && (pa as int) < s * s,
                    0 <= pb as int && (pb as int) < s * s,
            ;
            lemma_sum_range_extend(0, v as int, value_dist_fn(a@, b@, s));
            assert((v as int + 1) * (2 * s) == v as int * (2 * s) + 2 * s && (v as int + 1) * (2
                * s) <= 0x8000000int) by (nonlinear_arith)
                requires
                    0 <= v as int && (v as int) < 0x10000,
                    1 <= s <= 256,
            ;
        }
        let d = dist(xy(pa as Atom, size), xy(pb as Atom, size));
        total = total + d;
        v = v + 1;
    }
    total
}

/// Manhattan distance plus one for every same-row or same-column pair whose
/// order is reversed relative to the goal. Zero exactly on equal grids.
pub fn linear_conflicts(a: &Puzzle, b: &Puzzle, size: Atom) -> (r: Cost)
    requires
        wf_grid(a@, size as int),
        wf_grid(b@, size as int),
    ensures
        r as int == spec_linear_conflicts(a@, b@, size as int),
        r == 0 <==> a@ == b@,
{
    let rp = row_penalty(a, b, size);
    let cp = col_penalty(a, b, size);
    let m = manhattan(a, b, size);
    proof {
        lemma_penalty_nonneg(a@, b@, size as int);
        if a@ == b@ {
            lemma_penalty_self(a@, b@, size as int);
        }
        assert(size as int * (size as int * size as int) <= 0x1000000int && (size as int
            * size as int) * (2 * size as int) <= 0x2000000int) by (nonlinear_arith)
            requires
                1 <= size as int <= 256,
        ;
        if m + rp + cp == 0 {
            assert(m == 0);
        }
    }
    m + rp + cp
}

/// The row part of the linear-conflict penalty.
fn row_penalty(a: &Puzzle, b: &Puzzle, size: Atom) -> (r: Cost)
    requires
        wf_grid(a@, size as int),
        wf_grid(b@, size as int),
    ensures
        r as int == spec_row_penalty(a@, b@, size as int),
        r as int <= size as int * (size as int * size as int),
{
    let s = size as usize;
    let gs = Ghost(size as int);
    let mut penalty: Cost = 0;
    let mut row: usize = 0;
    while row < s
        invariant
            0 <= row <= s,
            1 <= s == gs@ <= 256,
            wf_grid(a@, gs@),
            wf_grid(b@, gs@),
            penalty as int == sum_range(0, row as int, row_pen_fn(a@, b@, gs@)),
            penalty as int <= row as int * (gs@ * gs@),
        decreases s - row,
    {
        let mut x: usize = 0;
        while x + 1 < s
            invariant
                0 <= x <= s - 1,
                0 <= row < s,
                1 <= s == gs@ <= 256,
                wf_grid(a@, gs@),
                wf_grid(b@, gs@),
                penalty as int == sum_range(0, row as int, row_pen_fn(a@, b@, gs@)) + sum_range(
                    0,
                    x as int,
                    row_pen_x_fn(a@, b@, gs@, row as int),
                ),
                penalty as int <= row as int * (gs@ * gs@) + x as int * gs@,
            decreases s - x,
        {
            let mut x2: usize = x + 1;
            while x2 < s
                invariant
                    x < x2 <= s,
                    x + 1 < s,
                    0 <= row < s,
                    1 <= s == gs@ <= 256,
                    wf_grid(a@, gs@),
                    wf_grid(b@, gs@),
                    penalty as int == sum_range(0, row as int, row_pen_fn(a@, b@, gs@))
                        + sum_range(0, x as int, row_pen_x_fn(a@, b@, gs@, row as int))
                        + sum_range(
                        x + 1,
                        x2 as int,
                        row_conflict_fn(a@, b@, gs@, row as int, x as int),
                    ),
                    penalty as int <= row as int * (gs@ * gs@) + x as int * gs@ + (x2 - x - 1),
                decreases s - x2,
            {
                proof {
                    assert(row as int * gs@ + (x as int) < gs@ * gs@ && row as int * gs@ + (
                    x2 as int) < gs@ * gs@ && gs@ * gs@ <= 0x10000) by (nonlinear_arith)
                        requires
                            0 <= row as int && (row as int) < gs@,
                            0 <= x as int && (x as int) < gs@,
                            0 <= x2 as int && (x2 as int) < gs@,
                            1 <= gs@ <= 256,
                    ;
                    assert(row as int * (gs@ * gs@) + x as int * gs@ + gs@
                        <= 0x10000000int) by (nonlinear_arith)
                        requires
                            0 <= row as int && (row as int) < gs@,
                            0 <= x as int && (x as int) < gs@,
                            1 <= gs@ <= 256,
                    ;
                }
                let pos = x + row * s;
                let pos2 = x2 + row * s;

                let val = a[pos];
                let val2 = a[pos2];

                proof {
                    lemma_wf_grid_complete(b@, gs@, val);
                    lemma_wf_grid_complete(b@, gs@, val2);
                }
                let g = find_pos(b, val);
                let g2 = find_pos(b, val2);

                proof {
                    lemma_sum_range_extend(
                        x + 1,
                        x2 as int,
                        row_conflict_fn(a@, b@, gs@, row as int, x as int),
                    );
                    assert(row_conflict_fn(a@, b@, gs@, row as int, x as int)(x2 as int)
                        == row_conflict(a@, b@, gs@, row as int, x as int, x2 as int));
                }

                if g / s == row && g2 / s == row && g % s > g2 % s {
                    penalty = penalty + 1;
                }
                x2 = x2 + 1;
            }
            proof {
                lemma_sum_range_extend(0, x as int, row_pen_x_fn(a@, b@, gs@, row as int));
                assert(row_pen_x_fn(a@, b@, gs@, row as int)(x as int) == row_pen_x(
                    a@,
                    b@,
                    gs@,
                    row as int,
                    x as int,
                ));
                assert((x as int + 1) * gs@ == x as int * gs@ + gs@) by (nonlinear_arith);
            }
            x = x + 1;
        }
        proof {
            // the last column opens no pairs; the partial x-sum is the row sum
            if x < s - 1 {
                assert(false);
            }
            lemma_sum_range_extend(0, row as int, row_pen_fn(a@, b@, gs@));
            assert(row_pen_fn(a@, b@, gs@)(row as int) == row_pen(a@, b@, gs@, row as int));
            assert(row_pen(a@, b@, gs@, row as int) == sum_range(
                0,
                gs@ - 1,
                row_pen_x_fn(a@, b@, gs@, row as int),
            ));
            assert((row as int + 1) * (gs@ * gs@) == row as int * (gs@ * gs@) + gs@ * gs@)
                by (nonlinear_arith);
            assert(x as int * gs@ <= gs@ * gs@) by (nonlinear_arith)
                requires
                    0 <= x as int <= gs@,
            ;
        }
        row = row + 1;
    }
    penalty
}

/// The column part of the linear-conflict penalty.
fn col_penalty(a: &Puzzle, b: &Puzzle, size: Atom) -> (r: Cost)
    requires
        wf_grid(a@, size as int),
        wf_grid(b@, size as int),
    ensures
        r as int == spec_col_penalty(a@, b@, size as int),
        r as int <= size as int * (size as int * size as int),
{
    let s = size as usize;
    let gs = Ghost(size as int);
    let mut penalty: Cost = 0;
    let mut col: usize = 0;
    while col < s
        invariant
            0 <= col <= s,
            1 <= s == gs@ <= 256,
            wf_grid(a@, gs@),
            wf_grid(b@, gs@),
            penalty as int == sum_range(0, col as int, col_pen_fn(a@, b@, gs@)),
            penalty as int <= col as int * (gs@ * gs@),
        decreases s - col,
    {
        let mut y: usize = 0;
        while y + 1 < s
            invariant
                0 <= y <= s - 1,
                0 <= col < s,
                1 <= s == gs@ <= 256,
                wf_grid(a@, gs@),
                wf_grid(b@, gs@),
                penalty as int == sum_range(0, col as int, col_pen_fn(a@, b@, gs@)) + sum_range(
                    0,
                    y as int,
                    col_pen_y_fn(a@, b@, gs@, col as int),
                ),
                penalty as int <= col as int * (gs@ * gs@) + y as int * gs@,
            decreases s - y,
        {
            let mut y2: usize = y + 1;
            while y2 < s
                invariant
                    y < y2 <= s,
                    y + 1 < s,
                    0 <= col < s,
                    1 <= s == gs@ <= 256,
                    wf_grid(a@, gs@),
                    wf_grid(b@, gs@),
                    penalty as int == sum_range(0, col as int, col_pen_fn(a@, b@, gs@))
                        + sum_range(0, y as int, col_pen_y_fn(a@, b@, gs@, col as int))
                        + sum_range(
                        y + 1,
                        y2 as int,
                        col_conflict_fn(a@, b@, gs@, col as int, y as int),
                    ),
                    penalty as int <= col as int * (gs@ * gs@) + y as int * gs@ + (y2 - y - 1),
                decreases s - y2,
            {
                proof {
                    assert((col as int) + y as int * gs@ < gs@ * gs@ && (col as int) + y2 as int
                        * gs@ < gs@ * gs@ && gs@ * gs@ <= 0x10000) by (nonlinear_arith)
                        requires
                            0 <= col as int && (col as int) < gs@,
                            0 <= y as int && (y as int) < gs@,
                            0 <= y2 as int && (y2 as int) < gs@,
                            1 <= gs@ <= 256,
                    ;
                    assert(col as int * (gs@ * gs@) + y as int * gs@ + gs@
                        <= 0x10000000int) by (nonlinear_arith)
                        requires
                            0 <= col as int && (col as int) < gs@,
                            0 <= y as int && (y as int) < gs@,
                            1 <= gs@ <= 256,
                    ;
                }
                let pos = col + y * s;
                let pos2 = col + y2 * s;

                let val = a[pos];
                let val2 = a[pos2];

                proof {
                    lemma_wf_grid_complete(b@, gs@, val);
                    lemma_wf_grid_complete(b@, gs@, val2);
                }
                let g = find_pos(b, val);
                let g2 = find_pos(b, val2);

                proof {
                    lemma_sum_range_extend(
                        y + 1,
                        y2 as int,
                        col_conflict_fn(a@, b@, gs@, col as int, y as int),
                    );
                    assert(col_conflict_fn(a@, b@, gs@, col as int, y as int)(y2 as int)
                        == col_conflict(a@, b@, gs@, col as int, y as int, y2 as int));
                }

                if g % s == col && g2 % s == col && g / s > g2 / s {
                    penalty = penalty + 1;
                }
                y2 = y2 + 1;
            }
            proof {
                lemma_sum_range_extend(0, y as int, col_pen_y_fn(a@, b@, gs@, col as int));
                assert(col_pen_y_fn(a@, b@, gs@, col as int)(y as int) == col_pen_y(
                    a@,
                    b@,
                    gs@,
                    col as int,
                    y as int,
                ));
                assert((y as int + 1) * gs@ == y as int * gs@ + gs@) by (nonlinear_arith);
            }
            y = y + 1;
        }
        proof {
            if y < s - 1 {
                assert(false);
            }
            lemma_sum_range_extend(0, col as int, col_pen_fn(a@, b@, gs@));
            assert(col_pen_fn(a@, b@, gs@)(col as int) == col_pen(a@, b@, gs@, col as int));
            assert(col_pen(a@, b@, gs@, col as int) == sum_range(
                0,
                gs@ - 1,
                col_pen_y_fn(a@, b@, gs@, col as int),
            ));
            assert((col as int + 1) * (gs@ * gs@) == col as int * (gs@ * gs@) + gs@ * gs@)
                by (nonlinear_arith);
            assert(y as int * gs@ <= gs@ * gs@) by (nonlinear_arith)
                requires
                    0 <= y as int <= gs@,
            ;
        }
        col = col + 1;
    }
    penalty
}

/// Evaluates the chosen heuristic.
pub fn evaluate(h: HeuristicKind, a: &Puzzle, b: &Puzzle, size: Atom) -> (r: Cost)
    requires
        wf_grid(a@, size as int),
        wf_grid(b@, size as int),
    ensures
        r as int == spec_evaluate(h, a@, b@, size as int),
        r == 0 <==> a@ == b@,
{
    match h {
        HeuristicKind::Hamming => {
            proof {
                if a@ =~= b@ {
                    assert(a@ == b@);
                }
            }
            hamming(a, b, size)
        },
        HeuristicKind::Manhattan => manhattan(a, b, size),
        HeuristicKind::LinearConflicts => linear_conflicts(a, b, size),
    }
}

/// On equal grids every displacement is zero, so the Manhattan distance is.
pub proof fn lemma_manhattan_self(a: Seq<Atom>, b: Seq<Atom>, size: int)
    requires
        a == b,
    ensures
        spec_manhattan(a, b, size) == 0,
{
    assert forall|v: int| 0 <= v < a.len() implies #[trigger] value_dist_fn(a, b, size)(v)
        == 0 by {
        assert(find_val(a, v as Atom) == find_val(b, v as Atom));
    }
    lemma_sum_range_zero(0, a.len() as int, value_dist_fn(a, b, size));
}

/// On unequal well-formed grids some tile is displaced, so the Manhattan
/// distance is at least one.
pub proof fn lemma_manhattan_positive(a: Seq<Atom>, b: Seq<Atom>, size: int)
    requires
        wf_grid(a, size),
        wf_grid(b, size),
        a != b,
    ensures
        spec_manhattan(a, b, size) >= 1,
{
    let n = a.len() as int;
    assert(exists|i: int| 0 <= i < n && a[i] != b[i]) by {
        if forall|i: int| 0 <= i < n ==> a[i] == b[i] {
            assert(a =~= b);
        }
    }
    let i = choose|i: int| 0 <= i < n && a[i] != b[i];
    let v = a[i];
    lemma_wf_grid_complete(a, size, v);
    lemma_wf_grid_complete(b, size, v);
    let pa = find_val(a, v);
    let pb = find_val(b, v);
    assert(pa == i);
    assert(pb != i);
    assert(value_dist(a, b, size, v as int) >= 1) by {
        if pa % size == pb % size && pa / size == pb / size {
            vstd::arithmetic::div_mod::lemma_fundamental_div_mod(pa, size);
            vstd::arithmetic::div_mod::lemma_fundamental_div_mod(pb, size);
        }
    }
    assert(value_dist_fn(a, b, size)(v as int) == value_dist(a, b, size, v as int));
    assert forall|w: int| 0 <= w < n implies #[trigger] value_dist_fn(a, b, size)(w) >= 0 by {}
    lemma_sum_range_ge_term(0, n, value_dist_fn(a, b, size), v as int);
}

/// Both conflict penalties count indicators, so neither is negative.
pub proof fn lemma_penalty_nonneg(a: Seq<Atom>, b: Seq<Atom>, size: int)
    ensures
        spec_row_penalty(a, b, size) >= 0,
        spec_col_penalty(a, b, size) >= 0,
{
    assert forall|row: int| 0 <= row < size implies #[trigger] row_pen_fn(a, b, size)(row)
        >= 0 by {
        assert forall|x: int| 0 <= x < size - 1 implies #[trigger] row_pen_x_fn(
            a,
            b,
            size,
            row,
        )(x) >= 0 by {
            lemma_sum_range_nonneg(x + 1, size, row_conflict_fn(a, b, size, row, x));
        }
        lemma_sum_range_nonneg(0, size - 1, row_pen_x_fn(a, b, size, row));
    }
    lemma_sum_range_nonneg(0, size, row_pen_fn(a, b, size));
    assert forall|col: int| 0 <= col < size implies #[trigger] col_pen_fn(a, b, size)(col)
        >= 0 by {
        assert forall|y: int| 0 <= y < size - 1 implies #[trigger] col_pen_y_fn(
            a,
            b,
            size,
            col,
        )(y) >= 0 by {
            lemma_sum_range_nonneg(y + 1, size, col_conflict_fn(a, b, size, col, y));
        }
        lemma_sum_range_nonneg(0, size - 1, col_pen_y_fn(a, b, size, col));
    }
    lemma_sum_range_nonneg(0, size, col_pen_fn(a, b, size));
}

/// On equal well-formed grids every tile already stands in its goal row and
/// column in goal order, so no pair conflicts.
pub proof fn lemma_penalty_self(a: Seq<Atom>, b: Seq<Atom>, size: int)
    requires
        wf_grid(a, size),
        a == b,
    ensures
        spec_row_penalty(a, b, size) == 0,
        spec_col_penalty(a, b, size) == 0,
{
    assert forall|row: int| 0 <= row < size implies #[trigger] row_pen_fn(a, b, size)(row)
        == 0 by {
        assert forall|x: int| 0 <= x < size - 1 implies #[trigger] row_pen_x_fn(
            a,
            b,
            size,
            row,
        )(x) == 0 by {
            assert forall|x2: int| x + 1 <= x2 < size implies #[trigger] row_conflict_fn(
                a,
                b,
                size,
                row,
                x,
            )(x2) == 0 by {
                assert(0 <= row * size + x < a.len() && 0 <= row * size + x2 < a.len()) by (
                nonlinear_arith)
                    requires
                        0 <= row < size,
                        0 <= x < size,
                        0 <= x2 < size,
                        a.len() == size * size,
                ;
                lemma_self_positions(a, size, row * size + x);
                lemma_self_positions(a, size, row * size + x2);
                lemma_fundamental_div_mod_converse(row * size + x, size, row, x);
                lemma_fundamental_div_mod_converse(row * size + x2, size, row, x2);
            }
            lemma_sum_range_zero(x + 1, size, row_conflict_fn(a, b, size, row, x));
        }
        lemma_sum_range_zero(0, size - 1, row_pen_x_fn(a, b, size, row));
    }
    lemma_sum_range_zero(0, size, row_pen_fn(a, b, size));
    assert forall|col: int| 0 <= col < size implies #[trigger] col_pen_fn(a, b, size)(col)
        == 0 by {
        assert forall|y: int| 0 <= y < size - 1 implies #[trigger] col_pen_y_fn(
            a,
            b,
            size,
            col,
        )(y) == 0 by {
            assert forall|y2: int| y + 1 <= y2 < size implies #[trigger] col_conflict_fn(
                a,
                b,
                size,
                col,
                y,
            )(y2) == 0 by {
                assert(0 <= col + y * size < a.len() && 0 <= col + y2 * size < a.len()) by (
                nonlinear_arith)
                    requires
                        0 <= col < size,
                        0 <= y < size,
                        0 <= y2 < size,
                        a.len() == size * size,
                ;
                lemma_self_positions(a, size, col + y * size);
                lemma_self_positions(a, size, col + y2 * size);
                lemma_fundamental_div_mod_converse(col + y * size, size, y, col);
                lemma_fundamental_div_mod_converse(col + y2 * size, size, y2, col);
            }
            lemma_sum_range_zero(y + 1, size, col_conflict_fn(a, b, size, col, y));
        }
        lemma_sum_range_zero(0, size - 1, col_pen_y_fn(a, b, size, col));
    }
    lemma_sum_range_zero(0, size, col_pen_fn(a, b, size));
}

/// In a well-formed grid, looking a cell's own value up finds that cell.
proof fn lemma_self_positions(a: Seq<Atom>, size: int, pos: int)
    requires
        wf_grid(a, size),
        0 <= pos < a.len(),
    ensures
        find_val(a, a[pos]) == pos,
{
    lemma_wf_grid_complete(a, size, a[pos]);
}

/// Hamming distance is symmetric: disagreement does not depend on order.
pub proof fn lemma_hamming_symmetric(a: Seq<Atom>, b: Seq<Atom>)
    requires
        a.len() == b.len(),
    ensures
        spec_hamming(a, b) == spec_hamming(b, a),
{
    lemma_sum_range_eq(0, a.len() as int, hamming_term_fn(a, b), hamming_term_fn(b, a));
}

/// Manhattan distance is symmetric: each tile is as far from its goal as the
/// goal cell is from it.
pub proof fn lemma_manhattan_symmetric(a: Seq<Atom>, b: Seq<Atom>, size: int)
    requires
        a.len() == b.len(),
    ensures
        spec_manhattan(a, b, size) == spec_manhattan(b, a, size),
{
    lemma_sum_range_eq(0, a.len() as int, value_dist_fn(a, b, size), value_dist_fn(b, a, size));
}

/// The conflict penalty only ever adds, so Manhattan distance is a lower
/// bound on the linear-conflicts score.
pub proof fn lemma_manhattan_le_linear_conflicts(a: Seq<Atom>, b: Seq<Atom>, size: int)
    ensures
        spec_manhattan(a, b, size) <= spec_linear_conflicts(a, b, size),
{
    lemma_penalty_nonneg(a, b, size);
}

/// Every heuristic scores zero on a grid measured against itself.
pub proof fn lemma_heuristic_identity(h: HeuristicKind, a: Seq<Atom>, size: int)
    requires
        wf_grid(a, size),
    ensures
        spec_evaluate(h, a, a, size) == 0,
{
    match h {
        HeuristicKind::Hamming => {
            lemma_sum_range_zero(0, a.len() as int, hamming_term_fn(a, a));
        },
        HeuristicKind::Manhattan => {
            lemma_manhattan_self(a, a, size);
        },
        HeuristicKind::LinearConflicts => {
            lemma_manhattan_self(a, a, size);
            lemma_penalty_self(a, a, size);
        },
    }
}

} // verus!
