//! Goal-layout generators — the row-major "classic" layout and the inward
//! "snail" spiral — and a random-walk scrambler that produces a reachable
//! shuffled instance by applying legal slides only.

use vstd::prelude::*;
use vstd::arithmetic::div_mod::{lemma_fundamental_div_mod, lemma_fundamental_div_mod_converse};

use crate::checker::{lemma_slide_preserves_solvable, spec_solvable};
use crate::solver::{is_slide, lemma_neighbors_properties, neighbors, slide_witness,
    spec_neighbor_positions, spec_slide_path, swapped};
use crate::types::{Atom, ParsedPuzzle, Puzzle, lemma_wf_grid_complete, wf_grid};
use crate::util::{clone_grid, find_empty_pos};

verus! {

/// The row-major solved layout: `1, 2, ..., size*size - 1` with the blank
/// in the last cell.
pub fn classic(size: Atom) -> (r: Puzzle)
    requires
        1 <= size <= 255,
    ensures
        r@.len() == size as int * size as int,
        forall|i: int| 0 <= i < r@.len() - 1 ==> (#[trigger] r@[i]) as int == i + 1,
        r@[r@.len() - 1] == 0,
        wf_grid(r@, size as int),
{
    proof {
        assert(1 <= size as int * size as int <= 0xfe01) by (nonlinear_arith)
            requires
                1 <= size as int <= 255,
        ;
    }
    let ssize: usize = size as usize * size as usize;
    let mut solution: Puzzle = Vec::new();
    let mut i: usize = 0;
    while i < ssize
        invariant
            0 <= i <= ssize,
            ssize <= 0xfe01,
            solution@.len() == i,
            forall|k: int| 0 <= k < i ==> (#[trigger] solution@[k]) as int == k + 1,
        decreases ssize - i,
    {
        solution.push((i + 1) as Atom);
        i = i + 1;
    }
    solution[ssize - 1] = 0;
    proof {
        assert forall|p: int, q: int| 0 <= p < q < solution@.len() implies solution@[p]
            != solution@[q] by {}
    }
    solution
}

/// The cell where the spiral walk ends and the blank therefore sits.
pub open spec fn spec_snail_blank(size: int) -> int {
    if size % 2 == 0 {
        (size / 2 - 1) + (size / 2) * size
    } else {
        (size - 1) / 2 + ((size - 1) / 2) * size
    }
}

/// How many cells the spiral fills before it enters ring `r`: the cells of
/// all outer rings.
pub open spec fn ring_start(r: int, size: int) -> int {
    4 * r * (size - r)
}

/// The value the spiral writes into a cell: the count of cells walked before
/// it, plus one. Within its ring the walk goes along the top row rightward,
/// the right column downward, the bottom row leftward, the left column
/// upward.
pub open spec fn spec_snail_value(cx: int, cy: int, size: int) -> int {
    let r = cell_ring(cx, cy, size);
    let side = size - 1 - 2 * r;
    ring_start(r, size) + 1 + (if cy == r {
        cx - r
    } else if cx == size - 1 - r {
        side + (cy - r)
    } else if cy == size - 1 - r {
        2 * side + (size - 1 - r - cx)
    } else {
        3 * side + (size - 1 - r - cy)
    })
}

/// The spiral layout in full: every cell holds its walk value, but the cell
/// where the walk ends holds the blank.
pub open spec fn snail_layout(g: Seq<Atom>, size: int) -> bool {
    &&& g.len() == size * size
    &&& g[spec_snail_blank(size)] == 0
    &&& forall|c: int|
        0 <= c < size * size && c != spec_snail_blank(size) ==> (#[trigger] g[c]) as int
            == spec_snail_value(c % size, c / size, size)
}

/// The ring a cell lies on: its distance to the nearest board edge. The
/// spiral fills ring `0` first, then ring `1`, and so on inward.
pub open spec fn cell_ring(cx: int, cy: int, s: int) -> int {
    let a = if cx <= cy {
        cx
    } else {
        cy
    };
    let b = if s - 1 - cx <= s - 1 - cy {
        s - 1 - cx
    } else {
        s - 1 - cy
    };
    if a <= b {
        a
    } else {
        b
    }
}

/// The cells the spiral has filled after `k` whole walk iterations: `k / 2`
/// whole rings, plus — after an odd iteration — the top row and right column
/// of the next ring.
spec fn written_full(cx: int, cy: int, s: int, k: int) -> bool {
    let r = k / 2;
    let rg = cell_ring(cx, cy, s);
    if k % 2 == 0 {
        rg < r
    } else {
        rg < r || (rg == r && (cy == r || cx == s - 1 - r))
    }
}

/// The cells filled after `i` further steps of iteration `k`'s first leg,
/// which walks a row: rightward along ring `k/2`'s top row on even
/// iterations, leftward along its bottom row on odd ones.
spec fn written_x(cx: int, cy: int, s: int, k: int, i: int) -> bool {
    written_full(cx, cy, s, k) || (if k % 2 == 0 {
        cy == k / 2 && k / 2 <= cx < k / 2 + i
    } else {
        cy == s - 1 - (k - 1) / 2 && s - 1 - (k - 1) / 2 - i <= cx < s - 1 - (k - 1) / 2
    })
}

/// The cells filled after the whole first leg and `j` steps of the second,
/// which walks a column: down the right side on even iterations, up the left
/// side on odd ones.
spec fn written_y(cx: int, cy: int, s: int, k: int, j: int) -> bool {
    written_x(cx, cy, s, k, s - k) || (if k % 2 == 0 {
        cx == s - 1 - k / 2 && k / 2 < cy <= k / 2 + j
    } else {
        cx == (k - 1) / 2 && s - 1 - (k - 1) / 2 - j <= cy < s - 1 - (k - 1) / 2
    })
}

/// Finishing both legs of iteration `k` fills exactly what the next
/// iteration expects to find filled.
proof fn lemma_written_step(s: int, k: int)
    requires
        1 <= s,
        0 <= k < s,
    ensures
        forall|cx: int, cy: int|
            0 <= cx < s && 0 <= cy < s ==> (#[trigger] written_y(cx, cy, s, k, s - 1 - k)
                <==> written_full(cx, cy, s, k + 1)),
{
    assert forall|cx: int, cy: int| 0 <= cx < s && 0 <= cy < s implies (#[trigger] written_y(
        cx,
        cy,
        s,
        k,
        s - 1 - k,
    ) <==> written_full(cx, cy, s, k + 1)) by {
        let rg = cell_ring(cx, cy, s);
        assert(2 * rg <= s - 1);
        if k % 2 == 0 {
            let r = k / 2;
            assert(k == 2 * r);
            assert((k + 1) / 2 == r && (k + 1) % 2 == 1);
        } else {
            let r = (k - 1) / 2;
            assert(k == 2 * r + 1);
            assert((k + 1) / 2 == r + 1 && (k + 1) % 2 == 0);
        }
    }
}

/// After all `s` iterations every cell of the board is filled.
proof fn lemma_written_all(s: int)
    requires
        1 <= s,
    ensures
        forall|cx: int, cy: int|
            0 <= cx < s && 0 <= cy < s ==> #[trigger] written_full(cx, cy, s, s),
{
    assert forall|cx: int, cy: int| 0 <= cx < s && 0 <= cy < s implies #[trigger] written_full(
        cx,
        cy,
        s,
        s,
    ) by {
        let rg = cell_ring(cx, cy, s);
        assert(2 * rg <= s - 1);
        if s % 2 == 0 {
            assert(s == 2 * (s / 2));
        } else {
            assert(s == 2 * (s / 2) + 1);
            if rg == s / 2 {
                assert(cx >= rg && s - 1 - cx >= rg);
                assert(cx == s - 1 - s / 2);
            }
        }
    }
}

/// The spiral solved layout: values wind clockwise from the top-left corner
/// inward, one ring at a time, with the blank at the spiral's end.
pub fn snail(size: Atom) -> (r: Puzzle)
    requires
        1 <= size <= 255,
    ensures
        r@.len() == size as int * size as int,
        r@[spec_snail_blank(size as int)] == 0,
        wf_grid(r@, size as int),
        snail_layout(r@, size as int),
{
    let s = size as usize;
    let ghost si: int = s as int;
    proof {
        assert(1 <= si * si <= 0xfe01) by (nonlinear_arith)
            requires
                1 <= si <= 255,
        ;
    }
    let ssize: usize = s * s;
    let mut solution: Puzzle = Vec::new();
    let mut f: usize = 0;
    while f < ssize
        invariant
            solution@.len() == f <= ssize,
            forall|c: int| 0 <= c < f ==> (#[trigger] solution@[c]) == 0,
        decreases ssize - f,
    {
        solution.push(0);
        f = f + 1;
    }

    proof {
        assert forall|cx: int, cy: int| 0 <= cx < si && 0 <= cy < si implies ((
        #[trigger] solution@[cy * si + cx]) == 0 && !written_full(cx, cy, si, 0)) by {
            assert(0 <= cy * si + cx && cy * si + cx < si * si) by (nonlinear_arith)
                requires
                    0 <= cx && cx < si,
                    0 <= cy && cy < si,
                    1 <= si,
            ;
        }
    }

    // right and down when `dir` is 1; left and up when it is -1
    let mut dir: i32 = 1;
    let mut counter: Atom = 0;
    let mut x: i32 = -1;
    let mut y: i32 = 0;

    let mut k: usize = 0;
    while k < s
        invariant
            0 <= k <= s,
            1 <= si == s as int <= 255,
            ssize as int == si * si,
            si * si <= 0xfe01,
            solution@.len() == si * si,
            counter as int == k * (2 * si - k),
            k % 2 == 0 ==> dir == 1 && x as int == k / 2 - 1 && y as int == k / 2,
            k % 2 == 1 ==> dir == -1 && x as int == si - 1 - (k - 1) / 2 && y as int == si - 1 - (
            k - 1) / 2,
            forall|cx: int, cy: int|
                0 <= cx < si && 0 <= cy < si ==> ((#[trigger] solution@[cy * si + cx]) != 0
                    <==> written_full(cx, cy, si, k as int)),
            forall|cx: int, cy: int|
                0 <= cx < si && 0 <= cy < si ==> ((#[trigger] solution@[cy * si + cx]) as int
                    == (if written_full(cx, cy, si, k as int) {
                    spec_snail_value(cx, cy, si)
                } else {
                    0
                })),
            forall|c1: int, c2: int|
                0 <= c1 < c2 < si * si && solution@[c1] != 0 && solution@[c2] != 0
                    ==> solution@[c1] != solution@[c2],
            forall|c: int| 0 <= c < si * si ==> (#[trigger] solution@[c]) <= counter,
            k >= 1 ==> (0 <= x as int && (x as int) < si && 0 <= y as int && (y as int) < si
                && solution@[y as int * si + x as int] == counter),
        decreases s - k,
    {
        let n = s - 1 - k;
        proof {
            assert(k * (2 * si - k) + (si - k) + (si - 1 - k) == (k + 1) * (2 * si - (k + 1))
                && k * (2 * si - k) + (si - k) + (si - 1 - k) <= si * si) by (nonlinear_arith)
                requires
                    0 <= k && (k as int) < si,
                    1 <= si <= 255,
            ;
        }
        let ghost x0: int = x as int;
        let ghost c0: int = counter as int;
        let mut i: usize = 0;
        while i < n + 1
            invariant
                0 <= i <= n + 1,
                n == s - 1 - k,
                0 <= k && (k as int) < si,
                1 <= si == s as int <= 255,
                ssize as int == si * si,
                si * si <= 0xfe01,
                solution@.len() == si * si,
                counter as int == c0 + i,
                c0 == k * (2 * si - k),
                c0 + (si - k) + (si - 1 - k) <= si * si,
                dir == 1 || dir == -1,
                dir == 1 ==> x as int == x0 + i,
                dir == -1 ==> x as int == x0 - i,
                k % 2 == 0 ==> dir == 1 && x0 == k / 2 - 1 && y as int == k / 2,
                k % 2 == 1 ==> dir == -1 && x0 == si - 1 - (k - 1) / 2 && y as int == si - 1 - (k
                    - 1) / 2,
                forall|cx: int, cy: int|
                    0 <= cx < si && 0 <= cy < si ==> ((#[trigger] solution@[cy * si + cx]) != 0
                        <==> written_x(cx, cy, si, k as int, i as int)),
                forall|cx: int, cy: int|
                    0 <= cx < si && 0 <= cy < si ==> ((#[trigger] solution@[cy * si + cx]) as int
                        == (if written_x(cx, cy, si, k as int, i as int) {
                        spec_snail_value(cx, cy, si)
                    } else {
                        0
                    })),
                forall|c1: int, c2: int|
                    0 <= c1 < c2 < si * si && solution@[c1] != 0 && solution@[c2] != 0
                        ==> solution@[c1] != solution@[c2],
                forall|c: int| 0 <= c < si * si ==> (#[trigger] solution@[c]) <= counter,
                i >= 1 ==> solution@[y as int * si + x as int] == counter,
            decreases n + 1 - i,
        {
            proof {
                if k % 2 == 0 {
                    assert(0 <= x0 + i + 1 && x0 + i + 1 <= si - 1 - k / 2);
                } else {
                    assert(x0 - i - 1 >= (k - 1) / 2 && x0 - i - 1 <= si - 1);
                }
                assert(0 <= y as int && y as int <= si - 1);
            }
            x = x + dir;
            counter = counter + 1;
            let ghost tx: int = x as int;
            let ghost ty: int = y as int;
            proof {
                assert(0 <= tx + ty * si && tx + ty * si < si * si) by (nonlinear_arith)
                    requires
                        0 <= tx && tx < si,
                        0 <= ty && ty < si,
                        1 <= si <= 255,
                ;
                // the target cell lies on ring `k/2`, is still unfilled, and
                // the walk count there is exactly the value being written
                if k % 2 == 0 {
                    let r = k as int / 2;
                    assert(2 * r <= si - 1);
                    assert(tx == r + i && ty == r && r <= tx <= si - 1 - r);
                    assert(cell_ring(tx, ty, si) == r);
                    assert(ring_start(r, si) == k * (2 * si - k)) by (nonlinear_arith)
                        requires
                            k as int == 2 * r,
                    ;
                    assert(spec_snail_value(tx, ty, si) == counter as int);
                } else {
                    let r = (k as int - 1) / 2;
                    assert(k as int == 2 * r + 1 && 2 * r <= si - 2);
                    assert(tx == si - 2 - r - i && ty == si - 1 - r && r <= tx <= si - 2 - r);
                    assert(cell_ring(tx, ty, si) == r);
                    assert(ring_start(r, si) + 2 * (si - 1 - 2 * r) + 1 == k * (2 * si
                        - k)) by (nonlinear_arith)
                        requires
                            k as int == 2 * r + 1,
                    ;
                    assert(spec_snail_value(tx, ty, si) == counter as int);
                }
                assert(!written_x(tx, ty, si, k as int, i as int));
                assert(solution@[ty * si + tx] == 0);
            }
            let idx = (x + y * (s as i32)) as usize;
            solution[idx] = counter;
            proof {
                assert(idx as int == ty * si + tx);
                lemma_fundamental_div_mod_converse(ty * si + tx, si, ty, tx);
                assert forall|cx: int, cy: int| 0 <= cx < si && 0 <= cy < si implies ((
                #[trigger] solution@[cy * si + cx]) != 0 <==> written_x(
                    cx,
                    cy,
                    si,
                    k as int,
                    i + 1,
                )) && ((solution@[cy * si + cx]) as int == (if written_x(
                    cx,
                    cy,
                    si,
                    k as int,
                    i + 1,
                ) {
                    spec_snail_value(cx, cy, si)
                } else {
                    0
                })) by {
                    assert(0 <= cy * si + cx && cy * si + cx < si * si) by (nonlinear_arith)
                        requires
                            0 <= cx && cx < si,
                            0 <= cy && cy < si,
                            1 <= si,
                    ;
                    lemma_fundamental_div_mod_converse(cy * si + cx, si, cy, cx);
                }
            }
            i = i + 1;
        }
        let ghost y0: int = y as int;
        let ghost c1: int = counter as int;
        let mut j: usize = 0;
        while j < n
            invariant
                0 <= j <= n,
                n == s - 1 - k,
                0 <= k && (k as int) < si,
                1 <= si == s as int <= 255,
                ssize as int == si * si,
                si * si <= 0xfe01,
                solution@.len() == si * si,
                counter as int == c1 + j,
                c1 == k * (2 * si - k) + (si - k),
                c1 + (si - 1 - k) <= si * si,
                dir == 1 || dir == -1,
                dir == 1 ==> y as int == y0 + j,
                dir == -1 ==> y as int == y0 - j,
                k % 2 == 0 ==> dir == 1 && y0 == k / 2 && x as int == si - 1 - k / 2,
                k % 2 == 1 ==> dir == -1 && y0 == si - 1 - (k - 1) / 2 && x as int == (k - 1) / 2,
                forall|cx: int, cy: int|
                    0 <= cx < si && 0 <= cy < si ==> ((#[trigger] solution@[cy * si + cx]) != 0
                        <==> written_y(cx, cy, si, k as int, j as int)),
                forall|cx: int, cy: int|
                    0 <= cx < si && 0 <= cy < si ==> ((#[trigger] solution@[cy * si + cx]) as int
                        == (if written_y(cx, cy, si, k as int, j as int) {
                        spec_snail_value(cx, cy, si)
                    } else {
                        0
                    })),
                forall|c1x: int, c2x: int|
                    0 <= c1x < c2x < si * si && solution@[c1x] != 0 && solution@[c2x] != 0
                        ==> solution@[c1x] != solution@[c2x],
                forall|c: int| 0 <= c < si * si ==> (#[trigger] solution@[c]) <= counter,
                solution@[y as int * si + x as int] == counter,
            decreases n - j,
        {
            proof {
                if k % 2 == 0 {
                    assert(0 <= y0 + j + 1 && y0 + j + 1 <= si - 1 - k / 2);
                } else {
                    assert(y0 - j - 1 >= (k - 1) / 2 + 1 && y0 - j - 1 <= si - 1);
                }
                assert(0 <= x as int && x as int <= si - 1);
            }
            y = y + dir;
            counter = counter + 1;
            let ghost tx: int = x as int;
            let ghost ty: int = y as int;
            proof {
                assert(0 <= tx + ty * si && tx + ty * si < si * si) by (nonlinear_arith)
                    requires
                        0 <= tx && tx < si,
                        0 <= ty && ty < si,
                        1 <= si <= 255,
                ;
                // the target cell lies on ring `k/2`, is still unfilled, and
                // the walk count there is exactly the value being written
                if k % 2 == 0 {
                    let r = k as int / 2;
                    assert(2 * r <= si - 1);
                    assert(tx == si - 1 - r && ty == r + j + 1 && r + 1 <= ty <= si - 1 - r);
                    assert(cell_ring(tx, ty, si) == r);
                    assert(ring_start(r, si) == k * (2 * si - k)) by (nonlinear_arith)
                        requires
                            k as int == 2 * r,
                    ;
                    assert(spec_snail_value(tx, ty, si) == counter as int);
                } else {
                    let r = (k as int - 1) / 2;
                    assert(k as int == 2 * r + 1 && 2 * r <= si - 2);
                    assert(tx == r && ty == si - 2 - r - j && r + 1 <= ty <= si - 2 - r);
                    assert(cell_ring(tx, ty, si) == r);
                    assert(ring_start(r, si) + 2 * (si - 1 - 2 * r) + 1 == k * (2 * si
                        - k)) by (nonlinear_arith)
                        requires
                            k as int == 2 * r + 1,
                    ;
                    assert(spec_snail_value(tx, ty, si) == counter as int);
                }
                assert(!written_y(tx, ty, si, k as int, j as int));
                assert(solution@[ty * si + tx] == 0);
            }
            let idx = (x + y * (s as i32)) as usize;
            solution[idx] = counter;
            proof {
                assert(idx as int == ty * si + tx);
                lemma_fundamental_div_mod_converse(ty * si + tx, si, ty, tx);
                assert forall|cx: int, cy: int| 0 <= cx < si && 0 <= cy < si implies ((
                #[trigger] solution@[cy * si + cx]) != 0 <==> written_y(
                    cx,
                    cy,
                    si,
                    k as int,
                    j + 1,
                )) && ((solution@[cy * si + cx]) as int == (if written_y(
                    cx,
                    cy,
                    si,
                    k as int,
                    j + 1,
                ) {
                    spec_snail_value(cx, cy, si)
                } else {
                    0
                })) by {
                    assert(0 <= cy * si + cx && cy * si + cx < si * si) by (nonlinear_arith)
                        requires
                            0 <= cx && cx < si,
                            0 <= cy && cy < si,
                            1 <= si,
                    ;
                    lemma_fundamental_div_mod_converse(cy * si + cx, si, cy, cx);
                }
            }
            j = j + 1;
        }
        proof {
            lemma_written_step(si, k as int);
        }
        dir = -dir;
        k = k + 1;
    }

    proof {
        assert(0 <= x as int && (x as int) < si && 0 <= y as int && (y as int) < si);
        assert(0 <= x as int + y as int * si && x as int + y as int * si < si * si) by (
        nonlinear_arith)
            requires
                0 <= x as int && (x as int) < si,
                0 <= y as int && (y as int) < si,
                1 <= si <= 255,
        ;
        assert(x as int + y as int * si == spec_snail_blank(si));
        assert(counter as int == si * si) by (nonlinear_arith)
            requires
                counter as int == si * (2 * si - si),
        ;
        // every cell is filled, so the values are `1 ..= size * size`, each
        // exactly once; zeroing the last-written cell leaves a permutation
        lemma_written_all(si);
        assert forall|c: int| 0 <= c < si * si implies (#[trigger] solution@[c]) != 0 by {
            lemma_fundamental_div_mod(c, si);
            let cy = c / si;
            let cx = c % si;
            assert(0 <= cy && cy < si) by (nonlinear_arith)
                requires
                    0 <= c && c < si * si,
                    si >= 1,
                    c == si * cy + cx,
                    0 <= cx && cx < si,
            ;
            assert(written_full(cx, cy, si, si));
            assert(solution@[cy * si + cx] != 0);
        }
    }
    let ghost pre: Seq<Atom> = solution@;
    let ghost b: int = x as int + y as int * si;
    proof {
        assert(pre[b] == counter);
    }
    let idx = (x + y * (s as i32)) as usize;
    solution[idx] = 0;
    proof {
        assert(solution@ == pre.update(b, 0u16));
        assert forall|c: int| 0 <= c < si * si implies ((#[trigger] solution@[c]) as int) < si
            * si by {
            if c != b {
                assert(solution@[c] == pre[c]);
                assert(pre[c] != 0);
                // only the blank's cell held the top value before zeroing
                assert(pre[c] != counter);
                assert(pre[c] <= counter);
            }
        }
        assert forall|c1: int, c2: int| 0 <= c1 < c2 < si * si implies solution@[c1]
            != solution@[c2] by {
            if c1 != b && c2 != b {
                assert(solution@[c1] == pre[c1] && solution@[c2] == pre[c2]);
                assert(pre[c1] != 0 && pre[c2] != 0);
            } else if c1 == b {
                assert(solution@[c1] == 0 && solution@[c2] == pre[c2] && pre[c2] != 0);
            } else {
                assert(solution@[c2] == 0 && solution@[c1] == pre[c1] && pre[c1] != 0);
            }
        }
        assert forall|c: int|
            0 <= c < si * si && c != spec_snail_blank(si) implies (#[trigger] solution@[c]) as int
            == spec_snail_value(c % si, c / si, si) by {
            lemma_fundamental_div_mod(c, si);
            let cy = c / si;
            let cx = c % si;
            assert(0 <= cy && cy < si) by (nonlinear_arith)
                requires
                    0 <= c && c < si * si,
                    si >= 1,
                    c == si * cy + cx,
                    0 <= cx && cx < si,
            ;
            assert(solution@[c] == pre[c]);
            assert(written_full(cx, cy, si, si));
            assert(pre[cy * si + cx] as int == spec_snail_value(cx, cy, si));
        }
        assert(snail_layout(solution@, si));
    }
    solution
}

/// Relies on `rand::distributions::Uniform::new(0, 4)` and
/// `rand::thread_rng`: a draw from the half-open range `[0, 4)`.
#[verifier::external_body]
fn random_below_4() -> (r: usize)
    ensures
        r < 4,
{
    let between = rand::distributions::Uniform::new(0usize, 4usize);
    rand::distributions::Distribution::sample(&between, &mut rand::thread_rng())
}

/// Scrambles a solved grid by a bounded random walk over legal slides. Every
/// step is a legal move, so the result keeps the grid well formed, reachable
/// from the input within `iterations` slides, and therefore solvable against
/// it.
pub fn generate_valid_puzzle(puzzle: &ParsedPuzzle, iterations: u64) -> (r: ParsedPuzzle)
    requires
        2 <= puzzle.size,
        wf_grid(puzzle.container@, puzzle.size as int),
    ensures
        r.size == puzzle.size,
        wf_grid(r.container@, r.size as int),
        spec_solvable(puzzle.container@, r.container@, puzzle.size as int),
        (exists|p: Seq<Seq<Atom>>|
            #![auto]
            spec_slide_path(p, puzzle.container@, r.container@, puzzle.size as int) && p.len()
                <= iterations + 1),
{
    let size = puzzle.size;
    let ghost sz: int = size as int;
    let mut container = clone_grid(&puzzle.container);
    let ghost mut walk: Seq<Seq<Atom>> = seq![container@];
    proof {
        assert(4 <= sz * sz <= 0x10000) by (nonlinear_arith)
            requires
                2 <= sz <= 256,
        ;
        lemma_wf_grid_complete(container@, sz, 0);
    }
    let mut last_pos = find_empty_pos(&container);

    let mut i: u64 = 0;
    while i < iterations
        invariant
            size == puzzle.size,
            2 <= size <= 256,
            sz == size as int,
            wf_grid(container@, sz),
            (last_pos as int) < container@.len(),
            container@[last_pos as int] == 0,
            spec_solvable(puzzle.container@, container@, sz),
            0 <= i <= iterations,
            walk.len() == i + 1,
            walk[0] == puzzle.container@,
            walk[walk.len() - 1] == container@,
            forall|m: int| 0 <= m < walk.len() - 1 ==> is_slide(#[trigger] walk[m], walk[m + 1], sz),
        decreases iterations - i,
    {
        let nbrs = neighbors(&container, last_pos, size);
        let swap_n = random_below_4() % nbrs.len();
        proof {
            lemma_neighbors_properties(container@, last_pos as int, sz);
            let q = spec_neighbor_positions(last_pos as int, sz)[swap_n as int];
            assert(nbrs@[swap_n as int].1 as int == q);
            assert(nbrs@[swap_n as int].0@ == swapped(container@, last_pos as int, q));
            assert(wf_grid(swapped(container@, last_pos as int, q), sz));
            assert(spec_neighbor_positions(last_pos as int, sz).contains(q));
            assert(slide_witness(container@, nbrs@[swap_n as int].0@, sz, last_pos as int, q));
            assert(is_slide(container@, nbrs@[swap_n as int].0@, sz));
            lemma_slide_preserves_solvable(container@, nbrs@[swap_n as int].0@, sz);
            walk = walk.push(nbrs@[swap_n as int].0@);
        }
        let chosen_grid = clone_grid(&nbrs[swap_n].0);
        let chosen_pos = nbrs[swap_n].1;
        container = chosen_grid;
        last_pos = chosen_pos;
        i = i + 1;
    }

    proof {
        assert(spec_slide_path(walk, puzzle.container@, container@, sz));
    }
    ParsedPuzzle { container, size }
}

} // verus!
