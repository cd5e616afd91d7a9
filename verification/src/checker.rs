//! Solvability pre-check: a parity argument over inversion counts decides,
//! without searching, whether one grid can reach another by legal slides.

use vstd::prelude::*;

use vstd::arithmetic::div_mod::{lemma_add_mod_noop, lemma_fundamental_div_mod,
    lemma_fundamental_div_mod_converse};

use crate::solver::{is_slide, lemma_neighbor_shape, lemma_swap_wf, path_ok, slide_witness,
    spec_reachable, spec_slide_path, swapped};
use crate::sums::{
    lemma_sum_range_bound, lemma_sum_range_eq, lemma_sum_range_extend, lemma_sum_range_nonneg,
    lemma_sum_range_parity, lemma_sum_range_pointwise_add, lemma_sum_range_split,
    lemma_sum_range_transpose, sum_range,
};
use crate::types::{Atom, Cost, Puzzle, find_val, lemma_wf_grid_complete, wf_grid};
use crate::util::{find_empty_pos, xy};

verus! {

/// `1` when positions `i < j` form an inversion: both hold non-blank values
/// and the earlier one is larger.
pub open spec fn inversion_pair(g: Seq<Atom>, i: int, j: int) -> int {
    if g[i] != 0 && g[j] != 0 && g[i] > g[j] {
        1int
    } else {
        0int
    }
}

/// The inversions that position `i` opens with every later position.
pub open spec fn inv_pair_fn(g: Seq<Atom>, i: int) -> spec_fn(int) -> int {
    |j: int| inversion_pair(g, i, j)
}

/// The inversion count contributed by position `i`.
pub open spec fn inv_row(g: Seq<Atom>, i: int) -> int {
    sum_range(i + 1, g.len() as int, inv_pair_fn(g, i))
}

pub open spec fn inv_row_fn(g: Seq<Atom>) -> spec_fn(int) -> int {
    |i: int| inv_row(g, i)
}

/// The number of pairs `(i, j)`, `i < j`, of non-blank values standing in
/// decreasing order.
pub open spec fn spec_inversions(g: Seq<Atom>) -> int {
    sum_range(0, g.len() as int, inv_row_fn(g))
}

/// The inversion count, adjusted on even-width boards by the blank's row
/// index, whose parity is invariant under legal slides.
pub open spec fn spec_adjusted_inversions(g: Seq<Atom>, size: int) -> int {
    spec_inversions(g) + if size % 2 == 0 {
        find_val(g, 0) / size
    } else {
        0int
    }
}

/// Two grids are mutually reachable exactly when their adjusted inversion
/// counts agree in parity.
pub open spec fn spec_solvable(a: Seq<Atom>, b: Seq<Atom>, size: int) -> bool {
    spec_adjusted_inversions(a, size) % 2 == spec_adjusted_inversions(b, size) % 2
}

/// Counts the inversions of a grid.
pub fn inversions(puzzle: &Puzzle) -> (r: Cost)
    requires
        1 <= puzzle@.len() <= 0x10000,
    ensures
        r as int == spec_inversions(puzzle@),
{
    let g = Ghost(puzzle@);
    let n = puzzle.len();
    let mut total: Cost = 0;
    let mut i: usize = 0;
    while i < n - 1
        invariant
            0 <= i <= n - 1,
            1 <= n == g@.len() <= 0x10000,
            g@ == puzzle@,
            total as int == sum_range(0, i as int, inv_row_fn(g@)),
            total <= i * n,
        decreases n - 1 - i,
    {
        let mut j: usize = i + 1;
        while j < n
            invariant
                i < j <= n,
                i < n - 1,
                1 <= n == g@.len() <= 0x10000,
                g@ == puzzle@,
                total as int == sum_range(0, i as int, inv_row_fn(g@)) + sum_range(
                    i + 1,
                    j as int,
                    inv_pair_fn(g@, i as int),
                ),
                total <= i * n + (j - i - 1),
            decreases n - j,
        {
            proof {
                lemma_sum_range_extend(i + 1, j as int, inv_pair_fn(g@, i as int));
                assert(i * n + (j - i) < 0x100000000int) by (nonlinear_arith)
                    requires
                        0 <= i < n,
                        i < j <= n,
                        n <= 0x10000,
                ;
            }
            if puzzle[i] != 0 && puzzle[j] != 0 && puzzle[i] > puzzle[j] {
                total = total + 1;
            }
            j = j + 1;
        }
        proof {
            lemma_sum_range_extend(0, i as int, inv_row_fn(g@));
            assert(inv_row_fn(g@)(i as int) == sum_range(i + 1, n as int, inv_pair_fn(g@, i as int)));
            assert((i + 1) * n == i * n + n) by (nonlinear_arith);
        }
        i = i + 1;
    }
    proof {
        if i < n {
            // only the last position remains, and it opens no pairs
            lemma_sum_range_extend(0, (n - 1) as int, inv_row_fn(g@));
            assert(inv_row_fn(g@)((n - 1) as int) == 0);
        }
    }
    total
}

/// Decides whether `puzzle` can reach `goal` (and conversely) by legal
/// slides: the two adjusted inversion counts must agree in parity.
pub fn is_solvable(puzzle: &Puzzle, goal: &Puzzle, size: Atom) -> (r: bool)
    requires
        wf_grid(puzzle@, size as int),
        wf_grid(goal@, size as int),
    ensures
        r == spec_solvable(puzzle@, goal@, size as int),
{
    proof {
        assert(1 <= size as int * size as int <= 0x10000) by (nonlinear_arith)
            requires
                1 <= size as int <= 256,
        ;
        lemma_wf_grid_complete(puzzle@, size as int, 0);
        lemma_wf_grid_complete(goal@, size as int, 0);
        lemma_inversions_bound(puzzle@);
        lemma_inversions_bound(goal@);
    }

    let mut inv = inversions(puzzle);
    let mut g_inv = inversions(goal);

    proof {
        assert(puzzle@.len() * puzzle@.len() <= 0x100000000int) by (nonlinear_arith)
            requires
                puzzle@.len() <= 0x10000,
        ;
        assert(goal@.len() * goal@.len() <= 0x100000000int) by (nonlinear_arith)
            requires
                goal@.len() <= 0x10000,
        ;
    }

    if size % 2 == 0 {
        let p_blank = find_empty_pos(puzzle);
        let g_blank = find_empty_pos(goal);
        proof {
            assert((p_blank as int / size as int) < size as int) by (nonlinear_arith)
                requires
                    size >= 1,
                    0 <= p_blank < size * size,
            ;
            assert((g_blank as int / size as int) < size as int) by (nonlinear_arith)
                requires
                    size >= 1,
                    0 <= g_blank < size * size,
            ;
        }
        inv = inv + xy(p_blank, size).1 as Cost;
        g_inv = g_inv + xy(g_blank, size).1 as Cost;
    }

    inv % 2 == g_inv % 2
}

/// An inversion count never exceeds one per ordered pair of positions.
pub proof fn lemma_inversions_bound(g: Seq<Atom>)
    ensures
        0 <= spec_inversions(g) <= g.len() * g.len(),
{
    let n = g.len() as int;
    assert forall|i: int| 0 <= i < n implies 0 <= #[trigger] inv_row(g, i) <= n by {
        lemma_sum_range_nonneg(i + 1, n, inv_pair_fn(g, i));
        lemma_sum_range_bound(i + 1, n, inv_pair_fn(g, i), 1);
    }
    lemma_sum_range_nonneg(0, n, inv_row_fn(g));
    lemma_sum_range_bound(0, n, inv_row_fn(g), n);
    assert(n * n == g.len() * g.len());
}

/// Parity agreement is symmetric: swapping the two grids cannot change the
/// verdict.
pub proof fn lemma_solvable_symmetric(a: Seq<Atom>, b: Seq<Atom>, size: int)
    ensures
        spec_solvable(a, b, size) == spec_solvable(b, a, size),
{
}

/// A grid is always solvable against itself: the adjusted counts coincide.
pub proof fn lemma_solvable_reflexive(a: Seq<Atom>, size: int)
    ensures
        spec_solvable(a, a, size),
{
}


/// Sliding a tile sideways does not change the inversion count: the
/// non-blank values keep their relative order.
proof fn lemma_swap_inversions_horizontal(a: Seq<Atom>, t: int)
    requires
        0 <= t,
        t + 1 < a.len(),
        a[t] == 0 || a[t + 1] == 0,
    ensures
        spec_inversions(swapped(a, t, t + 1)) == spec_inversions(a),
{
    let n = a.len() as int;
    let u = t + 1;
    let b = swapped(a, t, u);
    assert(b.len() == n);
    assert(b[t] == a[u] && b[u] == a[t]);
    assert(forall|j: int| 0 <= j < n && j != t && j != u ==> b[j] == a[j]);

    assert forall|i: int| 0 <= i < t implies #[trigger] inv_row_fn(b)(i) == inv_row_fn(a)(
        i,
    ) by {
        assert(inv_pair_fn(b, i)(t) == inv_pair_fn(a, i)(u));
        assert(inv_pair_fn(b, i)(u) == inv_pair_fn(a, i)(t));
        assert(forall|j: int|
            i + 1 <= j < n && j != t && j != u ==> #[trigger] inv_pair_fn(b, i)(j) == inv_pair_fn(
                a,
                i,
            )(j));
        lemma_sum_range_transpose(i + 1, n, inv_pair_fn(b, i), inv_pair_fn(a, i), t, u);
    }
    assert(inv_row_fn(b)(t) == inv_row_fn(a)(u)) by {
        assert(sum_range(t + 1, n, inv_pair_fn(b, t)) == inv_pair_fn(b, t)(u) + sum_range(
            u + 1,
            n,
            inv_pair_fn(b, t),
        ));
        assert(inv_pair_fn(b, t)(u) == 0);
        assert(forall|j: int|
            u + 1 <= j < n ==> #[trigger] inv_pair_fn(b, t)(j) == inv_pair_fn(a, u)(j));
        lemma_sum_range_eq(u + 1, n, inv_pair_fn(b, t), inv_pair_fn(a, u));
    }
    assert(inv_row_fn(b)(u) == inv_row_fn(a)(t)) by {
        assert(sum_range(t + 1, n, inv_pair_fn(a, t)) == inv_pair_fn(a, t)(u) + sum_range(
            u + 1,
            n,
            inv_pair_fn(a, t),
        ));
        assert(inv_pair_fn(a, t)(u) == 0);
        assert(forall|j: int|
            u + 1 <= j < n ==> #[trigger] inv_pair_fn(b, u)(j) == inv_pair_fn(a, t)(j));
        lemma_sum_range_eq(u + 1, n, inv_pair_fn(b, u), inv_pair_fn(a, t));
    }
    assert forall|i: int| u < i < n implies #[trigger] inv_row_fn(b)(i) == inv_row_fn(a)(
        i,
    ) by {
        assert(forall|j: int|
            i + 1 <= j < n ==> #[trigger] inv_pair_fn(b, i)(j) == inv_pair_fn(a, i)(j));
        lemma_sum_range_eq(i + 1, n, inv_pair_fn(b, i), inv_pair_fn(a, i));
    }

    lemma_sum_range_split(0, t, n, inv_row_fn(b));
    lemma_sum_range_split(0, t, n, inv_row_fn(a));
    lemma_sum_range_eq(0, t, inv_row_fn(b), inv_row_fn(a));
    assert(sum_range(t, n, inv_row_fn(b)) == inv_row_fn(b)(t) + sum_range(u, n, inv_row_fn(b)));
    assert(sum_range(t, n, inv_row_fn(a)) == inv_row_fn(a)(t) + sum_range(u, n, inv_row_fn(a)));
    assert(sum_range(u, n, inv_row_fn(b)) == inv_row_fn(b)(u) + sum_range(
        u + 1,
        n,
        inv_row_fn(b),
    ));
    assert(sum_range(u, n, inv_row_fn(a)) == inv_row_fn(a)(u) + sum_range(
        u + 1,
        n,
        inv_row_fn(a),
    ));
    lemma_sum_range_eq(u + 1, n, inv_row_fn(b), inv_row_fn(a));
}

/// Sliding a tile vertically carries it past `size - 1` tiles, flipping one
/// inversion per tile passed: the count changes by `size - 1` in parity.
proof fn lemma_swap_inversions_vertical(a: Seq<Atom>, size: int, t: int)
    requires
        wf_grid(a, size),
        0 <= t,
        t + size < a.len(),
        a[t] == 0,
    ensures
        spec_inversions(swapped(a, t, t + size)) % 2 == (spec_inversions(a) + size - 1) % 2,
{
    let n = a.len() as int;
    let u = t + size;
    let b = swapped(a, t, u);
    let v = a[u];
    assert(b.len() == n);
    assert(b[t] == v && b[u] == 0);
    assert(forall|j: int| 0 <= j < n && j != t && j != u ==> b[j] == a[j]);
    assert(v != 0);
    assert(forall|j: int| 0 <= j < n && j != t ==> a[j] != 0);

    // rows before the blank are rearranged but not reordered
    assert forall|i: int| 0 <= i < t implies #[trigger] inv_row_fn(b)(i) == inv_row_fn(a)(
        i,
    ) by {
        assert(inv_pair_fn(b, i)(t) == inv_pair_fn(a, i)(u));
        assert(inv_pair_fn(b, i)(u) == inv_pair_fn(a, i)(t));
        assert(forall|j: int|
            i + 1 <= j < n && j != t && j != u ==> #[trigger] inv_pair_fn(b, i)(j) == inv_pair_fn(
                a,
                i,
            )(j));
        lemma_sum_range_transpose(i + 1, n, inv_pair_fn(b, i), inv_pair_fn(a, i), t, u);
    }
    // rows after the landing cell are untouched
    assert forall|i: int| u < i < n implies #[trigger] inv_row_fn(b)(i) == inv_row_fn(a)(
        i,
    ) by {
        assert(forall|j: int|
            i + 1 <= j < n ==> #[trigger] inv_pair_fn(b, i)(j) == inv_pair_fn(a, i)(j));
        lemma_sum_range_eq(i + 1, n, inv_pair_fn(b, i), inv_pair_fn(a, i));
    }
    // the blank opens no pairs, before or after the slide
    assert(inv_row_fn(a)(t) == 0) by {
        assert(forall|j: int| t + 1 <= j < n ==> #[trigger] inv_pair_fn(a, t)(j) == 0);
        crate::sums::lemma_sum_range_zero(t + 1, n, inv_pair_fn(a, t));
    }
    assert(inv_row_fn(b)(u) == 0) by {
        assert(forall|j: int| u + 1 <= j < n ==> #[trigger] inv_pair_fn(b, u)(j) == 0);
        crate::sums::lemma_sum_range_zero(u + 1, n, inv_pair_fn(b, u));
    }
    // the moved tile's new row: its pairs with passed tiles, then its old tail
    let s1 = sum_range(t + 1, u, inv_pair_fn(b, t));
    assert(inv_row_fn(b)(t) == s1 + inv_row_fn(a)(u)) by {
        lemma_sum_range_split(t + 1, u, n, inv_pair_fn(b, t));
        assert(sum_range(u, n, inv_pair_fn(b, t)) == inv_pair_fn(b, t)(u) + sum_range(
            u + 1,
            n,
            inv_pair_fn(b, t),
        ));
        assert(inv_pair_fn(b, t)(u) == 0);
        assert(forall|j: int|
            u + 1 <= j < n ==> #[trigger] inv_pair_fn(b, t)(j) == inv_pair_fn(a, u)(j));
        lemma_sum_range_eq(u + 1, n, inv_pair_fn(b, t), inv_pair_fn(a, u));
    }
    // each passed row loses exactly its pair with the moved tile
    let hfn = (|i: int| inversion_pair(a, i, u));
    assert forall|i: int| t + 1 <= i < u implies #[trigger] inv_row_fn(a)(i) == inv_row_fn(b)(i)
        + hfn(i) by {
        lemma_sum_range_split(i + 1, u, n, inv_pair_fn(a, i));
        lemma_sum_range_split(i + 1, u, n, inv_pair_fn(b, i));
        assert(sum_range(u, n, inv_pair_fn(a, i)) == inv_pair_fn(a, i)(u) + sum_range(
            u + 1,
            n,
            inv_pair_fn(a, i),
        ));
        assert(sum_range(u, n, inv_pair_fn(b, i)) == inv_pair_fn(b, i)(u) + sum_range(
            u + 1,
            n,
            inv_pair_fn(b, i),
        ));
        assert(inv_pair_fn(b, i)(u) == 0);
        assert(forall|j: int|
            i + 1 <= j < u ==> #[trigger] inv_pair_fn(a, i)(j) == inv_pair_fn(b, i)(j));
        lemma_sum_range_eq(i + 1, u, inv_pair_fn(a, i), inv_pair_fn(b, i));
        assert(forall|j: int|
            u + 1 <= j < n ==> #[trigger] inv_pair_fn(a, i)(j) == inv_pair_fn(b, i)(j));
        lemma_sum_range_eq(u + 1, n, inv_pair_fn(a, i), inv_pair_fn(b, i));
        assert(inv_pair_fn(a, i)(u) == hfn(i));
    }
    lemma_sum_range_pointwise_add(t + 1, u, inv_row_fn(a), inv_row_fn(b), hfn);
    let s2 = sum_range(t + 1, u, hfn);

    // assemble both totals
    lemma_sum_range_split(0, t, n, inv_row_fn(b));
    lemma_sum_range_split(0, t, n, inv_row_fn(a));
    lemma_sum_range_eq(0, t, inv_row_fn(b), inv_row_fn(a));
    assert(sum_range(t, n, inv_row_fn(b)) == inv_row_fn(b)(t) + sum_range(
        t + 1,
        n,
        inv_row_fn(b),
    ));
    assert(sum_range(t, n, inv_row_fn(a)) == inv_row_fn(a)(t) + sum_range(
        t + 1,
        n,
        inv_row_fn(a),
    ));
    lemma_sum_range_split(t + 1, u, n, inv_row_fn(b));
    lemma_sum_range_split(t + 1, u, n, inv_row_fn(a));
    assert(sum_range(u, n, inv_row_fn(b)) == inv_row_fn(b)(u) + sum_range(
        u + 1,
        n,
        inv_row_fn(b),
    ));
    assert(sum_range(u, n, inv_row_fn(a)) == inv_row_fn(a)(u) + sum_range(
        u + 1,
        n,
        inv_row_fn(a),
    ));
    lemma_sum_range_eq(u + 1, n, inv_row_fn(b), inv_row_fn(a));
    assert(spec_inversions(b) == spec_inversions(a) + (s1 - s2));

    // the difference is one odd unit per passed tile
    let dfn = (|i: int| inversion_pair(b, t, i) - inversion_pair(a, i, u));
    assert(forall|i: int|
        t + 1 <= i < u ==> #[trigger] inv_pair_fn(b, t)(i) == dfn(i) + hfn(i));
    lemma_sum_range_pointwise_add(t + 1, u, inv_pair_fn(b, t), dfn, hfn);
    assert forall|i: int| t + 1 <= i < u implies #[trigger] dfn(i) % 2 == 1 by {
        assert(a[i] != 0 && a[i] != v);
        assert(inv_pair_fn(b, t)(i) == if v > a[i] {
            1int
        } else {
            0int
        });
    }
    lemma_sum_range_parity(t + 1, u, dfn);
    assert((s1 - s2) % 2 == (size - 1) % 2);

    lemma_add_mod_noop(spec_inversions(a), s1 - s2, 2);
    lemma_add_mod_noop(spec_inversions(a), size - 1, 2);
}

/// One legal slide never changes which goals a grid can reach: the adjusted
/// inversion parity is invariant, so solvability is preserved move by move.
pub proof fn lemma_slide_preserves_solvable(a: Seq<Atom>, b: Seq<Atom>, size: int)
    requires
        wf_grid(a, size),
        size >= 2,
        is_slide(a, b, size),
    ensures
        spec_solvable(a, b, size),
        wf_grid(b, size),
{
    let (p, q): (int, int) = choose|p: int, q: int| slide_witness(a, b, size, p, q);
    assert(slide_witness(a, b, size, p, q));
    let n = a.len() as int;
    lemma_neighbor_shape(p, q, size);
    lemma_swap_wf(a, size, p, q);
    lemma_wf_grid_complete(a, size, 0);
    assert(find_val(a, 0) == p);
    lemma_wf_grid_complete(b, size, 0);
    assert(b[q] == 0);
    assert(find_val(b, 0) == q);
    lemma_fundamental_div_mod(p, size);
    let x = p % size;
    let y = p / size;
    let ia = spec_inversions(a);
    let ib = spec_inversions(b);

    if q == p - 1 {
        assert(b =~= swapped(a, q, q + 1));
        lemma_swap_inversions_horizontal(a, q);
        lemma_fundamental_div_mod_converse(q, size, y, x - 1);
    } else if q == p + 1 {
        lemma_swap_inversions_horizontal(a, p);
        lemma_fundamental_div_mod_converse(q, size, y, x + 1);
    } else if q == p + size {
        assert(q < n) by (nonlinear_arith)
            requires
                q == p + size,
                p == size * y + x,
                0 <= x && x < size,
                y < size - 1,
                n == size * size,
                size >= 2,
        ;
        assert(q == size * (y + 1) + x) by (nonlinear_arith)
            requires
                q == p + size,
                p == size * y + x,
        ;
        lemma_swap_inversions_vertical(a, size, p);
        lemma_fundamental_div_mod_converse(q, size, y + 1, x);
        assert(ib % 2 == (ia + size - 1) % 2);
        if size % 2 == 0 {
            lemma_add_mod_noop(ia, y, 2);
            lemma_add_mod_noop(ib, y + 1, 2);
            lemma_add_mod_noop(ia + size - 1, y + 1, 2);
            lemma_add_mod_noop(ia, y + size, 2);
            lemma_add_mod_noop(y, size, 2);
        } else {
            lemma_add_mod_noop(ia, size - 1, 2);
        }
    } else {
        assert(q == p - size);
        assert(y >= 1);
        assert(q == size * (y - 1) + x) by (nonlinear_arith)
            requires
                q == p - size,
                p == size * y + x,
        ;
        assert(a =~= swapped(b, q, q + size));
        lemma_swap_inversions_vertical(b, size, q);
        lemma_fundamental_div_mod_converse(q, size, y - 1, x);
        assert(ia % 2 == (ib + size - 1) % 2);
        if size % 2 == 0 {
            lemma_add_mod_noop(ib, y - 1, 2);
            lemma_add_mod_noop(ia, y, 2);
            lemma_add_mod_noop(ib + size - 1, y, 2);
            lemma_add_mod_noop(ib, y - 1 + size, 2);
            lemma_add_mod_noop(y - 1, size, 2);
        } else {
            lemma_add_mod_noop(ib, size - 1, 2);
        }
    }
}

/// Every prefix of a valid slide path stays solvable against its start.
proof fn lemma_path_prefix_solvable(path: Seq<Puzzle>, start: Seq<Atom>, size: int, k: int)
    requires
        size >= 2,
        0 <= k < path.len(),
        path[0]@ == start,
        forall|m: int| 0 <= m < path.len() ==> wf_grid((#[trigger] path[m])@, size),
        forall|m: int|
            0 <= m < path.len() - 1 ==> is_slide((#[trigger] path[m])@, path[m + 1]@, size),
    ensures
        spec_solvable(start, path[k]@, size),
    decreases k,
{
    if k == 0 {
        lemma_solvable_reflexive(start, size);
    } else {
        lemma_path_prefix_solvable(path, start, size, k - 1);
        lemma_slide_preserves_solvable(path[k - 1]@, path[k]@, size);
    }
}

/// A non-empty path of legal slides from start to goal certifies what the
/// parity check promised: the two grids are mutually reachable.
pub proof fn lemma_path_certifies_solvable(
    path: Seq<Puzzle>,
    start: Seq<Atom>,
    end: Seq<Atom>,
    size: int,
)
    requires
        size >= 2,
        path_ok(path, start, end, size),
        path.len() > 0,
    ensures
        spec_solvable(start, end, size),
{
    lemma_path_prefix_solvable(path, start, size, path.len() - 1);
}

/// Along a walk of legal slides from a well-formed grid, every grid stays
/// well formed and parity-solvable against the walk's start.
proof fn lemma_walk_prefix_solvable(p: Seq<Seq<Atom>>, size: int, k: int)
    requires
        size >= 2,
        wf_grid(p[0], size),
        0 <= k < p.len(),
        forall|m: int| 0 <= m < p.len() - 1 ==> is_slide(#[trigger] p[m], p[m + 1], size),
    ensures
        wf_grid(p[k], size),
        spec_solvable(p[0], p[k], size),
    decreases k,
{
    if k == 0 {
        lemma_solvable_reflexive(p[0], size);
    } else {
        lemma_walk_prefix_solvable(p, size, k - 1);
        lemma_slide_preserves_solvable(p[k - 1], p[k], size);
    }
}

/// Whatever legal slides can reach, the parity check accepts: reachability
/// implies solvability. (The checker's verdict is the other way around a
/// claim about every possible walk, which no single run can witness.)
pub proof fn lemma_reachable_solvable(a: Seq<Atom>, b: Seq<Atom>, size: int)
    requires
        size >= 2,
        wf_grid(a, size),
        spec_reachable(a, b, size),
    ensures
        spec_solvable(a, b, size),
{
    let p = choose|p: Seq<Seq<Atom>>| spec_slide_path(p, a, b, size);
    assert(spec_slide_path(p, a, b, size));
    lemma_walk_prefix_solvable(p, size, p.len() - 1);
}
} // verus!
