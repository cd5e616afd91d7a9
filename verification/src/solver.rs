//! Neighbor generation and the weighted best-first search engine.

use vstd::prelude::*;
use vstd::arithmetic::div_mod::lemma_fundamental_div_mod;
use vstd::arithmetic::power::pow;
use vstd::set_lib::{lemma_int_range, lemma_len_subset, set_int_range};

use crate::heuristics::evaluate;
use crate::types::{Atom, Cost, Node, Problem, Puzzle, Solution, wf_grid};
use crate::util::{clone_grid, find_empty_pos, grids_equal};

verus! {

/// The grid after the cells at `p` and `q` exchange their values.
pub open spec fn swapped(g: Seq<Atom>, p: int, q: int) -> Seq<Atom> {
    g.update(p, g[q]).update(q, g[p])
}

/// The cells adjacent to `pos`, in the order left, right, up, down, keeping
/// only those on the board.
pub open spec fn spec_neighbor_positions(pos: int, size: int) -> Seq<int> {
    let x = pos % size;
    let y = pos / size;
    (if x > 0 {
        seq![pos - 1]
    } else {
        Seq::empty()
    }) + (if x < size - 1 {
        seq![pos + 1]
    } else {
        Seq::empty()
    }) + (if y > 0 {
        seq![pos - size]
    } else {
        Seq::empty()
    }) + (if y < size - 1 {
        seq![pos + size]
    } else {
        Seq::empty()
    })
}

/// `b` arises from `a` by sliding one tile into the blank at `p` from the
/// adjacent cell `q`.
pub open spec fn slide_witness(a: Seq<Atom>, b: Seq<Atom>, size: int, p: int, q: int) -> bool {
    &&& 0 <= p < a.len()
    &&& 0 <= q < a.len()
    &&& a[p] == 0
    &&& spec_neighbor_positions(p, size).contains(q)
    &&& b == swapped(a, p, q)
}

/// `b` arises from `a` by one legal slide.
pub open spec fn is_slide(a: Seq<Atom>, b: Seq<Atom>, size: int) -> bool {
    exists|p: int, q: int| slide_witness(a, b, size, p, q)
}

/// Every neighbor position of an on-board cell is on the board, differs from
/// the cell, and a board of side at least two always offers at least two.
pub proof fn lemma_neighbor_positions_valid(pos: int, size: int)
    requires
        2 <= size,
        0 <= pos < size * size,
    ensures
        spec_neighbor_positions(pos, size).len() >= 2,
        spec_neighbor_positions(pos, size).len() <= 4,
        forall|k: int|
            0 <= k < spec_neighbor_positions(pos, size).len() ==> {
                let q = #[trigger] spec_neighbor_positions(pos, size)[k];
                0 <= q < size * size && q != pos
            },
{
    let x = pos % size;
    let y = pos / size;
    lemma_fundamental_div_mod(pos, size);
    assert(0 <= x < size);
    assert(0 <= y < size && (x > 0 ==> pos >= 1) && (x < size - 1 ==> pos + 1 < size * size) && (y
        > 0 ==> pos >= size) && (y < size - 1 ==> pos + size < size * size)) by (nonlinear_arith)
        requires
            size >= 2,
            0 <= pos && pos < size * size,
            pos == size * y + x,
            0 <= x && x < size,
    ;
    let sa = if x > 0 {
        seq![pos - 1]
    } else {
        Seq::<int>::empty()
    };
    let sb = if x < size - 1 {
        seq![pos + 1]
    } else {
        Seq::<int>::empty()
    };
    let sc = if y > 0 {
        seq![pos - size]
    } else {
        Seq::<int>::empty()
    };
    let sd = if y < size - 1 {
        seq![pos + size]
    } else {
        Seq::<int>::empty()
    };
    let sp = spec_neighbor_positions(pos, size);
    assert(sp == sa + sb + sc + sd);
    assert(sa.len() + sb.len() >= 1 && sc.len() + sd.len() >= 1);
    assert forall|k: int| 0 <= k < sp.len() implies {
        let q = #[trigger] sp[k];
        0 <= q < size * size && q != pos
    } by {
        if k < sa.len() {
            assert(sp[k] == pos - 1);
        } else if k < sa.len() + sb.len() {
            assert(sp[k] == pos + 1);
        } else if k < sa.len() + sb.len() + sc.len() {
            assert(sp[k] == pos - size);
        } else {
            assert(sp[k] == pos + size);
        }
    }
}


/// A neighbor position is one specific step: left, right, up or down, each
/// only when the matching coordinate allows it.
pub proof fn lemma_neighbor_shape(p: int, q: int, size: int)
    requires
        2 <= size,
        0 <= p < size * size,
        spec_neighbor_positions(p, size).contains(q),
    ensures
        ({
            ||| (q == p - 1 && p % size > 0)
            ||| (q == p + 1 && p % size < size - 1)
            ||| (q == p - size && p / size > 0)
            ||| (q == p + size && p / size < size - 1)
        }),
{
    let x = p % size;
    let y = p / size;
    lemma_fundamental_div_mod(p, size);
    assert(0 <= y && y < size) by (nonlinear_arith)
        requires
            size >= 2,
            0 <= p && p < size * size,
            p == size * y + (p % size),
            0 <= p % size && p % size < size,
    ;
    let sa = if x > 0 {
        seq![p - 1]
    } else {
        Seq::<int>::empty()
    };
    let sb = if x < size - 1 {
        seq![p + 1]
    } else {
        Seq::<int>::empty()
    };
    let sc = if y > 0 {
        seq![p - size]
    } else {
        Seq::<int>::empty()
    };
    let sd = if y < size - 1 {
        seq![p + size]
    } else {
        Seq::<int>::empty()
    };
    let sp = spec_neighbor_positions(p, size);
    assert(sp == sa + sb + sc + sd);
    let k = choose|k: int| 0 <= k < sp.len() && sp[k] == q;
    if k < sa.len() {
        assert(sp[k] == p - 1);
    } else if k < sa.len() + sb.len() {
        assert(sp[k] == p + 1);
    } else if k < sa.len() + sb.len() + sc.len() {
        assert(sp[k] == p - size);
    } else {
        assert(sp[k] == p + size);
    }
}

/// Exchanging two cells keeps a grid well formed: the same values stand at
/// rearranged places.
pub proof fn lemma_swap_wf(g: Seq<Atom>, size: int, p: int, q: int)
    requires
        wf_grid(g, size),
        0 <= p < g.len(),
        0 <= q < g.len(),
    ensures
        wf_grid(swapped(g, p, q), size),
{
    let h = swapped(g, p, q);
    assert(h.len() == g.len());
    assert forall|i: int| 0 <= i < h.len() implies (#[trigger] h[i]) < h.len() by {
        if i == q {
            assert(h[i] == g[p]);
        } else if i == p {
            assert(h[i] == g[q]);
        } else {
            assert(h[i] == g[i]);
        }
    }
    assert forall|i: int, j: int| 0 <= i < j < h.len() implies h[i] != h[j] by {
        let si = if i == q {
            p
        } else if i == p {
            q
        } else {
            i
        };
        let sj = if j == q {
            p
        } else if j == p {
            q
        } else {
            j
        };
        assert(h[i] == g[si] && h[j] == g[sj]);
        assert(si != sj);
    }
}

/// Generates every state reachable from `puzzle` by one slide of the blank
/// at `pos`, paired with the blank's new position: up to four, in the order
/// left, right, up, down, and at least two on any playable board.
pub fn neighbors(puzzle: &Puzzle, pos: Atom, size: Atom) -> (r: Vec<(Puzzle, Atom)>)
    requires
        2 <= size <= 256,
        puzzle@.len() == size as int * size as int,
        (pos as int) < puzzle@.len(),
    ensures
        r@.len() == spec_neighbor_positions(pos as int, size as int).len(),
        2 <= r@.len() <= 4,
        forall|k: int|
            0 <= k < r@.len() ==> {
                let q = #[trigger] spec_neighbor_positions(pos as int, size as int)[k];
                r@[k].1 as int == q && r@[k].0@ == swapped(puzzle@, pos as int, q)
            },
{
    let ghost px: int = pos as int;
    let ghost s: int = size as int;
    proof {
        lemma_neighbor_positions_valid(px, s);
        lemma_fundamental_div_mod(px, s);
        assert(0 <= px % s < s);
        assert((0 <= px / s && px / s < s) && (px % s > 0 ==> px >= 1) && (px % s < s - 1 ==> px
            + 1 < s * s) && (px / s > 0 ==> px >= s) && (px / s < s - 1 ==> px + s < s * s) && s
            * s <= 0x10000) by (nonlinear_arith)
            requires
                2 <= s <= 256,
                0 <= px && px < s * s,
                px == s * (px / s) + px % s,
                0 <= px % s && px % s < s,
        ;
    }
    let x = pos % size;
    let y = pos / size;
    let mut set: Vec<(Puzzle, Atom)> = Vec::new();

    if x > 0 {
        let np = pos - 1;
        let mut cur = clone_grid(puzzle);
        let t1 = cur[pos as usize];
        let t2 = cur[np as usize];
        cur[pos as usize] = t2;
        cur[np as usize] = t1;
        set.push((cur, np));
    }
    if x + 1 < size {
        let np = pos + 1;
        let mut cur = clone_grid(puzzle);
        let t1 = cur[pos as usize];
        let t2 = cur[np as usize];
        cur[pos as usize] = t2;
        cur[np as usize] = t1;
        set.push((cur, np));
    }
    if y > 0 {
        let np = pos - size;
        let mut cur = clone_grid(puzzle);
        let t1 = cur[pos as usize];
        let t2 = cur[np as usize];
        cur[pos as usize] = t2;
        cur[np as usize] = t1;
        set.push((cur, np));
    }
    if y + 1 < size {
        let np = pos + size;
        let mut cur = clone_grid(puzzle);
        let t1 = cur[pos as usize];
        let t2 = cur[np as usize];
        cur[pos as usize] = t2;
        cur[np as usize] = t1;
        set.push((cur, np));
    }
    proof {
        let sp = spec_neighbor_positions(px, s);
        let sa = if px % s > 0 {
            seq![px - 1]
        } else {
            Seq::<int>::empty()
        };
        let sb = if px % s < s - 1 {
            seq![px + 1]
        } else {
            Seq::<int>::empty()
        };
        let sc = if px / s > 0 {
            seq![px - s]
        } else {
            Seq::<int>::empty()
        };
        let sd = if px / s < s - 1 {
            seq![px + s]
        } else {
            Seq::<int>::empty()
        };
        assert(sp == sa + sb + sc + sd);
        assert forall|k: int| 0 <= k < set@.len() implies set@[k].1 as int == sp[k] && set@[k].0@
            == swapped(puzzle@, px, sp[k]) by {
            if k < sa.len() {
                assert(sp[k] == px - 1);
            } else if k < sa.len() + sb.len() {
                assert(sp[k] == px + 1);
            } else if k < sa.len() + sb.len() + sc.len() {
                assert(sp[k] == px - s);
            } else {
                assert(sp[k] == px + s);
            }
        }
    }
    set
}

/// On a well-formed grid with its blank at `pos`, each neighbor differs from
/// the grid in exactly two cells — the blank's and the moved tile's — and is
/// well formed; there are always at least two of them.
pub proof fn lemma_neighbors_properties(g: Seq<Atom>, pos: int, size: int)
    requires
        wf_grid(g, size),
        size >= 2,
        0 <= pos < g.len(),
        g[pos] == 0,
    ensures
        spec_neighbor_positions(pos, size).len() >= 2,
        forall|k: int|
            0 <= k < spec_neighbor_positions(pos, size).len() ==> {
                let q = #[trigger] spec_neighbor_positions(pos, size)[k];
                let h = swapped(g, pos, q);
                &&& 0 <= q < g.len() && q != pos
                &&& wf_grid(h, size)
                &&& h[pos] != g[pos] && h[q] != g[q]
                &&& forall|m: int| 0 <= m < g.len() && m != pos && m != q ==> h[m] == g[m]
                &&& is_slide(g, h, size)
            },
{
    lemma_neighbor_positions_valid(pos, size);
    assert forall|k: int| 0 <= k < spec_neighbor_positions(pos, size).len() implies {
        let q = #[trigger] spec_neighbor_positions(pos, size)[k];
        let h = swapped(g, pos, q);
        &&& 0 <= q < g.len() && q != pos
        &&& wf_grid(h, size)
        &&& h[pos] != g[pos] && h[q] != g[q]
        &&& forall|m: int| 0 <= m < g.len() && m != pos && m != q ==> h[m] == g[m]
        &&& is_slide(g, h, size)
    } by {
        let q = spec_neighbor_positions(pos, size)[k];
        let h = swapped(g, pos, q);
        lemma_swap_wf(g, size, pos, q);
        assert(g[q] != g[pos]);
        assert(spec_neighbor_positions(pos, size).contains(q));
        assert(slide_witness(g, h, size, pos, q));
    }
}


/// The first index whose key grid equals `g`, or `-1` when none does.
spec fn key_index(from: Seq<(Puzzle, Puzzle)>, g: Seq<Atom>) -> int
    decreases from.len(),
{
    if from.len() == 0 {
        -1
    } else if from[0].0@ == g {
        0
    } else {
        let r = key_index(from.drop_first(), g);
        if r < 0 {
            -1
        } else {
            r + 1
        }
    }
}

/// `key_index` returns exactly the first matching key, and `-1` exactly when
/// no key matches.
proof fn lemma_key_index(from: Seq<(Puzzle, Puzzle)>, g: Seq<Atom>)
    ensures
        -1 <= key_index(from, g) < from.len(),
        key_index(from, g) == -1 <==> (forall|i: int|
            0 <= i < from.len() ==> (#[trigger] from[i]).0@ != g),
        key_index(from, g) >= 0 ==> from[key_index(from, g)].0@ == g,
        key_index(from, g) >= 0 ==> (forall|i: int|
            0 <= i < key_index(from, g) ==> (#[trigger] from[i]).0@ != g),
    decreases from.len(),
{
    if from.len() == 0 {
    } else if from[0].0@ == g {
    } else {
        lemma_key_index(from.drop_first(), g);
        assert(forall|i: int| 1 <= i < from.len() ==> from.drop_first()[i - 1] == from[i]);
    }
}

/// A grid read as a number in base `base`, first cell least significant.
spec fn grid_code(g: Seq<Atom>, base: int) -> int
    decreases g.len(),
{
    if g.len() == 0 {
        0
    } else {
        g[0] + base * grid_code(g.drop_first(), base)
    }
}

/// A grid over values below `base` encodes below `base` to the cell count.
proof fn lemma_grid_code_bound(g: Seq<Atom>, base: int)
    requires
        base >= 1,
        forall|i: int| 0 <= i < g.len() ==> (#[trigger] g[i]) < base,
    ensures
        0 <= grid_code(g, base) < pow(base, g.len()),
    decreases g.len(),
{
    reveal(pow);
    if g.len() == 0 {
    } else {
        let t = g.drop_first();
        assert(forall|i: int| 0 <= i < t.len() ==> t[i] == g[i + 1]);
        lemma_grid_code_bound(t, base);
        let p = pow(base, t.len());
        assert(pow(base, g.len()) == base * p);
        assert(g[0] + base * grid_code(t, base) < base * p && g[0] + base * grid_code(t, base)
            >= 0) by (nonlinear_arith)
            requires
                0 <= g[0] && (g[0] as int) < base,
                0 <= grid_code(t, base) && grid_code(t, base) < p,
                base >= 1,
        ;
    }
}

/// Two equal-length grids over values below `base` with the same encoding
/// are the same grid: the encoding is a radix numeral.
proof fn lemma_grid_code_injective(a: Seq<Atom>, b: Seq<Atom>, base: int)
    requires
        base >= 1,
        a.len() == b.len(),
        forall|i: int| 0 <= i < a.len() ==> (#[trigger] a[i]) < base,
        forall|i: int| 0 <= i < b.len() ==> (#[trigger] b[i]) < base,
        grid_code(a, base) == grid_code(b, base),
    ensures
        a == b,
    decreases a.len(),
{
    if a.len() == 0 {
        assert(a =~= b);
    } else {
        let ta = a.drop_first();
        let tb = b.drop_first();
        assert(forall|i: int| 0 <= i < ta.len() ==> ta[i] == a[i + 1]);
        assert(forall|i: int| 0 <= i < tb.len() ==> tb[i] == b[i + 1]);
        lemma_grid_code_bound(ta, base);
        lemma_grid_code_bound(tb, base);
        let c = grid_code(a, base);
        assert(c == a[0] + base * grid_code(ta, base));
        assert(c == b[0] + base * grid_code(tb, base));
        assert(0 <= a[0] as int && (a[0] as int) < base && 0 <= b[0] as int && (b[0] as int)
            < base);
        assert(c == grid_code(ta, base) * base + a[0] as int && c == grid_code(tb, base) * base
            + b[0] as int) by (nonlinear_arith)
            requires
                c == a[0] + base * grid_code(ta, base),
                c == b[0] + base * grid_code(tb, base),
        ;
        vstd::arithmetic::div_mod::lemma_fundamental_div_mod_converse(
            c,
            base,
            grid_code(ta, base),
            a[0] as int,
        );
        vstd::arithmetic::div_mod::lemma_fundamental_div_mod_converse(
            c,
            base,
            grid_code(tb, base),
            b[0] as int,
        );
        assert(a[0] == b[0] && grid_code(ta, base) == grid_code(tb, base));
        lemma_grid_code_injective(ta, tb, base);
        assert forall|i: int| 0 <= i < a.len() implies a[i] == b[i] by {
            if i > 0 {
                assert(ta[i - 1] == tb[i - 1]);
            }
        }
        assert(a =~= b);
    }
}

/// Pairwise-distinct grids of one shape cannot outnumber the numerals of
/// their radix encoding: there are at most `base` to the `len` of them.
proof fn lemma_distinct_grids_bound(gs: Seq<Seq<Atom>>, len: int, base: int)
    requires
        base >= 1,
        len >= 0,
        forall|i: int| 0 <= i < gs.len() ==> (#[trigger] gs[i]).len() == len,
        forall|i: int, k: int| 0 <= i < gs.len() && 0 <= k < len ==> (#[trigger] gs[i][k]) < base,
        forall|i: int, j: int| 0 <= i < j < gs.len() ==> gs[i] != gs[j],
    ensures
        gs.len() <= pow(base, len as nat),
{
    let codes = Seq::new(gs.len(), |i: int| grid_code(gs[i], base));
    assert forall|i: int| 0 <= i < gs.len() implies 0 <= #[trigger] codes[i] < pow(
        base,
        len as nat,
    ) by {
        lemma_grid_code_bound(gs[i], base);
    }
    assert forall|i: int, j: int| 0 <= i < j < gs.len() implies codes[i] != codes[j] by {
        if codes[i] == codes[j] {
            lemma_grid_code_injective(gs[i], gs[j], base);
        }
    }
    assert(codes.no_duplicates());
    codes.unique_seq_to_set();
    let cap = pow(base, len as nat);
    vstd::arithmetic::power::lemma_pow_positive(base, len as nat);
    lemma_int_range(0, cap);
    assert(codes.to_set().subset_of(set_int_range(0, cap))) by {
        assert forall|x: int| codes.to_set().contains(x) implies set_int_range(0, cap).contains(
            x,
        ) by {
            let i = choose|i: int| 0 <= i < codes.len() && codes[i] == x;
            assert(0 <= codes[i] < cap);
        }
    }
    lemma_len_subset(codes.to_set(), set_int_range(0, cap));
}

/// The search priority: `h` and `g` each scaled by their weight and summed,
/// saturating at the numeric ceiling instead of wrapping.
spec fn spec_priority(h: int, g: int, hw: int, gw: int) -> int {
    let a = if h * hw > Cost::MAX as int {
        Cost::MAX as int
    } else {
        h * hw
    };
    let b = if g * gw > Cost::MAX as int {
        Cost::MAX as int
    } else {
        g * gw
    };
    if a + b > Cost::MAX as int {
        Cost::MAX as int
    } else {
        a + b
    }
}

/// Computes `f = h*h_weight + g*g_weight`, saturating at the ceiling.
fn priority(h: Cost, g: Cost, hw: Cost, gw: Cost) -> (r: Cost)
    ensures
        r as int == spec_priority(h as int, g as int, hw as int, gw as int),
{
    let a = match h.checked_mul(hw) {
        Some(v) => v,
        None => Cost::MAX,
    };
    let b = match g.checked_mul(gw) {
        Some(v) => v,
        None => Cost::MAX,
    };
    a.saturating_add(b)
}

/// A statistics sum, saturating at the numeric ceiling.
pub open spec fn stat_sum(a: int, b: int) -> int {
    if a + b > usize::MAX as int {
        usize::MAX as int
    } else {
        a + b
    }
}

/// Whether some grid in `v` equals `g`.
fn contains_grid(v: &Vec<Puzzle>, g: &Puzzle) -> (r: bool)
    ensures
        r == grid_in_closed(v@, g@),
{
    let n = v.len();
    let mut i: usize = 0;
    while i < n
        invariant
            0 <= i <= n,
            n == v@.len(),
            forall|k: int| 0 <= k < i ==> (#[trigger] v@[k])@ != g@,
        decreases n - i,
    {
        if grids_equal(&v[i], g) {
            return true;
        }
        i = i + 1;
    }
    false
}

/// Looks a grid up among the parent-map keys: the first matching entry.
fn find_key(from: &Vec<(Puzzle, Puzzle)>, g: &Puzzle) -> (r: Option<usize>)
    ensures
        match r {
            Some(i) => i as int == key_index(from@, g@) && (i as int) < from@.len()
                && from@[i as int].0@ == g@,
            None => key_index(from@, g@) == -1,
        },
{
    let n = from.len();
    let mut i: usize = 0;
    while i < n
        invariant
            0 <= i <= n,
            n == from@.len(),
            forall|k: int| 0 <= k < i ==> (#[trigger] from@[k]).0@ != g@,
        decreases n - i,
    {
        if grids_equal(&from[i].0, g) {
            proof {
                lemma_key_index(from@, g@);
            }
            return Some(i);
        }
        i = i + 1;
    }
    proof {
        lemma_key_index(from@, g@);
    }
    None
}

/// Removes and returns the node with the lowest priority; among equals, the
/// one queued first.
fn pop_min(open: &mut Vec<Node>) -> (r: Node)
    requires
        old(open)@.len() > 0,
    ensures
        final(open)@.len() == old(open)@.len() - 1,
        exists|i: int|
            #![auto]
            0 <= i < old(open)@.len() && r == old(open)@[i] && final(open)@ == old(open)@.remove(i)
                && (forall|j: int| 0 <= j < old(open)@.len() ==> old(open)@[j].f_result
                >= r.f_result) && (forall|j: int| 0 <= j < i ==> old(open)@[j].f_result
                > r.f_result),
        forall|j: int|
            0 <= j < final(open)@.len() ==> exists|m: int|
                0 <= m < old(open)@.len() && #[trigger] final(open)@[j] == old(open)@[m],
{
    let n = open.len();
    let mut best: usize = 0;
    let mut i: usize = 1;
    while i < n
        invariant
            open@ == old(open)@,
            n == open@.len(),
            0 <= best < i <= n,
            forall|j: int| 0 <= j < i ==> open@[j].f_result >= open@[best as int].f_result,
            forall|j: int| 0 <= j < best ==> open@[j].f_result > open@[best as int].f_result,
        decreases n - i,
    {
        if open[i].f_result < open[best].f_result {
            best = i;
        }
        i = i + 1;
    }
    let r = open.remove(best);
    proof {
        assert forall|j: int| 0 <= j < open@.len() implies exists|m: int|
            0 <= m < old(open)@.len() && #[trigger] open@[j] == old(open)@[m] by {
            if j < best {
                assert(open@[j] == old(open)@[j]);
            } else {
                assert(open@[j] == old(open)@[j + 1]);
            }
        }
    }
    r
}


/// `p` is a walk of legal slides from `a` to `b`.
pub open spec fn spec_slide_path(p: Seq<Seq<Atom>>, a: Seq<Atom>, b: Seq<Atom>, size: int) -> bool {
    &&& p.len() >= 1
    &&& p[0] == a
    &&& p[p.len() - 1] == b
    &&& forall|k: int| 0 <= k < p.len() - 1 ==> is_slide(#[trigger] p[k], p[k + 1], size)
}

/// `b` can be reached from `a` by some sequence of legal slides.
pub open spec fn spec_reachable(a: Seq<Atom>, b: Seq<Atom>, size: int) -> bool {
    exists|p: Seq<Seq<Atom>>| spec_slide_path(p, a, b, size)
}

/// Whether some grid of the list equals `g`.
spec fn grid_in_closed(closed: Seq<Puzzle>, g: Seq<Atom>) -> bool {
    exists|i: int| 0 <= i < closed.len() && (#[trigger] closed[i])@ == g
}

/// Whether some queued node carries the grid `g`.
spec fn grid_in_open(open: Seq<Node>, g: Seq<Atom>) -> bool {
    exists|i: int| 0 <= i < open.len() && (#[trigger] open[i]).array@ == g
}

/// The search's completeness invariant: every slide successor of an expanded
/// grid has been seen — it is expanded itself or still queued. When the open
/// set drains, the closed list is therefore closed under slides.
spec fn closure_ok(closed: Seq<Puzzle>, open: Seq<Node>, size: int) -> bool {
    forall|i: int, g2: Seq<Atom>|
        0 <= i < closed.len() && #[trigger] is_slide(closed[i]@, g2, size) ==> grid_in_closed(
            closed,
            g2,
        ) || grid_in_open(open, g2)
}

/// A list of grids closed under slides covers every walk that starts in it.
proof fn lemma_closed_covers_path(closed: Seq<Puzzle>, size: int, p: Seq<Seq<Atom>>, k: int)
    requires
        forall|i: int, g2: Seq<Atom>|
            0 <= i < closed.len() && #[trigger] is_slide(closed[i]@, g2, size) ==> grid_in_closed(
                closed,
                g2,
            ),
        p.len() >= 1,
        grid_in_closed(closed, p[0]),
        forall|m: int| 0 <= m < p.len() - 1 ==> is_slide(#[trigger] p[m], p[m + 1], size),
        0 <= k < p.len(),
    ensures
        grid_in_closed(closed, p[k]),
    decreases k,
{
    if k > 0 {
        lemma_closed_covers_path(closed, size, p, k - 1);
        let i = choose|i: int| 0 <= i < closed.len() && (#[trigger] closed[i])@ == p[k - 1];
        assert(is_slide(closed[i]@, p[k], size));
    }
}

/// What the search maintains of every queued node: a well-formed grid with
/// its blank where the node says, a path cost no larger than the number of
/// expansions so far, and a recorded parent unless it is the start.
spec fn node_ok(nd: Node, size: int) -> bool {
    &&& wf_grid(nd.array@, size)
    &&& 0 <= (nd.pos as int) < nd.array@.len()
    &&& nd.array@[nd.pos as int] == 0
}

spec fn open_ok(
    open: Seq<Node>,
    from: Seq<(Puzzle, Puzzle)>,
    closed_len: int,
    start: Seq<Atom>,
    size: int,
) -> bool {
    forall|i: int|
        0 <= i < open.len() ==> {
            &&& node_ok(#[trigger] open[i], size)
            &&& open[i].g_result as int <= closed_len
            &&& (open[i].array@ == start || exists|j: int|
                0 <= j < from.len() && (#[trigger] from[j]).0@ == open[i].array@)
        }
}

/// What the search maintains of the parent map: every entry records one
/// legal slide, keys are unique and never the start, and every parent is the
/// start or a key recorded earlier — so walking parents must reach the start.
spec fn from_ok(from: Seq<(Puzzle, Puzzle)>, start: Seq<Atom>, size: int) -> bool {
    &&& forall|i: int|
        0 <= i < from.len() ==> wf_grid((#[trigger] from[i]).0@, size) && wf_grid(
            from[i].1@,
            size,
        )
    &&& forall|i: int| 0 <= i < from.len() ==> is_slide((#[trigger] from[i]).1@, from[i].0@, size)
    &&& forall|i: int| 0 <= i < from.len() ==> (#[trigger] from[i]).0@ != start
    &&& forall|i: int, j: int| 0 <= i < j < from.len() ==> from[i].0@ != from[j].0@
    &&& forall|i: int|
        0 <= i < from.len() ==> ((#[trigger] from[i]).1@ == start || exists|j: int|
            0 <= j < i && (#[trigger] from[j]).0@ == from[i].1@)
}

/// What the search maintains of the closed list: distinct well-formed grids,
/// the start grid first.
spec fn closed_ok(closed: Seq<Puzzle>, start: Seq<Atom>, size: int) -> bool {
    &&& forall|i: int| 0 <= i < closed.len() ==> wf_grid((#[trigger] closed[i])@, size)
    &&& forall|i: int, j: int| 0 <= i < j < closed.len() ==> closed[i]@ != closed[j]@
    &&& closed.len() > 0 ==> closed[0]@ == start
}

/// A path in forward order: from `start`, by one legal slide per step, to
/// `end`, every grid well formed.
pub open spec fn path_ok(path: Seq<Puzzle>, start: Seq<Atom>, end: Seq<Atom>, size: int) -> bool {
    &&& path.len() > 0 ==> (path[0]@ == start && path[path.len() - 1]@ == end)
    &&& forall|k: int| 0 <= k < path.len() ==> wf_grid((#[trigger] path[k])@, size)
    &&& forall|k: int|
        0 <= k < path.len() - 1 ==> is_slide((#[trigger] path[k])@, path[k + 1]@, size)
}

/// A path in backward order: it starts at `end` and every step goes from a
/// grid to the grid it was reached from by one slide.
spec fn rev_path_ok(path: Seq<Puzzle>, end: Seq<Atom>, size: int) -> bool {
    &&& path.len() >= 1
    &&& path[0]@ == end
    &&& forall|k: int| 0 <= k < path.len() ==> wf_grid((#[trigger] path[k])@, size)
    &&& forall|k: int|
        0 <= k < path.len() - 1 ==> is_slide(path[k + 1]@, (#[trigger] path[k])@, size)
}

/// Runs weighted best-first search from `problem.start` to `problem.end`.
///
/// A non-empty returned path begins at the start grid, ends at the goal
/// grid, and advances by one legal slide per step; the path is empty exactly
/// when no sequence of legal slides reaches the goal, in which case the
/// search exhausted its open set. States once expanded are never revisited,
/// even if a cheaper route to them turns up later. Priorities saturate at
/// the numeric ceiling instead of overflowing.
pub fn astar(problem: &Problem) -> (s: Solution)
    requires
        problem.wf(),
    ensures
        s.closed_states >= 1,
        s.max_states as int == stat_sum(s.closed_states as int, s.current_open_states as int),
        s.opened_states == s.max_states,
        path_ok(s.path@, problem.start@, problem.end@, problem.size as int),
        problem.start@ == problem.end@ ==> s.path@.len() == 1,
        s.path@.len() > 0 <==> spec_reachable(problem.start@, problem.end@, problem.size as int),
{
    let size = problem.size;
    let ghost sz: int = size as int;
    let ghost n: int = sz * sz;
    let ghost start: Seq<Atom> = problem.start@;
    let ghost end: Seq<Atom> = problem.end@;

    proof {
        assert(4 <= n <= 0x10000) by (nonlinear_arith)
            requires
                2 <= sz <= 256,
                n == sz * sz,
        ;
        crate::types::lemma_wf_grid_complete(problem.start@, sz, 0);
        vstd::arithmetic::power::lemma_pow_positive(n, n as nat);
    }

    let mut open: Vec<Node> = Vec::new();
    let mut closed: Vec<Puzzle> = Vec::new();
    let mut from: Vec<(Puzzle, Puzzle)> = Vec::new();
    let mut path: Vec<Puzzle> = Vec::new();
    let mut found: bool = false;

    let initial_h = evaluate(problem.heuristic, &problem.start, &problem.end, size);
    let pos0 = find_empty_pos(&problem.start);
    open.push(
        Node {
            array: clone_grid(&problem.start),
            pos: pos0,
            h_result: initial_h,
            g_result: 0,
            f_result: priority(initial_h, 0, problem.h_weight, problem.g_weight),
        },
    );
    proof {
        assert(open@[0].array@ == start);
        assert(grid_in_open(open@, start));
    }

    while open.len() > 0
        invariant_except_break
            problem.wf(),
            size == problem.size,
            sz == problem.size as int,
            n == sz * sz,
            4 <= n <= 0x10000,
            start == problem.start@,
            end == problem.end@,
            open_ok(open@, from@, closed@.len() as int, start, sz),
            from_ok(from@, start, sz),
            closed_ok(closed@, start, sz),
            closed@.len() <= pow(n, n as nat),
            closed@.len() == 0 ==> (open@.len() == 1 && open@[0].array@ == start && from@.len()
                == 0),
            start == end ==> closed@.len() == 0,
            closure_ok(closed@, open@, sz),
            grid_in_closed(closed@, start) || grid_in_open(open@, start),
            forall|i: int| 0 <= i < closed@.len() ==> (#[trigger] closed@[i])@ != end,
            !found,
            path@.len() == 0,
        ensures
            closed_ok(closed@, start, sz),
            closed@.len() >= 1,
            found ==> rev_path_ok(path@, end, sz),
            found ==> path@[path@.len() - 1]@ == start,
            found ==> (start == end ==> path@.len() == 1),
            !found ==> path@.len() == 0,
            !found ==> start != end,
            !found ==> open@.len() == 0,
            !found ==> closure_ok(closed@, open@, sz),
            !found ==> grid_in_closed(closed@, start),
            !found ==> (forall|i: int| 0 <= i < closed@.len() ==> (#[trigger] closed@[i])@ != end),
        decreases pow(n, n as nat) - closed@.len(), open@.len(),
    {
        let ghost open0: Seq<Node> = open@;
        let node = pop_min(&mut open);
        proof {
            assert forall|i: int| 0 <= i < open@.len() implies {
                &&& node_ok(#[trigger] open@[i], sz)
                &&& open@[i].g_result as int <= closed@.len()
                &&& (open@[i].array@ == start || exists|j: int|
                    0 <= j < from@.len() && (#[trigger] from@[j]).0@ == open@[i].array@)
            } by {
                let m = choose|m: int| 0 <= m < open0.len() && open@[i] == open0[m];
            }
            // a popped grid stays covered: it is the node in hand, and every
            // other queued grid keeps a copy in the shrunken queue
            let irem = choose|i: int|
                #![auto]
                0 <= i < open0.len() && node == open0[i] && open@ == open0.remove(i) && (
                forall|j: int| 0 <= j < open0.len() ==> open0[j].f_result >= node.f_result) && (
                forall|j: int| 0 <= j < i ==> open0[j].f_result > node.f_result);
            assert forall|g2: Seq<Atom>| grid_in_open(open0, g2) implies (g2 == node.array@
                || grid_in_open(open@, g2)) by {
                let m = choose|m: int| 0 <= m < open0.len() && (#[trigger] open0[m]).array@ == g2;
                if m != irem {
                    if m < irem {
                        assert(open@[m] == open0[m]);
                    } else {
                        assert(open@[m - 1] == open0[m]);
                    }
                }
            }
        }

        if contains_grid(&closed, &node.array) {
            proof {
                assert forall|i: int, g2: Seq<Atom>|
                    0 <= i < closed@.len() && #[trigger] is_slide(
                        closed@[i]@,
                        g2,
                        sz,
                    ) implies grid_in_closed(closed@, g2) || grid_in_open(open@, g2) by {
                    if grid_in_open(open0, g2) && g2 == node.array@ {
                        assert(grid_in_closed(closed@, g2));
                    }
                }
            }
            continue ;
        }

        let ghost closed0: Seq<Puzzle> = closed@;
        closed.push(clone_grid(&node.array));
        let cl_now = closed.len();
        proof {
            let views = Seq::new(closed@.len(), |i: int| closed@[i]@);
            assert forall|i: int, k: int|
                0 <= i < views.len() && 0 <= k < n implies (#[trigger] views[i][k]) < n by {
                assert(wf_grid(closed@[i]@, sz));
            }
            lemma_distinct_grids_bound(views, n, n);
            assert(closed@.len() <= pow(n, n as nat));
            // the grids already expanded keep their successors covered; the
            // fresh grid's successors are enumerated below
            assert(closed@[closed@.len() - 1]@ == node.array@);
            assert forall|i: int, g2: Seq<Atom>|
                0 <= i < closed@.len() - 1 && #[trigger] is_slide(
                    closed@[i]@,
                    g2,
                    sz,
                ) implies grid_in_closed(closed@, g2) || grid_in_open(open@, g2) by {
                assert(closed@[i] == closed0[i]);
                assert(is_slide(closed0[i]@, g2, sz));
                if grid_in_closed(closed0, g2) {
                    let m = choose|m: int| 0 <= m < closed0.len() && (#[trigger] closed0[m])@
                        == g2;
                    assert(closed@[m]@ == g2);
                } else if grid_in_open(open0, g2) && g2 == node.array@ {
                    assert(grid_in_closed(closed@, g2));
                }
            }
            if grid_in_closed(closed0, start) {
                let m = choose|m: int| 0 <= m < closed0.len() && (#[trigger] closed0[m])@
                    == start;
                assert(closed@[m]@ == start);
            }
        }

        if grids_equal(&node.array, &problem.end) {
            let mut current = clone_grid(&node.array);
            path.push(clone_grid(&current));
            loop
                invariant
                    from_ok(from@, start, sz),
                    sz == problem.size as int,
                    start == problem.start@,
                    end == problem.end@,
                    rev_path_ok(path@, end, sz),
                    path@[path@.len() - 1]@ == current@,
                    wf_grid(current@, sz),
                    current@ == start || (exists|j: int|
                        0 <= j < from@.len() && (#[trigger] from@[j]).0@ == current@),
                    from@.len() == 0 ==> path@.len() == 1,
                ensures
                    rev_path_ok(path@, end, sz),
                    path@[path@.len() - 1]@ == start,
                    from@.len() == 0 ==> path@.len() == 1,
                decreases key_index(from@, current@) + 1,
            {
                proof {
                    lemma_key_index(from@, current@);
                }
                match find_key(&from, &current) {
                    None => {
                        break ;
                    },
                    Some(i) => {
                        let parent = clone_grid(&from[i].1);
                        proof {
                            lemma_key_index(from@, parent@);
                            if parent@ != start {
                                let j = choose|j: int|
                                    0 <= j < i as int && (#[trigger] from@[j]).0@ == parent@;
                                if key_index(from@, parent@) > j {
                                    assert(from@[j].0@ != parent@);
                                }
                            }
                        }
                        current = parent;
                        path.push(clone_grid(&current));
                    },
                }
            }
            found = true;
            break ;
        }

        let nbrs = neighbors(&node.array, node.pos, size);
        let mut k: usize = 0;
        while k < nbrs.len()
            invariant
                problem.wf(),
                size == problem.size,
                sz == problem.size as int,
                n == sz * sz,
                4 <= n <= 0x10000,
                start == problem.start@,
                end == problem.end@,
                open_ok(open@, from@, closed@.len() as int, start, sz),
                from_ok(from@, start, sz),
                closed_ok(closed@, start, sz),
                closed@.len() <= pow(n, n as nat),
                cl_now as int == closed@.len(),
                cl_now >= 1,
                node_ok(node, sz),
                node.g_result as int <= closed@.len() - 1,
                node.array@ == start || (exists|j: int|
                    0 <= j < from@.len() && (#[trigger] from@[j]).0@ == node.array@),
                0 <= k <= nbrs@.len(),
                nbrs@.len() == spec_neighbor_positions(node.pos as int, sz).len(),
                forall|m: int|
                    0 <= m < nbrs@.len() ==> (nbrs@[m].1 as int
                        == #[trigger] spec_neighbor_positions(node.pos as int, sz)[m]),
                forall|m: int|
                    0 <= m < nbrs@.len() ==> ((#[trigger] nbrs@[m]).0@ == swapped(
                        node.array@,
                        node.pos as int,
                        spec_neighbor_positions(node.pos as int, sz)[m],
                    )),
                closed@[closed@.len() - 1]@ == node.array@,
                forall|i: int, g2: Seq<Atom>|
                    0 <= i < closed@.len() - 1 && #[trigger] is_slide(closed@[i]@, g2, sz)
                        ==> grid_in_closed(closed@, g2) || grid_in_open(open@, g2),
                forall|m: int|
                    0 <= m < k ==> (grid_in_closed(
                        closed@,
                        swapped(
                            node.array@,
                            node.pos as int,
                            #[trigger] spec_neighbor_positions(node.pos as int, sz)[m],
                        ),
                    ) || grid_in_open(
                        open@,
                        swapped(
                            node.array@,
                            node.pos as int,
                            spec_neighbor_positions(node.pos as int, sz)[m],
                        ),
                    )),
                grid_in_closed(closed@, start) || grid_in_open(open@, start),
                forall|i: int| 0 <= i < closed@.len() ==> (#[trigger] closed@[i])@ != end,
                !found,
                path@.len() == 0,
            decreases nbrs@.len() - k,
        {
            let nbr_pos = nbrs[k].1;
            let ghost open_it: Seq<Node> = open@;
            let ghost from_it: Seq<(Puzzle, Puzzle)> = from@;
            proof {
                lemma_neighbors_properties(node.array@, node.pos as int, sz);
            }
            if !contains_grid(&closed, &nbrs[k].0) {
                proof {
                    assert(wf_grid(nbrs@[k as int].0@, sz));
                    assert(nbrs@[k as int].0@ != start);
                }
                let g2 = node.g_result + 1;
                let h2 = evaluate(problem.heuristic, &nbrs[k].0, &problem.end, size);
                let f2 = priority(h2, g2, problem.h_weight, problem.g_weight);
                open.push(
                    Node {
                        array: clone_grid(&nbrs[k].0),
                        pos: nbr_pos,
                        h_result: h2,
                        g_result: g2,
                        f_result: f2,
                    },
                );
                match find_key(&from, &nbrs[k].0) {
                    None => {
                        proof {
                            lemma_key_index(from@, nbrs@[k as int].0@);
                        }
                        from.push((clone_grid(&nbrs[k].0), clone_grid(&node.array)));
                        proof {
                            let fl = from@.len() - 1;
                            assert(is_slide(from@[fl].1@, from@[fl].0@, sz)) by {
                                let q = spec_neighbor_positions(node.pos as int, sz)[k as int];
                                assert(slide_witness(
                                    node.array@,
                                    nbrs@[k as int].0@,
                                    sz,
                                    node.pos as int,
                                    q,
                                ));
                            }
                            assert(from_ok(from@, start, sz)) by {
                                assert(forall|i: int|
                                    0 <= i < from_it.len() ==> from@[i] == from_it[i]);
                                assert(from@[fl].1@ == node.array@);
                                assert(from@[fl].1@ == start || exists|j: int|
                                    0 <= j < fl && (#[trigger] from@[j]).0@ == from@[fl].1@);
                            }
                        }
                    },
                    Some(_) => {
                    },
                }
                proof {
                    assert(open_ok(open@, from@, closed@.len() as int, start, sz)) by {
                        assert(forall|i: int| 0 <= i < from_it.len() ==> from@[i] == from_it[i]);
                        assert forall|i: int| 0 <= i < open@.len() implies {
                            &&& node_ok(#[trigger] open@[i], sz)
                            &&& open@[i].g_result as int <= closed@.len()
                            &&& (open@[i].array@ == start || exists|j: int|
                                0 <= j < from@.len() && (#[trigger] from@[j]).0@
                                    == open@[i].array@)
                        } by {
                            if i < open_it.len() {
                                assert(open@[i] == open_it[i]);
                                if open@[i].array@ != start {
                                    let j = choose|j: int|
                                        0 <= j < from_it.len() && (#[trigger] from_it[j]).0@
                                            == open_it[i].array@;
                                    assert(from@[j].0@ == open@[i].array@);
                                }
                            } else {
                                assert(open@[i].array@ == nbrs@[k as int].0@);
                                assert(exists|j: int|
                                    0 <= j < from@.len() && (#[trigger] from@[j]).0@ == open@[
                                    i].array@);
                            }
                        }
                    }
                    // every grid queued before the push is still queued
                    assert forall|g2: Seq<Atom>| grid_in_open(open_it, g2) implies grid_in_open(
                        open@,
                        g2,
                    ) by {
                        let m = choose|m: int|
                            0 <= m < open_it.len() && (#[trigger] open_it[m]).array@ == g2;
                        assert(open@[m] == open_it[m]);
                    }
                    assert(grid_in_open(open@, nbrs@[k as int].0@)) by {
                        assert(open@[open@.len() - 1].array@ == nbrs@[k as int].0@);
                    }
                }
            } else {
                proof {
                    assert(grid_in_closed(closed@, nbrs@[k as int].0@));
                }
            }
            k = k + 1;
        }
        proof {
            // the fresh grid's successors are exactly the generated
            // neighbors, all of which the loop above saw
            assert forall|i: int, g2: Seq<Atom>|
                0 <= i < closed@.len() && #[trigger] is_slide(
                    closed@[i]@,
                    g2,
                    sz,
                ) implies grid_in_closed(closed@, g2) || grid_in_open(open@, g2) by {
                if i == closed@.len() - 1 {
                    assert(is_slide(node.array@, g2, sz));
                    let (p, q): (int, int) = choose|p: int, q: int|
                        slide_witness(node.array@, g2, sz, p, q);
                    assert(slide_witness(node.array@, g2, sz, p, q));
                    assert(node.array@[p] == 0 && node.array@[node.pos as int] == 0);
                    assert(p == node.pos as int);
                    assert(spec_neighbor_positions(node.pos as int, sz).contains(q));
                    let m = choose|m: int|
                        0 <= m < spec_neighbor_positions(node.pos as int, sz).len()
                            && spec_neighbor_positions(node.pos as int, sz)[m] == q;
                    assert(g2 == swapped(
                        node.array@,
                        node.pos as int,
                        spec_neighbor_positions(node.pos as int, sz)[m],
                    ));
                }
            }
        }
    }

    let mut result_path: Vec<Puzzle> = Vec::new();
    if found {
        let mut t = path.len();
        while t > 0
            invariant
                t <= path@.len(),
                result_path@.len() == path@.len() - t,
                forall|m: int|
                    0 <= m < result_path@.len() ==> ((#[trigger] result_path@[m])@
                        == path@[path@.len() - 1 - m]@),
            decreases t,
        {
            t = t - 1;
            result_path.push(clone_grid(&path[t]));
        }
        proof {
            let l = path@.len() as int;
            assert(result_path@[0]@ == path@[l - 1]@);
            assert(result_path@[l - 1]@ == path@[0]@);
            assert forall|k: int|
                0 <= k < result_path@.len() - 1 implies is_slide(
                (#[trigger] result_path@[k])@,
                result_path@[k + 1]@,
                sz,
            ) by {
                assert(result_path@[k]@ == path@[l - 1 - k]@);
                assert(result_path@[k + 1]@ == path@[l - 2 - k]@);
                assert(is_slide(path@[(l - 2 - k) + 1]@, path@[l - 2 - k]@, sz));
            }
        }
    }

    proof {
        if found {
            // the returned path itself witnesses reachability
            let w = Seq::new(result_path@.len(), |i: int| result_path@[i]@);
            assert(w[0] == start && w[w.len() - 1] == end);
            assert forall|m: int| 0 <= m < w.len() - 1 implies is_slide(
                #[trigger] w[m],
                w[m + 1],
                sz,
            ) by {
                assert(is_slide(result_path@[m]@, result_path@[m + 1]@, sz));
            }
            assert(spec_slide_path(w, start, end, sz));
            assert(spec_reachable(start, end, sz));
        } else {
            // the drained open set left the closed list closed under slides,
            // covering everything reachable from the start; the goal is not
            // among it, so no walk can reach the goal
            if spec_reachable(start, end, sz) {
                let p = choose|p: Seq<Seq<Atom>>| spec_slide_path(p, start, end, sz);
                assert(spec_slide_path(p, start, end, sz));
                assert forall|i: int, g2: Seq<Atom>|
                    0 <= i < closed@.len() && #[trigger] is_slide(
                        closed@[i]@,
                        g2,
                        sz,
                    ) implies grid_in_closed(closed@, g2) by {
                    assert(!grid_in_open(open@, g2));
                }
                lemma_closed_covers_path(closed@, sz, p, p.len() - 1);
                let i = choose|i: int|
                    0 <= i < closed@.len() && (#[trigger] closed@[i])@ == p[p.len() - 1];
                assert(closed@[i]@ == end);
                assert(false);
            }
        }
    }
    let cur_open = open.len();
    let cl = closed.len();
    Solution {
        path: result_path,
        max_states: cl.saturating_add(cur_open),
        opened_states: cur_open.saturating_add(cl),
        current_open_states: cur_open,
        closed_states: cl,
    }
}

} // verus!
