//! Coordinate math and blank-tile lookup over a flat tile array.

use vstd::prelude::*;

use crate::types::{Atom, AtomPair, Puzzle, find_val, lemma_find_val};

verus! {

/// The `(x, y)` coordinates of the cell at flat index `value` on a board of
/// side `size`.
#[inline]
pub fn xy(value: Atom, size: Atom) -> (r: AtomPair)
    requires
        size > 0,
        value / size < size,
    ensures
        r.0 == value as int % size as int,
        r.1 == value as int / size as int,
{
    (value % size, value / size)
}

/// The index of the blank (the cell holding `0`).
#[inline]
pub fn find_empty_pos(puzzle: &Puzzle) -> (r: Atom)
    requires
        exists|i: int| 0 <= i < puzzle@.len() && puzzle@[i] == 0,
        puzzle@.len() <= Atom::MAX as int + 1,
    ensures
        r as int == find_val(puzzle@, 0),
        puzzle@[r as int] == 0,
        r < puzzle@.len(),
{
    let n = puzzle.len();
    let mut i: usize = 0;
    while i < n
        invariant
            0 <= i <= n,
            n == puzzle@.len() <= Atom::MAX as int + 1,
            exists|k: int| 0 <= k < puzzle@.len() && puzzle@[k] == 0,
            forall|k: int| 0 <= k < i ==> puzzle@[k] != 0,
        decreases n - i,
    {
        if puzzle[i] == 0 {
            proof {
                lemma_find_val(puzzle@, 0);
            }
            return i as Atom;
        }
        i = i + 1;
    }
    proof {
        assert(false);
    }
    0
}

/// A copy of a grid.
pub fn clone_grid(g: &Puzzle) -> (r: Puzzle)
    ensures
        r@ == g@,
{
    let r = g.clone();
    proof {
        assert forall|i: int| 0 <= i < g@.len() implies r@[i] == g@[i] by {}
        assert(r@ =~= g@);
    }
    r
}

/// Whether two grids hold the same tile sequence.
pub fn grids_equal(a: &Puzzle, b: &Puzzle) -> (r: bool)
    ensures
        r <==> a@ == b@,
{
    if a.len() != b.len() {
        return false;
    }
    let n = a.len();
    let mut i: usize = 0;
    while i < n
        invariant
            0 <= i <= n,
            n == a@.len() == b@.len(),
            forall|k: int| 0 <= k < i ==> a@[k] == b@[k],
        decreases n - i,
    {
        if a[i] != b[i] {
            return false;
        }
        i = i + 1;
    }
    proof {
        assert(a@ =~= b@);
    }
    true
}

} // verus!
