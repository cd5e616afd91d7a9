//! Data model of the puzzle core: tile values, grids, search nodes, problems
//! and solutions, together with the well-formedness specification that every
//! grid handed to the core is assumed to satisfy.

use vstd::prelude::*;
use vstd::set_lib::*;

verus! {

/// A single tile value; `0` denotes the blank cell.
pub type Atom = u16;

/// A cost: heuristic estimate, path cost or search priority.
pub type Cost = u64;

/// A complete tile arrangement: row-major, `size * size` cells.
pub type Puzzle = Vec<Atom>;

/// An `(x, y)` coordinate pair.
pub type AtomPair = (Atom, Atom);

/// The heuristic a `Problem` asks the search to consult.
#[derive(Clone, Copy, PartialEq, Eq, Structural, Debug)]
pub enum HeuristicKind {
    Hamming,
    Manhattan,
    LinearConflicts,
}

/// One not-yet-expanded search state: the grid, its blank position, and the
/// path cost `g`, heuristic estimate `h` and priority `f` it was scored with.
pub struct Node {
    pub array: Puzzle,
    pub pos: Atom,
    pub h_result: Cost,
    pub g_result: Cost,
    pub f_result: Cost,
}

/// An immutable search instance: start and goal grids of the same size, the
/// heuristic to consult, and the weights combined into `f = h*h_weight +
/// g*g_weight`.
pub struct Problem {
    pub start: Puzzle,
    pub end: Puzzle,
    pub size: Atom,
    pub heuristic: HeuristicKind,
    pub g_weight: Cost,
    pub h_weight: Cost,
}

/// The outcome of one search: the path from start to goal (empty when the
/// search exhausted its open set), and counters describing the terminal
/// moment of the run.
pub struct Solution {
    pub path: Vec<Puzzle>,
    pub max_states: usize,
    pub opened_states: usize,
    pub current_open_states: usize,
    pub closed_states: usize,
}

/// A grid together with its side length, as produced by input validation.
pub struct ParsedPuzzle {
    pub container: Puzzle,
    pub size: Atom,
}

/// The ways a textual puzzle description can be rejected.
#[derive(Clone, Copy, PartialEq, Eq, Structural, Debug)]
pub enum ParseError {
    /// A line holds more or fewer numbers than the declared size.
    NumberPerLine,
    /// A word is not a valid tile number.
    NumberInvalid,
    /// The size line declares a size below the smallest playable board.
    SizeInvalid,
    /// More than one word stands on the size line.
    SizeSyntax,
    /// The grid holds more or fewer cells than `size * size`.
    NumberOfLines,
    /// A cell value lies outside `0 .. size*size`.
    InvalidElement,
    /// A cell value appears more than once.
    DuplicatedValue,
    /// An assembled puzzle's size is below the smallest playable board.
    Size,
}

/// A well-formed grid of side `size`: exactly `size * size` cells, every
/// value below the cell count, and no value repeated — so each value in
/// `0 .. size*size` appears exactly once.
pub open spec fn wf_grid(g: Seq<Atom>, size: int) -> bool {
    &&& 1 <= size <= 256
    &&& g.len() == size * size
    &&& forall|i: int| 0 <= i < g.len() ==> (#[trigger] g[i]) < g.len()
    &&& forall|i: int, j: int| 0 <= i < j < g.len() ==> g[i] != g[j]
}

/// The first index holding value `v`, or `-1` when `v` does not occur.
pub open spec fn find_val(g: Seq<Atom>, v: Atom) -> int
    decreases g.len(),
{
    if g.len() == 0 {
        -1
    } else if g[0] == v {
        0
    } else {
        let r = find_val(g.drop_first(), v);
        if r < 0 {
            -1
        } else {
            r + 1
        }
    }
}

/// `find_val` returns exactly the first index holding `v`, and `-1` exactly
/// when `v` is absent.
pub proof fn lemma_find_val(g: Seq<Atom>, v: Atom)
    ensures
        find_val(g, v) == -1 <==> (forall|i: int| 0 <= i < g.len() ==> g[i] != v),
        find_val(g, v) != -1 ==> 0 <= find_val(g, v) < g.len() && g[find_val(g, v)] == v,
        find_val(g, v) != -1 ==> (forall|i: int| 0 <= i < find_val(g, v) ==> g[i] != v),
    decreases g.len(),
{
    if g.len() == 0 {
    } else if g[0] == v {
    } else {
        lemma_find_val(g.drop_first(), v);
        assert(forall|i: int| 1 <= i < g.len() ==> g.drop_first()[i - 1] == g[i]);
    }
}

/// In a well-formed grid every value below the cell count occurs, and
/// `find_val` locates it: with `n` cells holding `n` distinct values that
/// all lie below `n`, no value can be missing.
pub proof fn lemma_wf_grid_complete(g: Seq<Atom>, size: int, v: Atom)
    requires
        wf_grid(g, size),
        v < g.len(),
    ensures
        0 <= find_val(g, v) < g.len(),
        g[find_val(g, v)] == v,
        forall|i: int| 0 <= i < g.len() && g[i] == v ==> i == find_val(g, v),
{
    let n = g.len() as int;
    let si = Seq::new(g.len(), |i: int| g[i] as int);
    assert(si.no_duplicates());
    si.unique_seq_to_set();
    lemma_int_range(0, n);
    assert(si.to_set().subset_of(set_int_range(0, n))) by {
        assert forall|x: int| si.to_set().contains(x) implies set_int_range(0, n).contains(
            x,
        ) by {
            let i = choose|i: int| 0 <= i < si.len() && si[i] == x;
            assert(g[i] < n);
        }
    }
    lemma_len_subset(si.to_set(), set_int_range(0, n));
    lemma_subset_equality(si.to_set(), set_int_range(0, n));
    assert(set_int_range(0, n).contains(v as int));
    assert(si.to_set().contains(v as int));
    let w = choose|i: int| 0 <= i < si.len() && si[i] == v as int;
    assert(g[w] == v);
    lemma_find_val(g, v);
    assert(find_val(g, v) != -1);
}

impl Problem {
    /// What the search core assumes of every instance handed to it: both
    /// grids well formed, of the same, playable size.
    pub open spec fn wf(&self) -> bool {
        &&& self.size >= 2
        &&& wf_grid(self.start@, self.size as int)
        &&& wf_grid(self.end@, self.size as int)
    }
}

} // verus!
