//! Finite sums over integer ranges, the shape every counter in this crate
//! (inversions, displacement totals, conflict penalties) reduces to.

use vstd::prelude::*;

verus! {

/// The sum of `f(lo) + f(lo + 1) + ... + f(hi - 1)`; `0` on an empty range.
pub open spec fn sum_range(lo: int, hi: int, f: spec_fn(int) -> int) -> int
    decreases hi - lo,
{
    if lo >= hi {
        0
    } else {
        f(lo) + sum_range(lo + 1, hi, f)
    }
}

/// A sum grows at the top: appending one more term adds `f(hi)`.
pub proof fn lemma_sum_range_extend(lo: int, hi: int, f: spec_fn(int) -> int)
    requires
        lo <= hi,
    ensures
        sum_range(lo, hi + 1, f) == sum_range(lo, hi, f) + f(hi),
    decreases hi - lo,
{
    if lo < hi {
        lemma_sum_range_extend(lo + 1, hi, f);
        assert(sum_range(lo, hi + 1, f) == f(lo) + sum_range(lo + 1, hi + 1, f));
        assert(sum_range(lo, hi, f) == f(lo) + sum_range(lo + 1, hi, f));
    } else {
        assert(sum_range(lo, hi + 1, f) == f(lo) + sum_range(lo + 1, hi + 1, f));
        assert(sum_range(lo + 1, hi + 1, f) == 0);
    }
}

/// A sum of pointwise-equal terms is the same sum.
pub proof fn lemma_sum_range_eq(lo: int, hi: int, f: spec_fn(int) -> int, g: spec_fn(int) -> int)
    requires
        forall|i: int| lo <= i < hi ==> #[trigger] f(i) == g(i),
    ensures
        sum_range(lo, hi, f) == sum_range(lo, hi, g),
    decreases hi - lo,
{
    if lo < hi {
        lemma_sum_range_eq(lo + 1, hi, f, g);
    }
}

/// A sum of non-negative terms is non-negative.
pub proof fn lemma_sum_range_nonneg(lo: int, hi: int, f: spec_fn(int) -> int)
    requires
        forall|i: int| lo <= i < hi ==> #[trigger] f(i) >= 0,
    ensures
        sum_range(lo, hi, f) >= 0,
    decreases hi - lo,
{
    if lo < hi {
        lemma_sum_range_nonneg(lo + 1, hi, f);
    }
}

/// A sum of zero terms is zero.
pub proof fn lemma_sum_range_zero(lo: int, hi: int, f: spec_fn(int) -> int)
    requires
        forall|i: int| lo <= i < hi ==> #[trigger] f(i) == 0,
    ensures
        sum_range(lo, hi, f) == 0,
    decreases hi - lo,
{
    if lo < hi {
        lemma_sum_range_zero(lo + 1, hi, f);
    }
}

/// A sum of terms each at most `c` is at most `c` per term.
pub proof fn lemma_sum_range_bound(lo: int, hi: int, f: spec_fn(int) -> int, c: int)
    requires
        lo <= hi,
        forall|i: int| lo <= i < hi ==> #[trigger] f(i) <= c,
    ensures
        sum_range(lo, hi, f) <= c * (hi - lo),
    decreases hi - lo,
{
    if lo < hi {
        lemma_sum_range_bound(lo + 1, hi, f, c);
        assert(f(lo) <= c);
        assert(c * (hi - lo) == c + c * (hi - lo - 1)) by (nonlinear_arith);
    } else {
        assert(c * (hi - lo) == 0) by (nonlinear_arith)
            requires
                hi - lo == 0,
        ;
    }
}

/// A sum of non-negative terms is at least any single term.
pub proof fn lemma_sum_range_ge_term(lo: int, hi: int, f: spec_fn(int) -> int, k: int)
    requires
        lo <= k < hi,
        forall|i: int| lo <= i < hi ==> #[trigger] f(i) >= 0,
    ensures
        sum_range(lo, hi, f) >= f(k),
    decreases hi - lo,
{
    if lo < k {
        lemma_sum_range_ge_term(lo + 1, hi, f, k);
    } else {
        lemma_sum_range_nonneg(lo + 1, hi, f);
    }
}


/// A sum splits at any point of its range.
pub proof fn lemma_sum_range_split(lo: int, mid: int, hi: int, f: spec_fn(int) -> int)
    requires
        lo <= mid <= hi,
    ensures
        sum_range(lo, hi, f) == sum_range(lo, mid, f) + sum_range(mid, hi, f),
    decreases mid - lo,
{
    if lo < mid {
        lemma_sum_range_split(lo + 1, mid, hi, f);
    }
}

/// Sums of pointwise sums add up: where each `f` term is the matching `g`
/// term plus the matching `h` term, the sums relate the same way.
pub proof fn lemma_sum_range_pointwise_add(
    lo: int,
    hi: int,
    f: spec_fn(int) -> int,
    g: spec_fn(int) -> int,
    h: spec_fn(int) -> int,
)
    requires
        forall|i: int| lo <= i < hi ==> #[trigger] f(i) == g(i) + h(i),
    ensures
        sum_range(lo, hi, f) == sum_range(lo, hi, g) + sum_range(lo, hi, h),
    decreases hi - lo,
{
    if lo < hi {
        lemma_sum_range_pointwise_add(lo + 1, hi, f, g, h);
    }
}

/// Exchanging two terms does not change a sum: where `g` is `f` with the
/// values at `t` and `u` transposed, the sums agree.
pub proof fn lemma_sum_range_transpose(
    lo: int,
    hi: int,
    f: spec_fn(int) -> int,
    g: spec_fn(int) -> int,
    t: int,
    u: int,
)
    requires
        lo <= t < u < hi,
        f(t) == g(u),
        f(u) == g(t),
        forall|i: int| lo <= i < hi && i != t && i != u ==> #[trigger] f(i) == g(i),
    ensures
        sum_range(lo, hi, f) == sum_range(lo, hi, g),
{
    lemma_sum_range_split(lo, t, hi, f);
    lemma_sum_range_split(lo, t, hi, g);
    lemma_sum_range_eq(lo, t, f, g);
    assert(sum_range(t, hi, f) == f(t) + sum_range(t + 1, hi, f));
    assert(sum_range(t, hi, g) == g(t) + sum_range(t + 1, hi, g));
    lemma_sum_range_split(t + 1, u, hi, f);
    lemma_sum_range_split(t + 1, u, hi, g);
    lemma_sum_range_eq(t + 1, u, f, g);
    assert(sum_range(u, hi, f) == f(u) + sum_range(u + 1, hi, f));
    assert(sum_range(u, hi, g) == g(u) + sum_range(u + 1, hi, g));
    lemma_sum_range_eq(u + 1, hi, f, g);
}

/// A sum of odd terms has the parity of its term count.
pub proof fn lemma_sum_range_parity(lo: int, hi: int, f: spec_fn(int) -> int)
    requires
        lo <= hi,
        forall|i: int| lo <= i < hi ==> #[trigger] f(i) % 2 == 1,
    ensures
        sum_range(lo, hi, f) % 2 == (hi - lo) % 2,
    decreases hi - lo,
{
    if lo < hi {
        lemma_sum_range_parity(lo + 1, hi, f);
        let rest = sum_range(lo + 1, hi, f);
        vstd::arithmetic::div_mod::lemma_add_mod_noop(f(lo), rest, 2);
        vstd::arithmetic::div_mod::lemma_add_mod_noop(1, hi - lo - 1, 2);
    }
}
} // verus!
