//! Finite sums over integer index ranges, and the facts about them that the
//! graph proofs rest on.

use vstd::prelude::*;

verus! {

/// The sum `f(0) + f(1) + ... + f(n - 1)`.
pub open spec fn total(n: int, f: spec_fn(int) -> int) -> int
    decreases n,
{
    if n <= 0 {
        0
    } else {
        total(n - 1, f) + f(n - 1)
    }
}

/// The absolute value of an integer.
pub open spec fn magnitude(x: int) -> int {
    if x < 0 {
        -x
    } else {
        x
    }
}

/// Sums of pointwise equal functions are equal.
pub proof fn lemma_total_ext(n: int, f: spec_fn(int) -> int, g: spec_fn(int) -> int)
    requires
        forall|i: int| 0 <= i < n ==> #[trigger] f(i) == g(i),
    ensures
        total(n, f) == total(n, g),
    decreases n,
{
    if n > 0 {
        lemma_total_ext(n - 1, f, g);
        assert(f(n - 1) == g(n - 1));
    }
}

/// The sum of a pointwise sum is the sum of the sums.
pub proof fn lemma_total_plus(
    n: int,
    f: spec_fn(int) -> int,
    g: spec_fn(int) -> int,
    h: spec_fn(int) -> int,
)
    requires
        forall|i: int| 0 <= i < n ==> #[trigger] h(i) == f(i) + g(i),
    ensures
        total(n, h) == total(n, f) + total(n, g),
    decreases n,
{
    if n > 0 {
        lemma_total_plus(n - 1, f, g, h);
        assert(h(n - 1) == f(n - 1) + g(n - 1));
    }
}

/// The sum of a function that is zero on the whole range is zero.
pub proof fn lemma_total_zero(n: int, f: spec_fn(int) -> int)
    requires
        forall|i: int| 0 <= i < n ==> #[trigger] f(i) == 0,
    ensures
        total(n, f) == 0,
    decreases n,
{
    if n > 0 {
        lemma_total_zero(n - 1, f);
        assert(f(n - 1) == 0);
    }
}

/// A function that is zero everywhere but at `a` sums to its value at `a`.
pub proof fn lemma_total_point(n: int, a: int, f: spec_fn(int) -> int)
    requires
        0 <= a < n,
        forall|i: int| 0 <= i < n && i != a ==> #[trigger] f(i) == 0,
    ensures
        total(n, f) == f(a),
    decreases n,
{
    if a == n - 1 {
        lemma_total_zero(n - 1, f);
    } else {
        lemma_total_point(n - 1, a, f);
        assert(f(n - 1) == 0);
    }
}

/// Functions that agree everywhere but at `a` have sums that differ by the
/// difference of their values at `a`.
pub proof fn lemma_total_change(
    n: int,
    a: int,
    f: spec_fn(int) -> int,
    g: spec_fn(int) -> int,
)
    requires
        0 <= a < n,
        forall|i: int| 0 <= i < n && i != a ==> #[trigger] f(i) == g(i),
    ensures
        total(n, g) == total(n, f) - f(a) + g(a),
    decreases n,
{
    if a == n - 1 {
        lemma_total_ext(n - 1, f, g);
    } else {
        lemma_total_change(n - 1, a, f, g);
        assert(f(n - 1) == g(n - 1));
    }
}

/// A pointwise inequality carries over to the sums.
pub proof fn lemma_total_mono(n: int, f: spec_fn(int) -> int, g: spec_fn(int) -> int)
    requires
        forall|i: int| 0 <= i < n ==> #[trigger] f(i) <= g(i),
    ensures
        total(n, f) <= total(n, g),
    decreases n,
{
    if n > 0 {
        lemma_total_mono(n - 1, f, g);
        assert(f(n - 1) <= g(n - 1));
    }
}

/// A sum of nonnegative terms is nonnegative, is at least each of its terms
/// and grows with the range.
pub proof fn lemma_total_nonneg(n: int, f: spec_fn(int) -> int)
    requires
        forall|i: int| 0 <= i < n ==> #[trigger] f(i) >= 0,
    ensures
        total(n, f) >= 0,
        forall|i: int| 0 <= i < n ==> #[trigger] f(i) <= total(n, f),
        forall|m: int| 0 <= m <= n ==> #[trigger] total(m, f) <= total(n, f),
    decreases n,
{
    if n > 0 {
        lemma_total_nonneg(n - 1, f);
        assert(f(n - 1) >= 0);
        assert forall|i: int| 0 <= i < n implies #[trigger] f(i) <= total(n, f) by {
            if i < n - 1 {
                assert(f(i) <= total(n - 1, f));
            }
        }
        assert forall|m: int| 0 <= m <= n implies #[trigger] total(m, f) <= total(n, f) by {
            if m < n {
                assert(total(m, f) <= total(n - 1, f));
            }
        }
    }
}

/// The absolute value of a sum is at most the sum of bounds on the absolute
/// values.
pub proof fn lemma_total_magnitude(n: int, f: spec_fn(int) -> int, g: spec_fn(int) -> int)
    requires
        forall|i: int| 0 <= i < n ==> magnitude(#[trigger] f(i)) <= g(i),
    ensures
        magnitude(total(n, f)) <= total(n, g),
    decreases n,
{
    if n > 0 {
        lemma_total_magnitude(n - 1, f, g);
        assert(magnitude(f(n - 1)) <= g(n - 1));
    }
}

/// Swapping the order of a double sum does not change it.
pub proof fn lemma_total_exchange(n: int, m: int, f: spec_fn(int, int) -> int)
    ensures
        total(n, |i: int| total(m, |j: int| f(i, j))) == total(
            m,
            |j: int| total(n, |i: int| f(i, j)),
        ),
    decreases n,
{
    let rows = |i: int| total(m, |j: int| f(i, j));
    let cols = |j: int| total(n, |i: int| f(i, j));
    if n <= 0 {
        lemma_total_zero(m, cols);
    } else {
        lemma_total_exchange(n - 1, m, f);
        let cols_before = |j: int| total(n - 1, |i: int| f(i, j));
        let last = |j: int| f(n - 1, j);
        assert forall|j: int| 0 <= j < m implies #[trigger] cols(j) == cols_before(j) + last(j) by {
            let g = |i: int| f(i, j);
            assert(total(n, g) == total(n - 1, g) + g(n - 1));
        }
        lemma_total_plus(m, cols_before, last, cols);
        assert(rows(n - 1) == total(m, last));
    }
}

} // verus!
