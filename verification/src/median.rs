//! The median of a list of doubles, and the split of the list at it.

use crate::double::Double;
use crate::total::{lemma_total_exchange, lemma_total_ext, lemma_total_point, total};
use vstd::prelude::*;
use vstd::slice::slice_to_vec;

verus! {

/// The bits of 2.
pub const BITS_OF_TWO: u64 = 0x4000_0000_0000_0000;

/// The list `after` is the list `before` in ascending order; `perm` says where
/// each element was. Equal numbers keep their order.
pub open spec fn is_sorting(before: Seq<Double>, after: Seq<Double>, perm: Seq<int>) -> bool {
    &&& after.len() == before.len()
    &&& perm.len() == before.len()
    &&& forall|i: int|
        0 <= i < perm.len() ==> 0 <= #[trigger] perm[i] < before.len() && after[i]
            == before[perm[i]]
    &&& forall|j: int| 0 <= j < before.len() ==> #[trigger] perm.contains(j)
    &&& forall|i: int, j: int|
        0 <= i < j < perm.len() ==> #[trigger] perm[i] != #[trigger] perm[j] && (
        after[i].place() < after[j].place() || (after[i].place() == after[j].place() && perm[i]
            < perm[j]))
}

/// `sort_by_key` of `std`'s slices, by the places of the numbers: a stable
/// sort into ascending order.
#[verifier::external_body]
fn sort_by_place(values: &mut Vec<Double>)
    ensures
        exists|perm: Seq<int>| is_sorting(old(values)@, final(values)@, perm),
{
    values.sort_by_key(|d| d.to_place());
}

/// The list has a median: it is not empty, and each of several elements is a
/// number.
pub open spec fn has_median(values: Seq<Double>) -> bool {
    &&& values.len() > 0
    &&& values.len() > 1 ==> forall|i: int| 0 <= i < values.len() ==> !(#[trigger] values[i]).nan()
}

/// The average of two numbers may come out as `average`: their sum divided by
/// two.
pub open spec fn averages<P: Fn(Double, Double) -> Double, O: Fn(Double, Double) -> Double>(
    plus: P,
    over: O,
    a: Double,
    b: Double,
    average: Double,
) -> bool {
    exists|sum: Double| #[trigger]
        call_ensures(plus, (a, b), sum) && call_ensures(
            over,
            (sum, Double { bits: BITS_OF_TWO }),
            average,
        )
}

/// The median may come out as `median`: of an odd number of elements it is the
/// one in the middle when they are sorted, and of an even number the average
/// of the two in the middle.
pub open spec fn is_median<P: Fn(Double, Double) -> Double, O: Fn(Double, Double) -> Double>(
    plus: P,
    over: O,
    values: Seq<Double>,
    median: Double,
) -> bool {
    exists|sorted: Seq<Double>, perm: Seq<int>| #[trigger]
        is_sorting(values, sorted, perm) && (if values.len() % 2 == 0 {
            averages(
                plus,
                over,
                sorted[values.len() / 2 - 1],
                sorted[values.len() as int / 2],
                median,
            )
        } else {
            median == sorted[values.len() as int / 2]
        })
}

/// Finds the median of a list, if it has one.
pub fn find_median<P: Fn(Double, Double) -> Double, O: Fn(Double, Double) -> Double>(
    values: &[Double],
    plus: P,
    over: O,
) -> (result: Option<Double>)
    requires
        forall|a: Double, b: Double| call_requires(plus, (a, b)),
        forall|a: Double, b: Double| call_requires(over, (a, b)),
    ensures
        result is Some <==> has_median(values@),
        result matches Some(median) ==> is_median(plus, over, values@, median),
{
    let n: usize = values.len();
    if n == 0 {
        return None;
    }
    let mut i: usize = 0;
    while n > 1 && i < n
        invariant
            n == values@.len(),
            n > 0,
            i <= n,
            forall|j: int| 0 <= j < i ==> !(#[trigger] values@[j]).nan(),
        decreases n - i,
    {
        if values[i].is_nan() {
            return None;
        }
        i += 1;
    }
    let mut sorted: Vec<Double> = slice_to_vec(values);
    sort_by_place(&mut sorted);
    let ghost perm = choose|perm: Seq<int>| is_sorting(values@, sorted@, perm);
    assert(is_sorting(values@, sorted@, perm));
    if n % 2 == 0 {
        let sum: Double = plus(sorted[n / 2 - 1], sorted[n / 2]);
        let average: Double = over(sum, Double { bits: BITS_OF_TWO });
        assert(averages(plus, over, sorted@[n / 2 - 1], sorted@[n as int / 2], average));
        Some(average)
    } else {
        Some(sorted[n / 2])
    }
}

/// One for each of the elements below the median.
pub open spec fn below_term(values: Seq<Double>, median: Double) -> spec_fn(int) -> int {
    |i: int|
        if values[i].lt(median) {
            1
        } else {
            0
        }
}

/// One for each of the elements above the median.
pub open spec fn above_term(values: Seq<Double>, median: Double) -> spec_fn(int) -> int {
    |i: int|
        if median.lt(values[i]) {
            1
        } else {
            0
        }
}

/// One for each of the elements neither below nor above the median.
pub open spec fn level_term(values: Seq<Double>, median: Double) -> spec_fn(int) -> int {
    |i: int|
        if values[i].lt(median) || median.lt(values[i]) {
            0
        } else {
            1
        }
}

/// The number of the first `k` elements that are below the median.
pub open spec fn below(values: Seq<Double>, median: Double, k: int) -> int {
    total(k, below_term(values, median))
}

/// The number of the first `k` elements that are above the median.
pub open spec fn above(values: Seq<Double>, median: Double, k: int) -> int {
    total(k, above_term(values, median))
}

/// The number of the first `k` elements that are neither below nor above the
/// median.
pub open spec fn level(values: Seq<Double>, median: Double, k: int) -> int {
    total(k, level_term(values, median))
}

/// Half of a number, rounded up.
pub open spec fn half_up(n: int) -> int {
    n / 2 + n % 2
}

/// How many of the elements at the median go with those below it: as many as
/// it takes to fill up half of all elements.
pub open spec fn quota(values: Seq<Double>, median: Double) -> int {
    let n = values.len() as int;
    let missing = half_up(n) - below(values, median, n);
    if missing <= 0 {
        0
    } else if missing <= level(values, median, n) {
        missing
    } else {
        level(values, median, n)
    }
}

/// The side of an element: 1 below the median, 0 above it, and at it 1 for the
/// first ones and 0 for the others.
pub open spec fn side(values: Seq<Double>, median: Double, i: int) -> usize {
    if values[i].lt(median) {
        1
    } else if median.lt(values[i]) {
        0
    } else if level(values, median, i) < quota(values, median) {
        1
    } else {
        0
    }
}

/// The partition after the first elements have been put on their sides.
pub open spec fn split(values: Seq<Double>, median: Double, part: Seq<usize>) -> Seq<usize> {
    Seq::new(
        part.len(),
        |i: int|
            if i < values.len() {
                side(values, median, i)
            } else {
                part[i]
            },
    )
}

/// Every element is below the median, above it or level with it.
pub proof fn lemma_counts(values: Seq<Double>, median: Double, k: int)
    requires
        k >= 0,
    ensures
        0 <= below(values, median, k),
        0 <= above(values, median, k),
        0 <= level(values, median, k),
        below(values, median, k) + above(values, median, k) + level(values, median, k) == k,
    decreases k,
{
    if k > 0 {
        lemma_counts(values, median, k - 1);
    }
}

/// Puts the elements of a list on the sides of its median.
fn split_at(values: &[Double], median: Double, partition: &mut [usize])
    requires
        values@.len() <= old(partition)@.len(),
    ensures
        final(partition)@ == split(values@, median, old(partition)@),
{
    let n: usize = values.len();
    let mut smaller: usize = 0;
    let mut equal: usize = 0;
    let mut i: usize = 0;
    while i < n
        invariant
            n == values@.len(),
            i <= n,
            smaller == below(values@, median, i as int),
            equal == level(values@, median, i as int),
        decreases n - i,
    {
        proof {
            lemma_counts(values@, median, i as int);
            lemma_counts(values@, median, i + 1);
        }
        if values[i].less(&median) {
            smaller += 1;
        } else if !median.less(&values[i]) {
            equal += 1;
        }
        i += 1;
    }
    let half: usize = n / 2 + n % 2;
    let missing: usize = if half > smaller {
        half - smaller
    } else {
        0
    };
    let chosen: usize = if missing <= equal {
        missing
    } else {
        equal
    };
    assert(chosen == quota(values@, median)) by {
        lemma_counts(values@, median, n as int);
    }
    let ghost before = partition@;
    let mut seen: usize = 0;
    let mut k: usize = 0;
    while k < n
        invariant
            n == values@.len(),
            n <= before.len(),
            partition@.len() == before.len(),
            k <= n,
            chosen == quota(values@, median),
            seen == level(values@, median, k as int),
            forall|j: int| 0 <= j < k ==> #[trigger] partition@[j] == side(values@, median, j),
            forall|j: int| k <= j < before.len() ==> #[trigger] partition@[j] == before[j],
        decreases n - k,
    {
        proof {
            lemma_counts(values@, median, k as int);
            lemma_counts(values@, median, k + 1);
        }
        if values[k].less(&median) {
            partition[k] = 1;
        } else if median.less(&values[k]) {
            partition[k] = 0;
        } else {
            partition[k] = if seen < chosen {
                1
            } else {
                0
            };
            seen += 1;
        }
        k += 1;
    }
    assert(partition@ =~= split(values@, median, before));
}

/// Splits the vertices into two parts at the median of their projections.
/// Nothing happens and the result is false if there is no median.
pub fn perform_partition<P: Fn(Double, Double) -> Double, O: Fn(Double, Double) -> Double>(
    values: &[Double],
    plus: P,
    over: O,
    partition: &mut [usize],
) -> (done: bool)
    requires
        values@.len() <= old(partition)@.len(),
        forall|a: Double, b: Double| call_requires(plus, (a, b)),
        forall|a: Double, b: Double| call_requires(over, (a, b)),
    ensures
        done == has_median(values@),
        done ==> exists|median: Double| #[trigger]
            is_median(plus, over, values@, median) && final(partition)@ == split(
                values@,
                median,
                old(partition)@,
            ),
        !done ==> final(partition)@ == old(partition)@,
{
    match find_median(values, plus, over) {
        Some(median) => {
            split_at(values, median, partition);
            true
        },
        None => false,
    }
}

/// One for each element on side 1.
pub open spec fn side_term(values: Seq<Double>, median: Double) -> spec_fn(int) -> int {
    |i: int| side(values, median, i) as int
}

/// The number of elements on side 1 among the first `k`.
pub proof fn lemma_sides(values: Seq<Double>, median: Double, k: int)
    requires
        k >= 0,
    ensures
        total(k, side_term(values, median)) == below(values, median, k) + if level(
            values,
            median,
            k,
        ) < quota(values, median) {
            level(values, median, k)
        } else {
            quota(values, median)
        },
    decreases k,
{
    lemma_counts(values, median, k);
    lemma_counts(values, median, values.len() as int);
    if k > 0 {
        lemma_sides(values, median, k - 1);
        lemma_counts(values, median, k - 1);
    }
}

/// The split is as even as it can be: if no more than half of the elements are
/// below the median and no more than half above it, then half of all elements,
/// rounded up, are on side 1.
pub proof fn law_split_is_even(values: Seq<Double>, median: Double)
    requires
        below(values, median, values.len() as int) <= half_up(values.len() as int),
        above(values, median, values.len() as int) <= values.len() / 2,
    ensures
        total(values.len() as int, side_term(values, median)) == half_up(values.len() as int),
{
    lemma_counts(values, median, values.len() as int);
    lemma_sides(values, median, values.len() as int);
}

proof fn lemma_sum_over_sorted(
    before: Seq<Double>,
    after: Seq<Double>,
    perm: Seq<int>,
    f: spec_fn(int) -> int,
    g: spec_fn(int) -> int,
)
    requires
        is_sorting(before, after, perm),
        forall|i: int| 0 <= i < after.len() ==> #[trigger] g(i) == f(perm[i]),
    ensures
        total(before.len() as int, f) == total(after.len() as int, g),
{
    let n = before.len() as int;
    let cell = |i: int, j: int|
        if perm[i] == j {
            f(j)
        } else {
            0
        };
    lemma_total_exchange(n, n, cell);
    let by_sorted = |i: int| total(n, |j: int| cell(i, j));
    let by_place = |j: int| total(n, |i: int| cell(i, j));
    assert forall|i: int| 0 <= i < n implies #[trigger] by_sorted(i) == g(i) by {
        assert(0 <= perm[i] < n);
        lemma_total_point(n, perm[i], |j: int| cell(i, j));
        assert(g(i) == f(perm[i]));
    }
    lemma_total_ext(n, by_sorted, g);
    assert forall|j: int| 0 <= j < n implies #[trigger] by_place(j) == f(j) by {
        assert(perm.contains(j));
        let i = choose|i: int| 0 <= i < perm.len() && perm[i] == j;
        assert forall|k: int| 0 <= k < n && k != i implies perm[k] != j by {
            if k < i {
                assert(perm[k] != perm[i]);
            } else {
                assert(perm[i] != perm[k]);
            }
        }
        lemma_total_point(n, i, |k: int| cell(k, j));
    }
    lemma_total_ext(n, by_place, f);
}

proof fn lemma_total_range(n: int, lo: int, hi: int, f: spec_fn(int) -> int)
    requires
        0 <= lo <= hi <= n,
        forall|i: int| 0 <= i < n ==> 0 <= #[trigger] f(i) <= 1,
        forall|i: int| 0 <= i < n && !(lo <= i < hi) ==> #[trigger] f(i) == 0,
    ensures
        total(n, f) <= hi - lo,
    decreases n,
{
    if n > 0 {
        assert(0 <= f(n - 1) <= 1);
        if hi == n && lo < hi {
            lemma_total_range(n - 1, lo, hi - 1, f);
        } else if hi == n {
            lemma_total_range(n - 1, lo - 1, hi - 1, f);
        } else {
            assert(f(n - 1) == 0);
            lemma_total_range(n - 1, lo, hi, f);
        }
    }
}

/// Any number between the two middle elements of a sorted list, or the one in
/// the middle of an odd number of elements, has at most half of the elements
/// below it and at most half above it. So half of all elements, rounded up, are
/// on side 1 of the split at it.
pub proof fn law_middle_splits_evenly(
    values: Seq<Double>,
    sorted: Seq<Double>,
    perm: Seq<int>,
    median: Double,
)
    requires
        is_sorting(values, sorted, perm),
        has_median(values),
        values.len() % 2 == 0 ==> sorted[values.len() / 2 - 1].place() <= median.place()
            <= sorted[values.len() as int / 2].place(),
        values.len() % 2 == 1 ==> median == sorted[values.len() as int / 2],
    ensures
        below(values, median, values.len() as int) <= values.len() / 2,
        above(values, median, values.len() as int) <= values.len() / 2,
        total(values.len() as int, side_term(values, median)) == half_up(values.len() as int),
{
    let n = values.len() as int;
    let f = below_term(values, median);
    let g = below_term(sorted, median);
    lemma_sum_over_sorted(values, sorted, perm, f, g);
    let p = above_term(values, median);
    let q = above_term(sorted, median);
    lemma_sum_over_sorted(values, sorted, perm, p, q);
    let m = n / 2;
    assert forall|i: int, j: int| 0 <= i < j < n implies (#[trigger] sorted[i]).place() <= (
    #[trigger] sorted[j]).place() by {
        assert(perm[i] != perm[j]);
    }
    assert forall|i: int| 0 <= i < n && !(0 <= i < m) implies #[trigger] g(i) == 0 by {
        assert(sorted[m].place() <= sorted[i].place());
    }
    lemma_total_range(n, 0, m, g);
    let hi = if n % 2 == 0 {
        m
    } else {
        m + 1
    };
    assert forall|i: int| 0 <= i < n && !(hi <= i < n) implies #[trigger] q(i) == 0 by {
        assert(sorted[i].place() <= sorted[hi - 1].place());
    }
    lemma_total_range(n, hi, n, q);
    law_split_is_even(values, median);
}

/// A single number is its own median, whatever it is. Of more numbers there is a
/// median if and only if all of them are numbers, and of none there is none.
pub proof fn law_median_needs_numbers(values: Seq<Double>)
    ensures
        values.len() == 0 ==> !has_median(values),
        values.len() == 1 ==> has_median(values),
        values.len() >= 2 ==> (has_median(values) <==> !exists|i: int|
            0 <= i < values.len() && (#[trigger] values[i]).nan()),
{
}

/// The number of elements that compare below `x`.
pub open spec fn smaller_ones(values: Seq<Double>, x: Double) -> int {
    total(
        values.len() as int,
        |i: int|
            if values[i].lt(x) {
                1
            } else {
                0
            },
    )
}

/// The number of elements that compare above `x`.
pub open spec fn greater_ones(values: Seq<Double>, x: Double) -> int {
    total(
        values.len() as int,
        |i: int|
            if x.lt(values[i]) {
                1
            } else {
                0
            },
    )
}

/// The element is `x`, at most `low` elements are smaller and at most `high` are
/// greater.
pub open spec fn stands_at(values: Seq<Double>, i: int, x: Double, low: int, high: int) -> bool {
    &&& 0 <= i < values.len()
    &&& values[i] == x
    &&& smaller_ones(values, x) <= low
    &&& greater_ones(values, x) <= high
}

proof fn lemma_stands_at(values: Seq<Double>, sorted: Seq<Double>, perm: Seq<int>, k: int)
    requires
        is_sorting(values, sorted, perm),
        0 <= k < values.len(),
    ensures
        stands_at(values, perm[k], sorted[k], k, values.len() - 1 - k),
{
    let n = values.len() as int;
    let x = sorted[k];
    let f = |i: int|
        if values[i].lt(x) {
            1
        } else {
            0int
        };
    let g = |i: int|
        if sorted[i].lt(x) {
            1
        } else {
            0int
        };
    let p = |i: int|
        if x.lt(values[i]) {
            1
        } else {
            0int
        };
    let q = |i: int|
        if x.lt(sorted[i]) {
            1
        } else {
            0int
        };
    lemma_sum_over_sorted(values, sorted, perm, f, g);
    lemma_sum_over_sorted(values, sorted, perm, p, q);
    assert forall|i: int, j: int| 0 <= i < j < n implies (#[trigger] sorted[i]).place() <= (
    #[trigger] sorted[j]).place() by {
        assert(perm[i] != perm[j]);
    }
    assert forall|i: int| 0 <= i < n && !(0 <= i < k) implies #[trigger] g(i) == 0 by {
        assert(i == k || sorted[k].place() <= sorted[i].place());
    }
    lemma_total_range(n, 0, k, g);
    assert forall|i: int| 0 <= i < n && !(k + 1 <= i < n) implies #[trigger] q(i) == 0 by {
        assert(i == k || sorted[i].place() <= sorted[k].place());
    }
    lemma_total_range(n, k + 1, n, q);
}

/// The median is the element in the middle: less than half of the elements are
/// smaller and less than half are greater. Of an even number of elements it is the
/// average of the two in the middle: their sum, divided by two.
pub proof fn law_median_is_in_the_middle<
    P: Fn(Double, Double) -> Double,
    O: Fn(Double, Double) -> Double,
>(plus: P, over: O, values: Seq<Double>, median: Double)
    requires
        values.len() > 0,
        is_median(plus, over, values, median),
    ensures
        values.len() % 2 == 1 ==> exists|i: int| #[trigger]
            stands_at(values, i, median, values.len() as int / 2, values.len() as int / 2),
        values.len() % 2 == 0 ==> exists|i: int, j: int, a: Double, b: Double, sum: Double|
            {
                &&& i != j
                &&& #[trigger] stands_at(
                    values,
                    i,
                    a,
                    values.len() / 2 - 1,
                    values.len() as int / 2,
                )
                &&& #[trigger] stands_at(
                    values,
                    j,
                    b,
                    values.len() as int / 2,
                    values.len() / 2 - 1,
                )
                &&& #[trigger] call_ensures(plus, (a, b), sum)
                &&& call_ensures(over, (sum, Double { bits: 0x4000_0000_0000_0000 }), median)
            },
{
    let (sorted, perm) = choose|sorted: Seq<Double>, perm: Seq<int>| #[trigger]
        is_sorting(values, sorted, perm) && (if values.len() % 2 == 0 {
            averages(
                plus,
                over,
                sorted[values.len() / 2 - 1],
                sorted[values.len() as int / 2],
                median,
            )
        } else {
            median == sorted[values.len() as int / 2]
        });
    let k = values.len() as int / 2;
    lemma_stands_at(values, sorted, perm, k);
    if values.len() % 2 == 0 {
        lemma_stands_at(values, sorted, perm, k - 1);
        let sum = choose|sum: Double| #[trigger]
            call_ensures(plus, (sorted[k - 1], sorted[k]), sum) && call_ensures(
                over,
                (sum, Double { bits: BITS_OF_TWO }),
                median,
            );
        assert(call_ensures(plus, (sorted[k - 1], sorted[k]), sum));
        assert(perm[k - 1] != perm[k]);
    }
}

} // verus!
