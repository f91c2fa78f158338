//! What separating by circles does: the split at the median, and the best of all
//! circles.

use crate::double::Double;
use crate::geometric::{
    all_have_medians, best_of, bests, first_smallest, is_quality, law_first_smallest, plays,
    projections, separated, smallest, zeros, Trial,
};
use crate::median::{
    averages, half_up, has_median, is_median, is_sorting, law_middle_splits_evenly,
    law_split_is_even, lemma_counts, lemma_sides, side_term, split,
};
use crate::topology::{cut, Adjacency};
use crate::total::{lemma_total_ext, lemma_total_nonneg, total};
use vstd::prelude::*;

verus! {

/// The operation gives one result for the same numbers.
pub open spec fn settled<P: Fn(Double, Double) -> Double>(op: P) -> bool {
    forall|a: Double, b: Double, x: Double, y: Double| #[trigger]
        call_ensures(op, (a, b), x) && #[trigger] call_ensures(op, (a, b), y) ==> x == y
}

/// There is only one way to sort a list: its elements by their places among all
/// numbers, equal ones in the order that they had.
pub proof fn law_sorting_is_unique(
    before: Seq<Double>,
    one: Seq<Double>,
    first: Seq<int>,
    other: Seq<Double>,
    second: Seq<int>,
)
    requires
        is_sorting(before, one, first),
        is_sorting(before, other, second),
    ensures
        one == other,
{
    assert forall|i: int| 0 <= i < before.len() implies #[trigger] first[i] == second[i] by {
        lemma_sorting_agrees(before, one, first, other, second, i);
    }
    assert forall|i: int| 0 <= i < before.len() implies #[trigger] one[i] == other[i] by {
        assert(first[i] == second[i]);
    }
    assert(one =~= other);
}

proof fn lemma_sorting_agrees(
    before: Seq<Double>,
    one: Seq<Double>,
    first: Seq<int>,
    other: Seq<Double>,
    second: Seq<int>,
    i: int,
)
    requires
        is_sorting(before, one, first),
        is_sorting(before, other, second),
        0 <= i < before.len(),
    ensures
        first[i] == second[i],
    decreases i,
{
    assert forall|j: int| 0 <= j < i implies #[trigger] first[j] == second[j] by {
        lemma_sorting_agrees(before, one, first, other, second, j);
    }
    let a = first[i];
    let b = second[i];
    if a != b {
        assert(second.contains(a));
        let m = choose|m: int| 0 <= m < second.len() && second[m] == a;
        if m < i {
            assert(first[m] == second[m]);
            assert(first[m] != first[i]);
        }
        assert(first.contains(b));
        let k = choose|k: int| 0 <= k < first.len() && first[k] == b;
        if k < i {
            assert(first[k] == second[k]);
            assert(second[k] != second[i]);
        }
        assert(second[i] != second[m]);
        assert(first[i] != first[k]);
    }
}

/// A list has only one median, as long as adding and dividing give one result
/// for the same numbers.
pub proof fn law_median_is_unique<P: Fn(Double, Double) -> Double, O: Fn(Double, Double) -> Double>(
    plus: P,
    over: O,
    values: Seq<Double>,
    one: Double,
    other: Double,
)
    requires
        settled(plus),
        settled(over),
        is_median(plus, over, values, one),
        is_median(plus, over, values, other),
    ensures
        one == other,
{
    let (sorted, perm) = choose|sorted: Seq<Double>, perm: Seq<int>| #[trigger]
        is_sorting(values, sorted, perm) && (if values.len() % 2 == 0 {
            averages(
                plus,
                over,
                sorted[values.len() / 2 - 1],
                sorted[values.len() as int / 2],
                one,
            )
        } else {
            one == sorted[values.len() as int / 2]
        });
    let (again, place) = choose|sorted: Seq<Double>, perm: Seq<int>| #[trigger]
        is_sorting(values, sorted, perm) && (if values.len() % 2 == 0 {
            averages(
                plus,
                over,
                sorted[values.len() / 2 - 1],
                sorted[values.len() as int / 2],
                other,
            )
        } else {
            other == sorted[values.len() as int / 2]
        });
    law_sorting_is_unique(values, sorted, perm, again, place);
}

/// What a split does. Elements below the median are put on side 1 and elements
/// above it on side 0; of those at the median the first ones are put on side 1.
/// If no more than half of all elements are below the median and no more than
/// half above it, exactly half of them, rounded up, end on side 1. What is beyond
/// the elements stays as it was.
pub proof fn law_split_separates(values: Seq<Double>, median: Double, part: Seq<usize>)
    requires
        values.len() <= part.len(),
    ensures
        split(values, median, part).len() == part.len(),
        forall|i: int|
            values.len() <= i < part.len() ==> #[trigger] split(values, median, part)[i] == part[i],
        forall|i: int|
            0 <= i < values.len() ==> #[trigger] split(values, median, part)[i] <= 1 && (
            values[i].lt(median) ==> split(values, median, part)[i] == 1) && (median.lt(values[i])
                ==> split(values, median, part)[i] == 0),
        forall|i: int, j: int|
            0 <= i < j < values.len() && !values[i].lt(median) && !median.lt(values[i])
                && !values[j].lt(median) && !median.lt(values[j]) ==> #[trigger] split(
                values,
                median,
                part,
            )[i] >= #[trigger] split(values, median, part)[j],
        total(
            values.len() as int,
            |i: int|
                if values[i].lt(median) {
                    1int
                } else {
                    0
                },
        ) <= (values.len() + 1) / 2 && total(
            values.len() as int,
            |i: int|
                if median.lt(values[i]) {
                    1int
                } else {
                    0
                },
        ) <= values.len() / 2 ==> total(
            values.len() as int,
            |i: int| split(values, median, part)[i] as int,
        ) == (values.len() + 1) / 2,
{
    let after = split(values, median, part);
    let n = values.len() as int;
    let smaller = |i: int|
        if values[i].lt(median) {
            1int
        } else {
            0
        };
    let greater = |i: int|
        if median.lt(values[i]) {
            1int
        } else {
            0
        };
    let ones = |i: int| after[i] as int;
    lemma_total_ext(n, smaller, crate::median::below_term(values, median));
    lemma_total_ext(n, greater, crate::median::above_term(values, median));
    lemma_total_ext(n, ones, side_term(values, median));
    assert(half_up(n) == (n + 1) / 2);
    if total(n, smaller) <= half_up(n) && total(n, greater) <= n / 2 {
        law_split_is_even(values, median);
    }
    assert forall|i: int, j: int|
        0 <= i < j < values.len() && !values[i].lt(median) && !median.lt(values[i])
            && !values[j].lt(median) && !median.lt(values[j]) implies #[trigger] after[i]
        >= #[trigger] after[j] by {
        let level = crate::median::level_term(values, median);
        assert forall|x: int| 0 <= x < j implies #[trigger] level(x) >= 0 by {}
        lemma_total_nonneg(j, level);
        assert(total(i, level) <= total(j, level));
    }
}

/// Splitting at the median is even: half of all elements, rounded up, end on
/// side 1. An average of two numbers has to lie between them.
pub proof fn law_median_splits_evenly<
    P: Fn(Double, Double) -> Double,
    O: Fn(Double, Double) -> Double,
>(plus: P, over: O, values: Seq<Double>, median: Double, part: Seq<usize>)
    requires
        values.len() <= part.len(),
        has_median(values),
        is_median(plus, over, values, median),
        forall|a: Double, b: Double, average: Double|
            a.place() <= b.place() && #[trigger] averages(plus, over, a, b, average) ==> a.place()
                <= average.place() <= b.place(),
    ensures
        total(values.len() as int, |i: int| split(values, median, part)[i] as int) == (values.len()
            + 1) / 2,
{
    let (sorted, perm) = choose|sorted: Seq<Double>, perm: Seq<int>| #[trigger]
        is_sorting(values, sorted, perm) && (if values.len() % 2 == 0 {
            averages(
                plus,
                over,
                sorted[values.len() / 2 - 1],
                sorted[values.len() as int / 2],
                median,
            )
        } else {
            median == sorted[values.len() as int / 2]
        });
    if values.len() % 2 == 0 {
        let i = values.len() / 2 - 1;
        let j = values.len() as int / 2;
        assert(perm[i] != perm[j]);
        assert(sorted[i].place() <= sorted[j].place());
    }
    law_middle_splits_evenly(values, sorted, perm, median);
    let after = split(values, median, part);
    lemma_total_ext(values.len() as int, |i: int| after[i] as int, side_term(values, median));
}

/// Separating by circles gives the best separation of all: the edge cut of the
/// result is no greater than that of the separation by any circle of any round,
/// and it is that of one of them, the first of the best. Adding and dividing have
/// to give one result for the same numbers, and some circle has to cut less than
/// the greatest number there is.
pub proof fn law_separation_is_best<
    P: Fn(Double, Double) -> Double,
    O: Fn(Double, Double) -> Double,
    T: Fn(usize) -> Vec<Vec<Double>>,
>(
    plus: P,
    over: O,
    trial: T,
    rows: Adjacency,
    trials: Seq<Trial>,
    before: Seq<usize>,
    after: Seq<usize>,
)
    requires
        settled(plus),
        settled(over),
        before.len() == rows.len(),
        forall|o: int|
            0 <= o < trials.len() ==> plays(
                plus,
                over,
                trial,
                rows,
                o as usize,
                #[trigger] trials[o],
            ),
        forall|o: int, r: int|
            0 <= o < trials.len() && 0 <= r < trials[o].circles.len() ==> (
            #[trigger] trials[o].circles[r]).len() == rows.len(),
        separated(plus, over, trials, before, after),
        exists|o: int, r: int, median: Double|
            0 <= o < trials.len() && 0 <= r < trials[o].circles.len() && #[trigger] is_median(
                plus,
                over,
                trials[o].circles[r],
                median,
            ) && cut(rows, split(trials[o].circles[r], median, before)) < i64::MAX,
    ensures
        forall|o: int, r: int, median: Double|
            0 <= o < trials.len() && 0 <= r < trials[o].circles.len() && #[trigger] is_median(
                plus,
                over,
                trials[o].circles[r],
                median,
            ) ==> cut(rows, after) <= cut(rows, split(trials[o].circles[r], median, before)),
        exists|o: int, r: int, median: Double|
            0 <= o < trials.len() && 0 <= r < trials[o].circles.len() && #[trigger] is_median(
                plus,
                over,
                trials[o].circles[r],
                median,
            ) && after == split(trials[o].circles[r], median, before) && (forall|
                x: int,
                y: int,
                m: Double,
            |
                0 <= x < trials.len() && 0 <= y < trials[x].circles.len() && (x < o || (x == o && y
                    < r)) && #[trigger] is_median(plus, over, trials[x].circles[y], m) ==> cut(
                    rows,
                    split(trials[x].circles[y], m, before),
                ) > cut(rows, after)),
{
    let n = trials.len() as int;
    let all = bests(trials);
    assert forall|o: int, r: int, median: Double|
        0 <= o < trials.len() && 0 <= r < trials[o].circles.len() && #[trigger] is_median(
            plus,
            over,
            trials[o].circles[r],
            median,
        ) implies trials[o].qualities[r] == cut(
        rows,
        split(trials[o].circles[r], median, before),
    ) && trials[o].qualities.len() == trials[o].circles.len() by {
        assert(plays(plus, over, trial, rows, o as usize, trials[o]));
        let circle = trials[o].circles[r];
        assert(circle.len() == rows.len());
        assert(is_quality(plus, over, rows, circle, trials[o].qualities[r]));
        let m = choose|m: Double| #[trigger]
            is_median(plus, over, circle, m) && trials[o].qualities[r] == cut(
                rows,
                split(circle, m, zeros(rows.len())),
            );
        law_median_is_unique(plus, over, circle, m, median);
        assert(split(circle, m, zeros(rows.len())) =~= split(circle, median, before));
    }
    assert forall|o: int, r: int|
        0 <= o < trials.len() && 0 <= r < trials[o].circles.len() implies all[o]
        <= #[trigger] trials[o].qualities[r] by {
        assert(plays(plus, over, trial, rows, o as usize, trials[o]));
        law_first_smallest(trials[o].qualities, trials[o].qualities.len() as int);
        assert(all[o] == best_of(trials[o]));
    }
    law_first_smallest(all, n);
    let (low, circle, middle) = choose|o: int, r: int, median: Double|
        0 <= o < trials.len() && 0 <= r < trials[o].circles.len() && #[trigger] is_median(
            plus,
            over,
            trials[o].circles[r],
            median,
        ) && cut(rows, split(trials[o].circles[r], median, before)) < i64::MAX;
    assert(trials[low].qualities[circle] < i64::MAX);
    assert(all[low] <= trials[low].qualities[circle]);
    let o = first_smallest(all, n).unwrap();
    law_first_smallest(trials[o].qualities, trials[o].qualities.len() as int);
    let r = first_smallest(
        trials[o].qualities,
        trials[o].qualities.len() as int,
    ).unwrap();
    assert(plays(plus, over, trial, rows, o as usize, trials[o]));
    let median = choose|median: Double| #[trigger]
        is_median(plus, over, trials[o].circles[r], median) && after == split(
            trials[o].circles[r],
            median,
            before,
        );
    assert(is_median(plus, over, trials[o].circles[r], median));
    assert(cut(rows, after) == trials[o].qualities[r]);
    assert forall|x: int, y: int, m: Double|
        0 <= x < trials.len() && 0 <= y < trials[x].circles.len() && #[trigger] is_median(
            plus,
            over,
            trials[x].circles[y],
            m,
        ) implies cut(rows, after) <= cut(rows, split(trials[x].circles[y], m, before)) by {
        assert(all[x] <= trials[x].qualities[y]);
        assert(all[o] <= all[x]);
        assert(all[o] == best_of(trials[o]));
    }
    assert forall|x: int, y: int, m: Double|
        0 <= x < trials.len() && 0 <= y < trials[x].circles.len() && (x < o || (x == o && y < r))
            && #[trigger] is_median(plus, over, trials[x].circles[y], m) implies cut(
        rows,
        split(trials[x].circles[y], m, before),
    ) > cut(rows, after) by {
        assert(all[x] <= trials[x].qualities[y]);
        if x < o {
            assert(all[x] > all[o]);
        } else {
            assert(trials[o].qualities[y] > trials[o].qualities[r]);
        }
    }
}

/// A round takes the projections that belong to it. All of them have medians, and
/// the quality of each circle is the edge cut of the separation by it.
pub proof fn law_round_is_played<
    P: Fn(Double, Double) -> Double,
    O: Fn(Double, Double) -> Double,
    T: Fn(usize) -> Vec<Vec<Double>>,
>(plus: P, over: O, trial: T, rows: Adjacency, outer: usize, played: Trial, r: int)
    requires
        plays(plus, over, trial, rows, outer, played),
        0 <= r < played.circles.len(),
    ensures
        exists|c: Vec<Vec<Double>>| #[trigger]
            call_ensures(trial, (outer,), c) && c@.len() == played.circles.len() && forall|x: int|
                0 <= x < c@.len() ==> (#[trigger] c@[x])@ == played.circles[x],
        has_median(played.circles[r]),
        played.qualities.len() == played.circles.len(),
        exists|median: Double| #[trigger]
            is_median(plus, over, played.circles[r], median) && played.qualities[r] == cut(
                rows,
                split(played.circles[r], median, Seq::new(rows.len(), |v: int| 0)),
            ),
{
    let c = choose|c: Vec<Vec<Double>>|
        projections(c@) == played.circles && #[trigger] call_ensures(trial, (outer,), c);
    assert(call_ensures(trial, (outer,), c));
    assert forall|x: int| 0 <= x < c@.len() implies (#[trigger] c@[x])@ == played.circles[x] by {
        assert(projections(c@)[x] == c@[x]@);
    }
    let quality = played.qualities[r];
    assert(is_quality(plus, over, rows, played.circles[r], quality));
    assert(zeros(rows.len()) =~= Seq::new(rows.len(), |v: int| 0));
}

/// Circles have medians unless one of them has no projections at all, or several
/// of which one is no number.
pub proof fn law_circles_need_numbers(circles: Seq<Seq<Double>>)
    ensures
        all_have_medians(circles) <==> forall|r: int|
            0 <= r < circles.len() ==> (#[trigger] circles[r]).len() == 1 || (circles[r].len() >= 2
                && forall|i: int| 0 <= i < circles[r].len() ==> !(#[trigger] circles[r][i]).nan()),
{
}

/// The separation follows the qualities: it is that by a circle whose quality is
/// the smallest of all, and the first one with that quality. Some quality has to be
/// below the greatest number there is; if there is none the partition stays as it
/// was.
pub proof fn law_separation_follows_qualities<
    P: Fn(Double, Double) -> Double,
    O: Fn(Double, Double) -> Double,
>(plus: P, over: O, trials: Seq<Trial>, before: Seq<usize>, after: Seq<usize>)
    requires
        separated(plus, over, trials, before, after),
    ensures
        (forall|o: int, r: int|
            0 <= o < trials.len() && 0 <= r < trials[o].qualities.len()
                ==> #[trigger] trials[o].qualities[r] == i64::MAX) ==> after == before,
        (exists|o: int, r: int|
            0 <= o < trials.len() && 0 <= r < trials[o].qualities.len()
                && #[trigger] trials[o].qualities[r] < i64::MAX) ==> exists|
            o: int,
            r: int,
            median: Double,
        |
            {
                &&& 0 <= o < trials.len()
                &&& 0 <= r < trials[o].qualities.len()
                &&& #[trigger] is_median(plus, over, trials[o].circles[r], median)
                &&& after == split(trials[o].circles[r], median, before)
                &&& forall|x: int, y: int|
                    0 <= x < trials.len() && 0 <= y < trials[x].qualities.len()
                        ==> #[trigger] trials[x].qualities[y] >= trials[o].qualities[r] && (x < o
                        || (x == o && y < r) ==> trials[x].qualities[y] > trials[o].qualities[r])
            },
{
    let n = trials.len() as int;
    let all = bests(trials);
    law_first_smallest(all, n);
    assert forall|o: int, r: int|
        0 <= o < trials.len() && 0 <= r < trials[o].qualities.len() implies all[o]
        <= #[trigger] trials[o].qualities[r] by {
        law_first_smallest(trials[o].qualities, trials[o].qualities.len() as int);
        assert(all[o] == best_of(trials[o]));
    }
    match first_smallest(all, n) {
        None => {
            assert forall|o: int, r: int|
                0 <= o < trials.len() && 0 <= r < trials[o].qualities.len() implies (
            #[trigger] trials[o].qualities[r]) == i64::MAX by {
                assert(smallest(all, n) <= all[o]);
            }
        },
        Some(o) => {
            assert(all[o] == best_of(trials[o]));
            law_first_smallest(trials[o].qualities, trials[o].qualities.len() as int);
            let r = first_smallest(trials[o].qualities, trials[o].qualities.len() as int).unwrap();
            let median = choose|median: Double| #[trigger]
                is_median(plus, over, trials[o].circles[r], median) && after == split(
                    trials[o].circles[r],
                    median,
                    before,
                );
            assert(is_median(plus, over, trials[o].circles[r], median));
            if forall|x: int, y: int|
                0 <= x < trials.len() && 0 <= y < trials[x].qualities.len()
                    ==> #[trigger] trials[x].qualities[y] == i64::MAX {
                assert forall|x: int| 0 <= x < all.len() implies #[trigger] all[x] == i64::MAX by {
                    assert(all[x] == best_of(trials[x]));
                    assert forall|y: int|
                        0 <= y < trials[x].qualities.len() implies (
                    #[trigger] trials[x].qualities[y]) == i64::MAX by {}
                    lemma_none_smallest(trials[x].qualities, trials[x].qualities.len() as int);
                }
                lemma_none_smallest(all, n);
            }
            assert forall|x: int, y: int|
                0 <= x < trials.len() && 0 <= y < trials[x].qualities.len() implies (
            #[trigger] trials[x].qualities[y]) >= trials[o].qualities[r] && (x < o || (x == o && y
                < r) ==> trials[x].qualities[y] > trials[o].qualities[r]) by {
                assert(all[x] <= trials[x].qualities[y]);
                assert(all[o] <= all[x]);
                if x < o {
                    assert(all[x] > all[o]);
                }
            }
        },
    }
}

/// Without any circle the partition stays as it was.
pub proof fn law_no_circles_no_separation<
    P: Fn(Double, Double) -> Double,
    O: Fn(Double, Double) -> Double,
    T: Fn(usize) -> Vec<Vec<Double>>,
>(
    plus: P,
    over: O,
    trial: T,
    rows: Adjacency,
    trials: Seq<Trial>,
    before: Seq<usize>,
    after: Seq<usize>,
)
    requires
        forall|o: int|
            0 <= o < trials.len() ==> plays(
                plus,
                over,
                trial,
                rows,
                o as usize,
                #[trigger] trials[o],
            ),
        forall|o: int| 0 <= o < trials.len() ==> (#[trigger] trials[o]).circles.len() == 0,
        separated(plus, over, trials, before, after),
    ensures
        after == before,
{
    let all = bests(trials);
    lemma_none_smallest(all, trials.len() as int);
}

proof fn lemma_none_smallest(qualities: Seq<i64>, k: int)
    requires
        0 <= k <= qualities.len(),
        forall|i: int| 0 <= i < qualities.len() ==> #[trigger] qualities[i] == i64::MAX,
    ensures
        first_smallest(qualities, k) is None,
        smallest(qualities, k) == i64::MAX,
    decreases k,
{
    if k > 0 {
        lemma_none_smallest(qualities, k - 1);
        assert(qualities[k - 1] == i64::MAX);
    }
}

/// How many elements a split puts on side 1: those below the median, and of those
/// at the median as many as are missing to half of all elements, rounded up, as
/// far as there are so many.
pub proof fn law_split_fills_up_to_half(values: Seq<Double>, median: Double, part: Seq<usize>)
    requires
        values.len() <= part.len(),
    ensures
        ({
            let n = values.len() as int;
            let half = (n + 1) / 2;
            let smaller = total(
                n,
                |i: int|
                    if values[i].lt(median) {
                        1int
                    } else {
                        0
                    },
            );
            let greater = total(
                n,
                |i: int|
                    if median.lt(values[i]) {
                        1int
                    } else {
                        0
                    },
            );
            total(n, |i: int| split(values, median, part)[i] as int) == if smaller >= half {
                smaller
            } else if n - greater <= half {
                n - greater
            } else {
                half
            }
        }),
{
    let after = split(values, median, part);
    let n = values.len() as int;
    let smaller = |i: int|
        if values[i].lt(median) {
            1int
        } else {
            0
        };
    let greater = |i: int|
        if median.lt(values[i]) {
            1int
        } else {
            0
        };
    let ones = |i: int| after[i] as int;
    lemma_total_ext(n, smaller, crate::median::below_term(values, median));
    lemma_total_ext(n, greater, crate::median::above_term(values, median));
    lemma_total_ext(n, ones, side_term(values, median));
    lemma_counts(values, median, n);
    lemma_sides(values, median, n);
}

} // verus!
