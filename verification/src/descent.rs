//! What becomes of the first partition on its way down from the coarsest graph.

use crate::arithmetic::Arithmetic;
use crate::double::Double;
use crate::error::Error;
use crate::hierarchy::{
    climbs, ends_early, jams, ladder, law_level_keeps_cut, rows_below, weights_below, Level,
};
use crate::jet::JetPartitioner;
use crate::multilevel::{
    complete, descends, descends_at, founds, is_refiner, lemma_ladder, multilevel_outcome, refined,
};
use crate::topology::{cut, in_range, no_positive_loops, symmetric, Adjacency, Graph};
use crate::uncoarsen::uncoarse;
use vstd::prelude::*;

verus! {

/// Graphs are coarsened as long as they have more than a hundred vertices, and
/// no longer: if the given graph has more, so has every level but the last, and
/// the last has no more. If it has no more there are no levels.
pub proof fn law_ladder_ends_at_a_hundred<P: Fn(Double, Double) -> Double>(
    plus: P,
    rows: Adjacency,
    weights: Seq<Double>,
    levels: Seq<Level>,
)
    requires
        complete(plus, rows, weights, levels),
    ensures
        levels.len() == 0 <==> rows.len() <= 100,
        forall|i: int| 0 <= i < levels.len() - 1 ==> (#[trigger] levels[i]).graph@.len() > 100,
        levels.len() > 0 ==> levels.last().graph@.len() <= 100,
{
    assert forall|i: int| 0 <= i < levels.len() - 1 implies (#[trigger] levels[i]).graph@.len()
        > 100 by {
        let next = levels[i + 1];
        assert(rows_below(rows, levels, i + 1).len() > 100);
    }
    if levels.len() > 0 {
        let first = levels[0];
        assert(rows_below(rows, levels, 0).len() > 100);
    }
}

/// The levels are made one from the other: the first from the given graph and
/// weights, and each further one from the graph and the weights of the one before
/// it.
pub proof fn law_ladder_goes_level_by_level<P: Fn(Double, Double) -> Double>(
    plus: P,
    rows: Adjacency,
    weights: Seq<Double>,
    levels: Seq<Level>,
    i: int,
)
    requires
        ladder(plus, rows, weights, levels),
        0 <= i < levels.len(),
    ensures
        i == 0 ==> climbs(plus, rows, weights, levels[i]),
        i > 0 ==> climbs(plus, levels[i - 1].graph@, levels[i - 1].weights@, levels[i]),
{
    let level = levels[i];
    assert(climbs(plus, rows_below(rows, levels, i), weights_below(weights, levels, i), level));
}

/// The result is a refined partition. There is a ladder of levels and a partition
/// of each: the one of the coarsest graph is the first partition, and each of the
/// others is what the Jet partitioner, with twelve rounds, a balance factor of
/// 0.1, a filter ratio of 0.75 and the given tolerance factor, makes on that level,
/// with its graph and weights, of the partition of the level above, carried down.
/// The result is the partition of the first level, carried down.
pub proof fn law_result_is_refined<I, P, N, T, O, W, C, F, G>(
    arithmetic: Arithmetic<I, P, N, T, O, W, C, F>,
    initial: G,
    tolerance: Double,
    rows: Adjacency,
    weights: Seq<Double>,
    before: Seq<usize>,
    after: Seq<usize>,
) where
    I: Fn(usize, &Vec<usize>, &[Double]) -> Double + Copy,
    P: Fn(Double, Double) -> Double + Copy,
    N: Fn(Double, Double) -> Double + Copy,
    T: Fn(Double, Double) -> Double + Copy,
    O: Fn(Double, Double) -> Double + Copy,
    W: Fn(i64) -> Double + Copy,
    C: Fn(usize) -> Double + Copy,
    F: Fn(Double) -> i64 + Copy,
    G: Fn(&Graph, &Vec<Double>) -> Vec<usize>,

    requires
        multilevel_outcome(
            arithmetic,
            initial,
            tolerance,
            rows,
            weights,
            before,
            after,
            Ok(()),
        ),
    ensures
        exists|levels: Seq<Level>, first: Vec<usize>, parts: Seq<Seq<usize>>|
            {
                &&& #[trigger] complete(arithmetic.plus, rows, weights, levels)
                &&& levels.len() >= 2
                &&& #[trigger] call_ensures(
                    initial,
                    (&levels.last().graph, &levels.last().weights),
                    first,
                )
                &&& parts.len() == levels.len()
                &&& parts.last() == first@
                &&& forall|j: int|
                    0 <= j < levels.len() - 1 ==> #[trigger] follows_jet(
                        arithmetic,
                        tolerance,
                        levels,
                        parts,
                        j,
                    )
                &&& after == uncoarse(#[trigger] parts[0], levels[0].sets())
                &&& after.len() == rows.len()
            },
{
    let (levels, first, parts) = choose|
        levels: Seq<Level>,
        first: Seq<usize>,
        parts: Seq<Seq<usize>>,
    |
        {
            &&& #[trigger] complete(arithmetic.plus, rows, weights, levels)
            &&& levels.len() >= 2
            &&& founds(initial, levels.last(), first)
            &&& #[trigger] descends(arithmetic, tolerance, levels, first, 0, parts)
            &&& after == uncoarse(parts[0], levels[0].sets())
            &&& after.len() == rows.len()
        };
    let p = choose|p: Vec<usize>|
        p@ == first && #[trigger] call_ensures(
            initial,
            (&levels.last().graph, &levels.last().weights),
            p,
        );
    assert(call_ensures(initial, (&levels.last().graph, &levels.last().weights), p));
    assert forall|j: int| 0 <= j < levels.len() - 1 implies #[trigger] follows_jet(
        arithmetic,
        tolerance,
        levels,
        parts,
        j,
    ) by {
        assert(descends_at(arithmetic, tolerance, levels, 0, parts, j));
        lemma_follows_jet(arithmetic, tolerance, levels, parts, j);
    }
}

/// Partition `j` is what the Jet partitioner makes of the next one, carried down.
pub open spec fn follows_jet<I, P, N, T, O, W, C, F>(
    arithmetic: Arithmetic<I, P, N, T, O, W, C, F>,
    tolerance: Double,
    levels: Seq<Level>,
    parts: Seq<Seq<usize>>,
    j: int,
) -> bool where
    I: Fn(usize, &Vec<usize>, &[Double]) -> Double + Copy,
    P: Fn(Double, Double) -> Double + Copy,
    N: Fn(Double, Double) -> Double + Copy,
    T: Fn(Double, Double) -> Double + Copy,
    O: Fn(Double, Double) -> Double + Copy,
    W: Fn(i64) -> Double + Copy,
    C: Fn(usize) -> Double + Copy,
    F: Fn(Double) -> i64 + Copy,
 {
    exists|settings: JetPartitioner, weights: &[Double]|
        {
            &&& settings.iterations == 12
            &&& settings.balance_factor == (Double { bits: 0x3fb9_9999_9999_999a })
            &&& settings.filter_ratio == (Double { bits: 0x3fe8_0000_0000_0000 })
            &&& settings.tolerance_factor == tolerance
            &&& weights@ == levels[j].weights@
            &&& #[trigger] arithmetic.outcome(
                settings,
                weights,
                levels[j].graph@,
                uncoarse(parts[j + 1], levels[j + 1].sets()),
                parts[j],
                true,
            )
        }
}

proof fn lemma_follows_jet<I, P, N, T, O, W, C, F>(
    arithmetic: Arithmetic<I, P, N, T, O, W, C, F>,
    tolerance: Double,
    levels: Seq<Level>,
    parts: Seq<Seq<usize>>,
    j: int,
) where
    I: Fn(usize, &Vec<usize>, &[Double]) -> Double + Copy,
    P: Fn(Double, Double) -> Double + Copy,
    N: Fn(Double, Double) -> Double + Copy,
    T: Fn(Double, Double) -> Double + Copy,
    O: Fn(Double, Double) -> Double + Copy,
    W: Fn(i64) -> Double + Copy,
    C: Fn(usize) -> Double + Copy,
    F: Fn(Double) -> i64 + Copy,

    requires
        descends_at(arithmetic, tolerance, levels, 0, parts, j),
    ensures
        follows_jet(arithmetic, tolerance, levels, parts, j),
{
    let carried = uncoarse(parts[j + 1], levels[j + 1].sets());
    let (settings, weights) = choose|settings: JetPartitioner, weights: &[Double]|
        is_refiner(settings, tolerance) && weights@ == levels[j].weights@
            && #[trigger] arithmetic.outcome(
            settings,
            weights,
            levels[j].graph@,
            carried,
            parts[j],
            true,
        );
    assert(arithmetic.outcome(settings, weights, levels[j].graph@, carried, parts[j], true));
}

/// Where there is no result the partition is left as it was. A graph with no more
/// than a hundred vertices has too few levels, and so has one whose first level
/// has no more; there is no other reason for too few levels. Loops are a reason
/// only if one has a positive weight, a graph cannot be coarsened further only as
/// long as it has more than a hundred vertices, and an entry is missing only where
/// the Jet partitioner broke off.
pub proof fn law_failure_has_a_reason<I, P, N, T, O, W, C, F, G>(
    arithmetic: Arithmetic<I, P, N, T, O, W, C, F>,
    initial: G,
    tolerance: Double,
    rows: Adjacency,
    weights: Seq<Double>,
    before: Seq<usize>,
    after: Seq<usize>,
    result: Result<(), Error>,
) where
    I: Fn(usize, &Vec<usize>, &[Double]) -> Double + Copy,
    P: Fn(Double, Double) -> Double + Copy,
    N: Fn(Double, Double) -> Double + Copy,
    T: Fn(Double, Double) -> Double + Copy,
    O: Fn(Double, Double) -> Double + Copy,
    W: Fn(i64) -> Double + Copy,
    C: Fn(usize) -> Double + Copy,
    F: Fn(Double) -> i64 + Copy,
    G: Fn(&Graph, &Vec<Double>) -> Vec<usize>,

    requires
        multilevel_outcome(
            arithmetic,
            initial,
            tolerance,
            rows,
            weights,
            before,
            after,
            result,
        ),
    ensures
        result is Err ==> after == before,
        result is Ok ==> after.len() == rows.len(),
        rows.len() <= 100 ==> result == Err::<(), Error>(Error::TooFewLevels),
        result == Err::<(), Error>(Error::TooFewLevels) ==> rows.len() <= 100 || exists|
            level: Level,
        | #[trigger]
            climbs(arithmetic.plus, rows, weights, level) && level.graph@.len() <= 100,
        result == Err::<(), Error>(Error::NotCoarsened) ==> exists|levels: Seq<Level>|
            {
                let top = if levels.len() == 0 {
                    rows
                } else {
                    levels.last().graph@
                };
                let top_weights = if levels.len() == 0 {
                    weights
                } else {
                    levels.last().weights@
                };
                &&& #[trigger] ladder(arithmetic.plus, rows, weights, levels)
                &&& top.len() > 100
                &&& jams(arithmetic.plus, top, top_weights) || (levels.len() > 0 && forall|
                    v: int,
                    k: int,
                |
                    0 <= v < top.len() && 0 <= k < top[v].len() ==> (#[trigger] top[v][k]).1 <= 0)
            },
        result == Err::<(), Error>(Error::SelfLoop) ==> exists|v: int, k: int|
            0 <= v < rows.len() && 0 <= k < rows[v].len() && (#[trigger] rows[v][k]).0 == v
                && rows[v][k].1 > 0,
        result == Err::<(), Error>(Error::MissingEntry) ==> exists|
            settings: JetPartitioner,
            level_weights: &[Double],
            level: Level,
            carried: Seq<usize>,
        |
            {
                &&& settings.iterations == 12
                &&& settings.balance_factor == (Double { bits: 0x3fb9_9999_9999_999a })
                &&& settings.filter_ratio == (Double { bits: 0x3fe8_0000_0000_0000 })
                &&& settings.tolerance_factor == tolerance
                &&& level_weights@ == level.weights@
                &&& #[trigger] arithmetic.outcome(
                    settings,
                    level_weights,
                    level.graph@,
                    carried,
                    carried,
                    false,
                )
            },
        forall|e: Error| result == Err::<(), Error>(e) ==> {
            ||| e == Error::NotCoarsened
            ||| e == Error::TooFewLevels
            ||| e == Error::MissingEntry
            ||| e == Error::SelfLoop
        },
{
    assert forall|levels: Seq<Level>| #[trigger]
        ladder(arithmetic.plus, rows, weights, levels) && levels.len() > 0 implies rows.len()
        > 100 by {
        let bottom = levels[0];
        assert(rows_below(rows, levels, 0).len() > 100);
    }
    if result == Err::<(), Error>(Error::TooFewLevels) && rows.len() > 100 {
        let levels = choose|levels: Seq<Level>|
            {
                &&& #[trigger] complete(arithmetic.plus, rows, weights, levels)
                &&& levels.len() < 2
            };
        let bottom = levels[0];
        assert(climbs(
            arithmetic.plus,
            rows_below(rows, levels, 0),
            weights_below(weights, levels, 0),
            bottom,
        ));
    }
    if result == Err::<(), Error>(Error::NotCoarsened) {
        let levels = choose|levels: Seq<Level>| #[trigger]
            ends_early(arithmetic.plus, rows, weights, levels);
        assert(ladder(arithmetic.plus, rows, weights, levels));
    }
    if result == Err::<(), Error>(Error::MissingEntry) {
        let (levels, first, i, parts) = choose|
            levels: Seq<Level>,
            first: Seq<usize>,
            i: int,
            parts: Seq<Seq<usize>>,
        |
            {
                &&& #[trigger] complete(arithmetic.plus, rows, weights, levels)
                &&& 1 <= i < levels.len()
                &&& founds(initial, levels.last(), first)
                &&& #[trigger] descends(arithmetic, tolerance, levels, first, i, parts)
                &&& refined(
                    arithmetic,
                    tolerance,
                    levels[i - 1],
                    uncoarse(parts[0], levels[i].sets()),
                    uncoarse(parts[0], levels[i].sets()),
                    false,
                )
            };
        let level = levels[i - 1];
        let carried = uncoarse(parts[0], levels[i].sets());
        let (settings, level_weights) = choose|settings: JetPartitioner, w: &[Double]|
            is_refiner(settings, tolerance) && w@ == level.weights@
                && #[trigger] arithmetic.outcome(
                settings,
                w,
                level.graph@,
                carried,
                carried,
                false,
            );
        assert(arithmetic.outcome(
            settings,
            level_weights,
            level.graph@,
            carried,
            carried,
            false,
        ));
    }
}

/// However the imbalance of a partition on a level comes out, it is below 0.1.
pub open spec fn surely_balanced<I, P, N, T, O, W, C, F>(
    arithmetic: Arithmetic<I, P, N, T, O, W, C, F>,
    level: Level,
    parts: usize,
    part: Seq<usize>,
) -> bool where
    I: Fn(usize, &Vec<usize>, &[Double]) -> Double + Copy,
    P: Fn(Double, Double) -> Double + Copy,
    N: Fn(Double, Double) -> Double + Copy,
    T: Fn(Double, Double) -> Double + Copy,
    O: Fn(Double, Double) -> Double + Copy,
    W: Fn(i64) -> Double + Copy,
    C: Fn(usize) -> Double + Copy,
    F: Fn(Double) -> i64 + Copy,
 {
    forall|weights: &[Double], d: Double|
        weights@ == level.weights@ && #[trigger] arithmetic.measures(parts, part, weights, d)
            ==> d.lt(Double { bits: 0x3fb9_9999_9999_999a })
}

/// A balanced partition that is refined on a level does not get worse, and its
/// first refinement counts: if that makes a balanced partition, the result has no
/// greater edge cut. So a partition that one refinement would turn into a balanced
/// one of smaller edge cut is never kept as it is.
pub proof fn law_refined_is_better<I, P, N, T, O, W, C, F>(
    arithmetic: Arithmetic<I, P, N, T, O, W, C, F>,
    tolerance: Double,
    level: Level,
    carried: Seq<usize>,
    part: Seq<usize>,
) where
    I: Fn(usize, &Vec<usize>, &[Double]) -> Double + Copy,
    P: Fn(Double, Double) -> Double + Copy,
    N: Fn(Double, Double) -> Double + Copy,
    T: Fn(Double, Double) -> Double + Copy,
    O: Fn(Double, Double) -> Double + Copy,
    W: Fn(i64) -> Double + Copy,
    C: Fn(usize) -> Double + Copy,
    F: Fn(Double) -> i64 + Copy,

    requires
        refined(arithmetic, tolerance, level, carried, part, true),
        surely_balanced(arithmetic, level, carried.to_set().len() as usize, carried),
    ensures
        cut(level.graph@, part) <= cut(level.graph@, carried),
        exists|once: Seq<usize>| #[trigger]
            arithmetic.first_refinement(
                Double { bits: 0x3fe8_0000_0000_0000 },
                level.graph@,
                carried,
                once,
            ) && (surely_balanced(arithmetic, level, carried.to_set().len() as usize, once) ==> cut(
                level.graph@,
                part,
            ) <= cut(level.graph@, once)),
{
    let (settings, weights) = choose|settings: JetPartitioner, weights: &[Double]|
        is_refiner(settings, tolerance) && weights@ == level.weights@
            && #[trigger] arithmetic.outcome(
            settings,
            weights,
            level.graph@,
            carried,
            part,
            true,
        );
    assert(settings.filter_ratio == (Double { bits: 0x3fe8_0000_0000_0000 }));
    assert(settings.balance_factor == (Double { bits: 0x3fb9_9999_9999_999a }));
    arithmetic.law_first_refinement_counts(settings, weights, level.graph@, carried, part);
}

proof fn lemma_cut_falls<I, P, N, T, O, W, C, F>(
    arithmetic: Arithmetic<I, P, N, T, O, W, C, F>,
    tolerance: Double,
    rows: Adjacency,
    weights: Seq<Double>,
    levels: Seq<Level>,
    first: Seq<usize>,
    parts: Seq<Seq<usize>>,
    j: int,
) where
    I: Fn(usize, &Vec<usize>, &[Double]) -> Double + Copy,
    P: Fn(Double, Double) -> Double + Copy,
    N: Fn(Double, Double) -> Double + Copy,
    T: Fn(Double, Double) -> Double + Copy,
    O: Fn(Double, Double) -> Double + Copy,
    W: Fn(i64) -> Double + Copy,
    C: Fn(usize) -> Double + Copy,
    F: Fn(Double) -> i64 + Copy,

    requires
        in_range(rows),
        symmetric(rows),
        no_positive_loops(rows),
        rows.len() <= usize::MAX,
        ladder(arithmetic.plus, rows, weights, levels),
        descends(arithmetic, tolerance, levels, first, 0, parts),
        forall|i: int, up: int|
            0 <= i < parts.len() - 1 && up == i + 1 ==> surely_balanced(
                arithmetic,
                #[trigger] levels[i],
                uncoarse(#[trigger] parts[up], levels[up].sets()).to_set().len() as usize,
                uncoarse(parts[up], levels[up].sets()),
            ),
        0 <= j < parts.len(),
    ensures
        cut(levels[j].graph@, parts[j]) <= cut(levels.last().graph@, first),
    decreases parts.len() - j,
{
    if j < parts.len() - 1 {
        lemma_cut_falls(arithmetic, tolerance, rows, weights, levels, first, parts, j + 1);
        let up = j + 1;
        let carried = uncoarse(parts[up], levels[up].sets());
        assert(descends_at(arithmetic, tolerance, levels, 0, parts, j));
        assert(surely_balanced(
            arithmetic,
            levels[j],
            carried.to_set().len() as usize,
            carried,
        ));
        law_refined_is_better(arithmetic, tolerance, levels[j], carried, parts[j]);
        lemma_ladder(arithmetic.plus, rows, weights, levels, up);
        lemma_symmetric_levels(arithmetic.plus, rows, weights, levels, up);
        let top = levels[up];
        law_level_keeps_cut(
            arithmetic.plus,
            rows_below(rows, levels, up),
            weights_below(weights, levels, up),
            top,
            parts[up],
        );
    }
}

proof fn lemma_symmetric_levels<P: Fn(Double, Double) -> Double>(
    plus: P,
    rows: Adjacency,
    weights: Seq<Double>,
    levels: Seq<Level>,
    i: int,
)
    requires
        in_range(rows),
        symmetric(rows),
        no_positive_loops(rows),
        rows.len() <= usize::MAX,
        ladder(plus, rows, weights, levels),
        0 <= i <= levels.len(),
    ensures
        symmetric(rows_below(rows, levels, i)),
    decreases i,
{
    if i > 0 {
        lemma_symmetric_levels(plus, rows, weights, levels, i - 1);
        lemma_ladder(plus, rows, weights, levels, i - 1);
        let level = levels[i - 1];
        law_level_keeps_cut(
            plus,
            rows_below(rows, levels, i - 1),
            weights_below(weights, levels, i - 1),
            level,
            Seq::empty(),
        );
    }
}

/// On its way down the edge cut never grows: that of the result is at most that of
/// the first partition of the coarsest graph, as long as the partitions that are
/// carried down are balanced. This holds of undirected graphs without loops of
/// positive weight.
pub proof fn law_result_is_no_worse_than_first<I, P, N, T, O, W, C, F, G>(
    arithmetic: Arithmetic<I, P, N, T, O, W, C, F>,
    initial: G,
    tolerance: Double,
    rows: Adjacency,
    weights: Seq<Double>,
    before: Seq<usize>,
    after: Seq<usize>,
) where
    I: Fn(usize, &Vec<usize>, &[Double]) -> Double + Copy,
    P: Fn(Double, Double) -> Double + Copy,
    N: Fn(Double, Double) -> Double + Copy,
    T: Fn(Double, Double) -> Double + Copy,
    O: Fn(Double, Double) -> Double + Copy,
    W: Fn(i64) -> Double + Copy,
    C: Fn(usize) -> Double + Copy,
    F: Fn(Double) -> i64 + Copy,
    G: Fn(&Graph, &Vec<Double>) -> Vec<usize>,

    requires
        in_range(rows),
        symmetric(rows),
        no_positive_loops(rows),
        rows.len() <= usize::MAX,
        multilevel_outcome(
            arithmetic,
            initial,
            tolerance,
            rows,
            weights,
            before,
            after,
            Ok(()),
        ),
    ensures
        exists|levels: Seq<Level>, first: Seq<usize>, parts: Seq<Seq<usize>>|
            {
                &&& #[trigger] complete(arithmetic.plus, rows, weights, levels)
                &&& founds(initial, levels.last(), first)
                &&& #[trigger] descends(arithmetic, tolerance, levels, first, 0, parts)
                &&& cut(rows, after) == cut(levels[0].graph@, parts[0])
                &&& (forall|i: int, up: int|
                    0 <= i < parts.len() - 1 && up == i + 1 ==> surely_balanced(
                        arithmetic,
                        #[trigger] levels[i],
                        uncoarse(#[trigger] parts[up], levels[up].sets()).to_set().len() as usize,
                        uncoarse(parts[up], levels[up].sets()),
                    )) ==> cut(rows, after) <= cut(levels.last().graph@, first)
            },
{
    let (levels, first, parts) = choose|
        levels: Seq<Level>,
        first: Seq<usize>,
        parts: Seq<Seq<usize>>,
    |
        {
            &&& #[trigger] complete(arithmetic.plus, rows, weights, levels)
            &&& levels.len() >= 2
            &&& founds(initial, levels.last(), first)
            &&& #[trigger] descends(arithmetic, tolerance, levels, first, 0, parts)
            &&& after == uncoarse(parts[0], levels[0].sets())
            &&& after.len() == rows.len()
        };
    let bottom = levels[0];
    assert(climbs(
        arithmetic.plus,
        rows_below(rows, levels, 0),
        weights_below(weights, levels, 0),
        bottom,
    ));
    law_level_keeps_cut(arithmetic.plus, rows, weights, bottom, parts[0]);
    if forall|i: int, up: int|
        0 <= i < parts.len() - 1 && up == i + 1 ==> surely_balanced(
            arithmetic,
            #[trigger] levels[i],
            uncoarse(#[trigger] parts[up], levels[up].sets()).to_set().len() as usize,
            uncoarse(parts[up], levels[up].sets()),
        ) {
        lemma_cut_falls(arithmetic, tolerance, rows, weights, levels, first, parts, 0);
    }
}

} // verus!
