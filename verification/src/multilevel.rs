//! The multilevel partitioner: coarsening a graph, partitioning the coarsest
//! one, and refining the partition on the way back.

use crate::arithmetic::Arithmetic;
use crate::coarsen::holder;
use crate::double::Double;
use crate::error::{check_lengths, length_verdict, Error};
use crate::hierarchy::{
    climbs, coarsen_repeatedly, ends_early, ladder, law_level_keeps_cut, lemma_level,
    lemma_level_names, rows_below, weights_below, Level, COARSE_ENOUGH,
};
use crate::jet::JetPartitioner;
use crate::matrix::SparseMatrix;
use crate::progress::{below, gapless, within};
use crate::projection::{
    condenses, law_coarse_is_positive, law_coarse_is_symmetric, law_uncoarse_follows_groups,
    lemma_holder, partitions_vertices,
};
use crate::rounds::jet_partitioner;
use crate::slots::SLOTS_PER_PART;
use crate::topology::{
    cut, fits, in_range, lemma_row_mass, mass, no_positive_loops, positive, row_mass, symmetric,
    Adjacency, Graph,
};
use crate::total::{lemma_total_nonneg, total};
use crate::uncoarsen::{named, names_fit, partition_uncoarse, uncoarse};
use vstd::prelude::*;
use vstd::set_lib::lemma_len_subset;

verus! {

/// How the coarsest graph is partitioned.
#[derive(Clone, Copy, Debug, PartialEq, Eq, Structural)]
pub enum InitialPartitioner {
    /// By a separating circle.
    GeometricPartitioner,
    /// By the median of a coordinate.
    RecursiveCoordinateBisection,
}

/// The settings of the multilevel partitioner.
#[derive(Clone, Copy, Debug, PartialEq, Eq, Structural)]
pub struct MultiLevelPartitioner {
    /// How the coarsest graph is partitioned.
    pub initial_partitioner: InitialPartitioner,
    /// The tolerance factor of the refinement.
    pub tolerance: Double,
}

impl Default for MultiLevelPartitioner {
    /// Recursive coordinate bisection and a tolerance of 0.1.
    fn default() -> (settings: MultiLevelPartitioner)
        ensures
            settings.initial_partitioner == InitialPartitioner::RecursiveCoordinateBisection,
            settings.tolerance.bits == 0x3fb9_9999_9999_999a,
    {
        MultiLevelPartitioner {
            initial_partitioner: InitialPartitioner::RecursiveCoordinateBisection,
            tolerance: Double { bits: 0x3fb9_9999_9999_999a },
        }
    }
}

/// The settings of the refinement: the usual ones but for the tolerance
/// factor.
pub open spec fn is_refiner(settings: JetPartitioner, tolerance: Double) -> bool {
    &&& settings.iterations == 12
    &&& settings.balance_factor.bits == 0x3fb9_9999_9999_999a
    &&& settings.filter_ratio.bits == 0x3fe8_0000_0000_0000
    &&& settings.tolerance_factor == tolerance
}

/// The refinement of a partition on a level makes `after` of `before`, or
/// breaks off.
pub open spec fn refined<I, P, N, T, O, W, C, F>(
    arithmetic: Arithmetic<I, P, N, T, O, W, C, F>,
    tolerance: Double,
    level: Level,
    before: Seq<usize>,
    after: Seq<usize>,
    done: bool,
) -> bool where
    I: Fn(usize, &Vec<usize>, &[Double]) -> Double + Copy,
    P: Fn(Double, Double) -> Double + Copy,
    N: Fn(Double, Double) -> Double + Copy,
    T: Fn(Double, Double) -> Double + Copy,
    O: Fn(Double, Double) -> Double + Copy,
    W: Fn(i64) -> Double + Copy,
    C: Fn(usize) -> Double + Copy,
    F: Fn(Double) -> i64 + Copy,
 {
    exists|settings: JetPartitioner, weights: &[Double]|
        is_refiner(settings, tolerance) && weights@ == level.weights@
            && #[trigger] arithmetic.outcome(
            settings,
            weights,
            level.graph@,
            before,
            after,
            done,
        )
}

/// Partition number `j` comes from the one above it, carried down from level
/// `i + j + 1` and refined on level `i + j`.
pub open spec fn descends_at<I, P, N, T, O, W, C, F>(
    arithmetic: Arithmetic<I, P, N, T, O, W, C, F>,
    tolerance: Double,
    levels: Seq<Level>,
    i: int,
    parts: Seq<Seq<usize>>,
    j: int,
) -> bool where
    I: Fn(usize, &Vec<usize>, &[Double]) -> Double + Copy,
    P: Fn(Double, Double) -> Double + Copy,
    N: Fn(Double, Double) -> Double + Copy,
    T: Fn(Double, Double) -> Double + Copy,
    O: Fn(Double, Double) -> Double + Copy,
    W: Fn(i64) -> Double + Copy,
    C: Fn(usize) -> Double + Copy,
    F: Fn(Double) -> i64 + Copy,
 {
    refined(
        arithmetic,
        tolerance,
        levels[i + j],
        uncoarse(parts[j + 1], levels[i + j + 1].sets()),
        parts[j],
        true,
    )
}

/// `parts` are partitions of the levels from number `i` up. The last is the
/// first one made, and each other comes from the one above it, carried down
/// and refined.
pub open spec fn descends<I, P, N, T, O, W, C, F>(
    arithmetic: Arithmetic<I, P, N, T, O, W, C, F>,
    tolerance: Double,
    levels: Seq<Level>,
    first: Seq<usize>,
    i: int,
    parts: Seq<Seq<usize>>,
) -> bool where
    I: Fn(usize, &Vec<usize>, &[Double]) -> Double + Copy,
    P: Fn(Double, Double) -> Double + Copy,
    N: Fn(Double, Double) -> Double + Copy,
    T: Fn(Double, Double) -> Double + Copy,
    O: Fn(Double, Double) -> Double + Copy,
    W: Fn(i64) -> Double + Copy,
    C: Fn(usize) -> Double + Copy,
    F: Fn(Double) -> i64 + Copy,
 {
    &&& parts.len() == levels.len() - i
    &&& parts.len() > 0
    &&& parts.last() == first
    &&& forall|j: int|
        0 <= j < parts.len() - 1 ==> #[trigger] descends_at(
            arithmetic,
            tolerance,
            levels,
            i,
            parts,
            j,
        )
}

/// The first partition, of the coarsest graph, may come out as `first`.
pub open spec fn founds<G: Fn(&Graph, &Vec<Double>) -> Vec<usize>>(
    initial: G,
    level: Level,
    first: Seq<usize>,
) -> bool {
    exists|p: Vec<usize>|
        p@ == first && #[trigger] call_ensures(initial, (&level.graph, &level.weights), p)
}

/// The ladder is complete: its top is coarse enough.
pub open spec fn complete<P: Fn(Double, Double) -> Double>(
    plus: P,
    rows: Adjacency,
    weights: Seq<Double>,
    levels: Seq<Level>,
) -> bool {
    ladder(plus, rows, weights, levels) && rows_below(rows, levels, levels.len() as int).len()
        <= COARSE_ENOUGH
}

/// What the partitioner may make of a partition, or why it may fail.
pub open spec fn multilevel_outcome<I, P, N, T, O, W, C, F, G>(
    arithmetic: Arithmetic<I, P, N, T, O, W, C, F>,
    initial: G,
    tolerance: Double,
    rows: Adjacency,
    weights: Seq<Double>,
    before: Seq<usize>,
    after: Seq<usize>,
    result: Result<(), Error>,
) -> bool where
    I: Fn(usize, &Vec<usize>, &[Double]) -> Double + Copy,
    P: Fn(Double, Double) -> Double + Copy,
    N: Fn(Double, Double) -> Double + Copy,
    T: Fn(Double, Double) -> Double + Copy,
    O: Fn(Double, Double) -> Double + Copy,
    W: Fn(i64) -> Double + Copy,
    C: Fn(usize) -> Double + Copy,
    F: Fn(Double) -> i64 + Copy,
    G: Fn(&Graph, &Vec<Double>) -> Vec<usize>,
 {
    match result {
        Ok(_) => exists|levels: Seq<Level>, first: Seq<usize>, parts: Seq<Seq<usize>>|
            {
                &&& #[trigger] complete(arithmetic.plus, rows, weights, levels)
                &&& levels.len() >= 2
                &&& founds(initial, levels.last(), first)
                &&& #[trigger] descends(arithmetic, tolerance, levels, first, 0, parts)
                &&& after == uncoarse(parts[0], levels[0].sets())
                &&& after.len() == rows.len()
            },
        Err(Error::NotCoarsened) => after == before && exists|levels: Seq<Level>| #[trigger]
            ends_early(arithmetic.plus, rows, weights, levels),
        Err(Error::TooFewLevels) => after == before && exists|levels: Seq<Level>|
            {
                &&& #[trigger] complete(arithmetic.plus, rows, weights, levels)
                &&& levels.len() < 2
            },
        Err(Error::MissingEntry) => after == before && exists|
            levels: Seq<Level>,
            first: Seq<usize>,
            i: int,
            parts: Seq<Seq<usize>>,
        |
            {
                &&& #[trigger] complete(arithmetic.plus, rows, weights, levels)
                &&& 1 <= i < levels.len()
                &&& founds(initial, levels.last(), first)
                &&& #[trigger] descends(arithmetic, tolerance, levels, first, i, parts)
                &&& refined(
                    arithmetic,
                    tolerance,
                    levels[i - 1],
                    uncoarse(parts[0], levels[i].sets()),
                    uncoarse(parts[0], levels[i].sets()),
                    false,
                )
            },
        Err(Error::SelfLoop) => after == before && !no_positive_loops(rows) && exists|
            levels: Seq<Level>,
            first: Seq<usize>,
            parts: Seq<Seq<usize>>,
        |
            {
                &&& #[trigger] complete(arithmetic.plus, rows, weights, levels)
                &&& levels.len() >= 2
                &&& founds(initial, levels.last(), first)
                &&& #[trigger] descends(arithmetic, tolerance, levels, first, 0, parts)
                &&& uncoarse(parts[0], levels[0].sets()).len() != rows.len()
            },
        Err(Error::InputLenMismatch { .. }) => false,
        Err(Error::NoMedian) => false,
    }
}

/// What holds of every graph of a ladder.
pub proof fn lemma_ladder<P: Fn(Double, Double) -> Double>(
    plus: P,
    rows: Adjacency,
    weights: Seq<Double>,
    levels: Seq<Level>,
    i: int,
)
    requires
        in_range(rows),
        rows.len() <= usize::MAX,
        ladder(plus, rows, weights, levels),
        0 <= i <= levels.len(),
    ensures
        in_range(rows_below(rows, levels, i)),
        rows_below(rows, levels, i).len() <= rows.len(),
        mass(rows_below(rows, levels, i)) <= mass(rows),
        i > 0 ==> no_positive_loops(rows_below(rows, levels, i)),
        i > 0 ==> levels[i - 1].weights@.len() == levels[i - 1].graph@.len(),
        i > 0 ==> levels[i - 1].sets().len() == levels[i - 1].graph@.len(),
    decreases i,
{
    if i > 0 {
        lemma_ladder(plus, rows, weights, levels, i - 1);
        let level = levels[i - 1];
        lemma_level(
            plus,
            rows_below(rows, levels, i - 1),
            weights_below(weights, levels, i - 1),
            level,
        );
    }
}

proof fn lemma_descends_further<I, P, N, T, O, W, C, F>(
    arithmetic: Arithmetic<I, P, N, T, O, W, C, F>,
    tolerance: Double,
    levels: Seq<Level>,
    first: Seq<usize>,
    i: int,
    parts: Seq<Seq<usize>>,
    next: Seq<usize>,
) where
    I: Fn(usize, &Vec<usize>, &[Double]) -> Double + Copy,
    P: Fn(Double, Double) -> Double + Copy,
    N: Fn(Double, Double) -> Double + Copy,
    T: Fn(Double, Double) -> Double + Copy,
    O: Fn(Double, Double) -> Double + Copy,
    W: Fn(i64) -> Double + Copy,
    C: Fn(usize) -> Double + Copy,
    F: Fn(Double) -> i64 + Copy,

    requires
        1 <= i < levels.len(),
        descends(arithmetic, tolerance, levels, first, i, parts),
        refined(
            arithmetic,
            tolerance,
            levels[i - 1],
            uncoarse(parts[0], levels[i].sets()),
            next,
            true,
        ),
    ensures
        descends(arithmetic, tolerance, levels, first, i - 1, seq![next] + parts),
        (seq![next] + parts)[0] == next,
{
    let longer = seq![next] + parts;
    assert(longer[0] == next);
    assert(longer[1] == parts[0]);
    assert forall|j: int| 0 <= j < longer.len() - 1 implies #[trigger] descends_at(
        arithmetic,
        tolerance,
        levels,
        i - 1,
        longer,
        j,
    ) by {
        if j > 0 {
            assert(descends_at(arithmetic, tolerance, levels, i, parts, j - 1));
            assert(longer[j] == parts[j - 1]);
            assert(longer[j + 1] == parts[j]);
        }
    }
    assert(longer.last() == parts.last());
}

/// Carries a partition of a level down to the one below and refines it there.
fn step_down<I, P, N, T, O, W, C, F>(
    below: &Level,
    level: &Level,
    part: &Vec<usize>,
    tolerance: Double,
    arithmetic: &Arithmetic<I, P, N, T, O, W, C, F>,
) -> (result: Option<Vec<usize>>) where
    I: Fn(usize, &Vec<usize>, &[Double]) -> Double + Copy,
    P: Fn(Double, Double) -> Double + Copy,
    N: Fn(Double, Double) -> Double + Copy,
    T: Fn(Double, Double) -> Double + Copy,
    O: Fn(Double, Double) -> Double + Copy,
    W: Fn(i64) -> Double + Copy,
    C: Fn(usize) -> Double + Copy,
    F: Fn(Double) -> i64 + Copy,

    requires
        fits(below.graph@),
        below.graph@.len() * SLOTS_PER_PART <= usize::MAX,
        below.weights@.len() == below.graph@.len(),
        level.sets().len() <= part@.len(),
        names_fit(level.sets()),
        named(level.sets(), level.sets().len() as int) == below.graph@.len(),
        named(level.sets(), level.sets().len() as int) <= usize::MAX,
        arithmetic.usable(),
    ensures
        match result {
            Some(next) => refined(
                *arithmetic,
                tolerance,
                *below,
                uncoarse(part@, level.sets()),
                next@,
                true,
            ) && next@.len() == below.graph@.len(),
            None => refined(
                *arithmetic,
                tolerance,
                *below,
                uncoarse(part@, level.sets()),
                uncoarse(part@, level.sets()),
                false,
            ),
        },
{
    let mut settings: JetPartitioner = JetPartitioner::default();
    settings.tolerance_factor = tolerance;
    assert(is_refiner(settings, tolerance));
    let mut next: Vec<usize> = partition_uncoarse(part.as_slice(), &level.vertex_mapping);
    let ghost before = next@;
    let done: bool = jet_partitioner(
        settings,
        next.as_mut_slice(),
        below.weights.as_slice(),
        &below.graph,
        arithmetic,
    );
    assert(refined(*arithmetic, tolerance, *below, before, next@, done));
    if done {
        Some(next)
    } else {
        None
    }
}

/// Partitions a graph by way of coarser ones.
///
/// `initial` partitions the coarsest graph. The partition is carried down the
/// levels and refined on each of them, but not on the graph itself. If there
/// is an error the partition is left as it was.
pub fn multilevel_partitioner<I, P, N, T, O, W, C, F, G>(
    partition: &mut [usize],
    weights: &[Double],
    graph: &Graph,
    tolerance: Double,
    initial: G,
    arithmetic: &Arithmetic<I, P, N, T, O, W, C, F>,
) -> (result: Result<(), Error>) where
    I: Fn(usize, &Vec<usize>, &[Double]) -> Double + Copy,
    P: Fn(Double, Double) -> Double + Copy,
    N: Fn(Double, Double) -> Double + Copy,
    T: Fn(Double, Double) -> Double + Copy,
    O: Fn(Double, Double) -> Double + Copy,
    W: Fn(i64) -> Double + Copy,
    C: Fn(usize) -> Double + Copy,
    F: Fn(Double) -> i64 + Copy,
    G: Fn(&Graph, &Vec<Double>) -> Vec<usize>,

    requires
        graph@.len() == old(partition)@.len(),
        graph@.len() == weights@.len(),
        fits(graph@),
        graph@.len() * SLOTS_PER_PART <= usize::MAX,
        16 * (graph@.len() + 2) <= isize::MAX,
        arithmetic.usable(),
        forall|g: &Graph, w: &Vec<Double>| call_requires(initial, (g, w)),
        forall|g: &Graph, w: &Vec<Double>, p: Vec<usize>| #[trigger]
            call_ensures(initial, (g, w), p) ==> p@.len() == g@.len(),
    ensures
        multilevel_outcome(
            *arithmetic,
            initial,
            tolerance,
            graph@,
            weights@,
            old(partition)@,
            final(partition)@,
            result,
        ),
{
    let ghost rows = graph@;
    let n: usize = graph.len();
    let ghost plus = arithmetic.plus;
    proof {
        lemma_mass_nonneg(rows);
    }
    let levels: Vec<Level> = match coarsen_repeatedly(graph, weights, arithmetic.plus) {
        None => {
            return Err(Error::NotCoarsened);
        },
        Some(levels) => levels,
    };
    assert(complete(plus, rows, weights@, levels@));
    if levels.len() < 2 {
        return Err(Error::TooFewLevels);
    }
    let mut i: usize = levels.len() - 1;
    let mut part: Vec<usize> = initial(&levels[i].graph, &levels[i].weights);
    let ghost first = part@;
    let ghost mut parts: Seq<Seq<usize>> = seq![first];
    assert(founds(initial, levels@.last(), first));
    while i > 0
        invariant
            rows == graph@,
            plus == arithmetic.plus,
            in_range(rows),
            fits(rows),
            n == rows.len(),
            rows.len() * SLOTS_PER_PART <= usize::MAX,
            16 * (rows.len() + 2) <= isize::MAX,
            arithmetic.usable(),
            partition@ == old(partition)@,
            complete(plus, rows, weights@, levels@),
            i < levels@.len(),
            founds(initial, levels@.last(), first),
            descends(*arithmetic, tolerance, levels@, first, i as int, parts),
            part@ == parts[0],
            part@.len() == levels@[i as int].graph@.len(),
        decreases i,
    {
        proof {
            lemma_ladder(plus, rows, weights@, levels@, i as int);
            lemma_ladder(plus, rows, weights@, levels@, i + 1);
            lemma_level_names(
                plus,
                rows_below(rows, levels@, i as int),
                weights_below(weights@, levels@, i as int),
                levels@[i as int],
            );
        }
        match step_down(&levels[i - 1], &levels[i], &part, tolerance, arithmetic) {
            Some(next) => {
                proof {
                    lemma_descends_further(
                        *arithmetic,
                        tolerance,
                        levels@,
                        first,
                        i as int,
                        parts,
                        next@,
                    );
                    parts = seq![next@] + parts;
                }
                part = next;
            },
            None => {
                return Err(Error::MissingEntry);
            },
        }
        i -= 1;
    }
    proof {
        lemma_ladder(plus, rows, weights@, levels@, 1);
        lemma_level_names(plus, rows, weights@, levels@[0]);
    }
    let fine: Vec<usize> = partition_uncoarse(part.as_slice(), &levels[0].vertex_mapping);
    if fine.len() != partition.len() {
        return Err(Error::SelfLoop);
    }
    let mut v: usize = 0;
    while v < partition.len()
        invariant
            v <= partition@.len(),
            partition@.len() == fine@.len(),
            forall|x: int| 0 <= x < v ==> partition@[x] == fine@[x],
        decreases partition@.len() - v,
    {
        partition[v] = fine[v];
        v += 1;
    }
    assert(partition@ == fine@);
    Ok(())
}

/// The edge cut of the result is that of the refined partition of the first
/// coarse graph: carrying it down to the graph itself does not change it. This
/// holds of undirected graphs without loops of positive weight.
pub proof fn law_result_keeps_cut<I, P, N, T, O, W, C, F, G>(
    arithmetic: Arithmetic<I, P, N, T, O, W, C, F>,
    initial: G,
    tolerance: Double,
    rows: Adjacency,
    weights: Seq<Double>,
    before: Seq<usize>,
    after: Seq<usize>,
) where
    I: Fn(usize, &Vec<usize>, &[Double]) -> Double + Copy,
    P: Fn(Double, Double) -> Double + Copy,
    N: Fn(Double, Double) -> Double + Copy,
    T: Fn(Double, Double) -> Double + Copy,
    O: Fn(Double, Double) -> Double + Copy,
    W: Fn(i64) -> Double + Copy,
    C: Fn(usize) -> Double + Copy,
    F: Fn(Double) -> i64 + Copy,
    G: Fn(&Graph, &Vec<Double>) -> Vec<usize>,

    requires
        in_range(rows),
        symmetric(rows),
        no_positive_loops(rows),
        rows.len() <= usize::MAX,
        multilevel_outcome(
            arithmetic,
            initial,
            tolerance,
            rows,
            weights,
            before,
            after,
            Ok(()),
        ),
    ensures
        exists|levels: Seq<Level>, first: Seq<usize>, parts: Seq<Seq<usize>>|
            {
                &&& #[trigger] complete(arithmetic.plus, rows, weights, levels)
                &&& #[trigger] descends(arithmetic, tolerance, levels, first, 0, parts)
                &&& cut(rows, after) == cut(levels[0].graph@, parts[0])
            },
{
    let (levels, first, parts) = choose|
        levels: Seq<Level>,
        first: Seq<usize>,
        parts: Seq<Seq<usize>>,
    |
        {
            &&& #[trigger] complete(arithmetic.plus, rows, weights, levels)
            &&& levels.len() >= 2
            &&& founds(initial, levels.last(), first)
            &&& #[trigger] descends(arithmetic, tolerance, levels, first, 0, parts)
            &&& after == uncoarse(parts[0], levels[0].sets())
            &&& after.len() == rows.len()
        };
    assert(climbs(
        arithmetic.plus,
        rows_below(rows, levels, 0),
        weights_below(weights, levels, 0),
        levels[0],
    ));
    law_level_keeps_cut(arithmetic.plus, rows, weights, levels[0], parts[0]);
}

proof fn lemma_levels_undirected<P: Fn(Double, Double) -> Double>(
    plus: P,
    rows: Adjacency,
    weights: Seq<Double>,
    levels: Seq<Level>,
    i: int,
)
    requires
        in_range(rows),
        symmetric(rows),
        positive(rows),
        rows.len() <= usize::MAX,
        ladder(plus, rows, weights, levels),
        0 <= i <= levels.len(),
    ensures
        symmetric(rows_below(rows, levels, i)),
        positive(rows_below(rows, levels, i)),
    decreases i,
{
    if i > 0 {
        lemma_levels_undirected(plus, rows, weights, levels, i - 1);
        lemma_ladder(plus, rows, weights, levels, i - 1);
        let below_rows = rows_below(rows, levels, i - 1);
        let level = levels[i - 1];
        lemma_level(plus, below_rows, weights_below(weights, levels, i - 1), level);
        let m = choose|m: SparseMatrix| #[trigger]
            condenses(below_rows, level.sets(), m@, level.graph@);
        law_coarse_is_symmetric(below_rows, level.sets(), m@, level.graph@);
        law_coarse_is_positive(below_rows, level.sets(), m@, level.graph@);
    }
}

/// The refinement of a partition on a level may come to a partition that is not
/// balanced and has no light part for a vertex that has to leave.
pub open spec fn stuck<I, P, N, T, O, W, C, F>(
    arithmetic: Arithmetic<I, P, N, T, O, W, C, F>,
    tolerance: Double,
    level: Level,
    part: Seq<usize>,
) -> bool where
    I: Fn(usize, &Vec<usize>, &[Double]) -> Double + Copy,
    P: Fn(Double, Double) -> Double + Copy,
    N: Fn(Double, Double) -> Double + Copy,
    T: Fn(Double, Double) -> Double + Copy,
    O: Fn(Double, Double) -> Double + Copy,
    W: Fn(i64) -> Double + Copy,
    C: Fn(usize) -> Double + Copy,
    F: Fn(Double) -> i64 + Copy,
 {
    exists|settings: JetPartitioner, weights: &[Double]|
        is_refiner(settings, tolerance) && weights@ == level.weights@
            && #[trigger] arithmetic.may_run_out_of_light_parts(
            settings,
            weights,
            level.graph@,
            part,
        )
}

/// In an undirected graph with positive weights the refinement only breaks off
/// on a level where a partition that is not balanced has no light part for a
/// vertex that has to leave. The run of rounds that comes to it starts from the
/// partition that was carried down to the level.
pub proof fn law_refinement_goes_through<I, P, N, T, O, W, C, F, G>(
    arithmetic: Arithmetic<I, P, N, T, O, W, C, F>,
    initial: G,
    tolerance: Double,
    rows: Adjacency,
    weights: Seq<Double>,
    before: Seq<usize>,
    after: Seq<usize>,
) where
    I: Fn(usize, &Vec<usize>, &[Double]) -> Double + Copy,
    P: Fn(Double, Double) -> Double + Copy,
    N: Fn(Double, Double) -> Double + Copy,
    T: Fn(Double, Double) -> Double + Copy,
    O: Fn(Double, Double) -> Double + Copy,
    W: Fn(i64) -> Double + Copy,
    C: Fn(usize) -> Double + Copy,
    F: Fn(Double) -> i64 + Copy,
    G: Fn(&Graph, &Vec<Double>) -> Vec<usize>,

    requires
        in_range(rows),
        symmetric(rows),
        positive(rows),
        rows.len() <= usize::MAX,
        multilevel_outcome(
            arithmetic,
            initial,
            tolerance,
            rows,
            weights,
            before,
            after,
            Err(Error::MissingEntry),
        ),
    ensures
        exists|levels: Seq<Level>, first: Seq<usize>, i: int, parts: Seq<Seq<usize>>|
            {
                &&& #[trigger] complete(arithmetic.plus, rows, weights, levels)
                &&& 1 <= i < levels.len()
                &&& founds(initial, levels.last(), first)
                &&& #[trigger] descends(arithmetic, tolerance, levels, first, i, parts)
                &&& stuck(
                    arithmetic,
                    tolerance,
                    levels[i - 1],
                    uncoarse(parts[0], levels[i].sets()),
                )
            },
{
    let (levels, first, i, parts) = choose|
        levels: Seq<Level>,
        first: Seq<usize>,
        i: int,
        parts: Seq<Seq<usize>>,
    |
        {
            &&& #[trigger] complete(arithmetic.plus, rows, weights, levels)
            &&& 1 <= i < levels.len()
            &&& founds(initial, levels.last(), first)
            &&& #[trigger] descends(arithmetic, tolerance, levels, first, i, parts)
            &&& refined(
                arithmetic,
                tolerance,
                levels[i - 1],
                uncoarse(parts[0], levels[i].sets()),
                uncoarse(parts[0], levels[i].sets()),
                false,
            )
        };
    let carried = uncoarse(parts[0], levels[i].sets());
    let level = levels[i - 1];
    let (settings, level_weights) = choose|settings: JetPartitioner, w: &[Double]|
        is_refiner(settings, tolerance) && w@ == level.weights@ && #[trigger] arithmetic.outcome(
            settings,
            w,
            level.graph@,
            carried,
            carried,
            false,
        );
    lemma_levels_undirected(arithmetic.plus, rows, weights, levels, i);
    lemma_ladder(arithmetic.plus, rows, weights, levels, i);
    lemma_level(
        arithmetic.plus,
        rows_below(rows, levels, i),
        weights_below(weights, levels, i),
        levels[i],
    );
    law_uncoarse_follows_groups(parts[0], levels[i].sets(), level.graph@.len());
    arithmetic.law_rounds_go_through(
        settings,
        level_weights,
        level.graph@,
        carried,
        carried,
        false,
    );
    assert(stuck(arithmetic, tolerance, level, carried));
}

/// Whatever it is given, the first partition numbers its parts below a limit.
pub open spec fn founds_below<G: Fn(&Graph, &Vec<Double>) -> Vec<usize>>(
    initial: G,
    limit: usize,
) -> bool {
    forall|g: &Graph, w: &Vec<Double>, p: Vec<usize>| #[trigger]
        call_ensures(initial, (g, w), p) ==> below(p@, limit)
}

proof fn lemma_uncoarse_within(part: Seq<usize>, sets: Seq<Seq<usize>>, n: nat)
    requires
        partitions_vertices(sets, n),
        sets.len() <= part.len(),
        uncoarse(part, sets).len() == n,
    ensures
        within(uncoarse(part, sets), part),
{
    let fine = uncoarse(part, sets);
    assert forall|v: int| 0 <= v < fine.len() implies part.contains(#[trigger] fine[v]) by {
        lemma_holder(sets, n, v);
        assert(part[holder(sets, v)] == fine[v]);
    }
}

/// What a partition keeps of the first one on its way down: no part is new if
/// the first one is gapless, and its parts stay below every limit.
pub open spec fn descends_from(first: Seq<usize>, part: Seq<usize>) -> bool {
    &&& gapless(first) ==> within(part, first)
    &&& forall|limit: usize| #[trigger] below(first, limit) ==> below(part, limit)
}

proof fn lemma_refined_descends<I, P, N, T, O, W, C, F>(
    arithmetic: Arithmetic<I, P, N, T, O, W, C, F>,
    tolerance: Double,
    level: Level,
    first: Seq<usize>,
    before: Seq<usize>,
    after: Seq<usize>,
) where
    I: Fn(usize, &Vec<usize>, &[Double]) -> Double + Copy,
    P: Fn(Double, Double) -> Double + Copy,
    N: Fn(Double, Double) -> Double + Copy,
    T: Fn(Double, Double) -> Double + Copy,
    O: Fn(Double, Double) -> Double + Copy,
    W: Fn(i64) -> Double + Copy,
    C: Fn(usize) -> Double + Copy,
    F: Fn(Double) -> i64 + Copy,

    requires
        level.graph@.len() == before.len(),
        before.len() <= usize::MAX,
        refined(arithmetic, tolerance, level, before, after, true),
        descends_from(first, before),
    ensures
        after.len() == before.len(),
        descends_from(first, after),
{
    let (settings, weights) = choose|settings: JetPartitioner, weights: &[Double]|
        is_refiner(settings, tolerance) && weights@ == level.weights@
            && #[trigger] arithmetic.outcome(
            settings,
            weights,
            level.graph@,
            before,
            after,
            true,
        );
    arithmetic.law_outcome_makes_up_no_parts(
        settings,
        weights,
        level.graph@,
        before,
        after,
        true,
    );
    if gapless(first) {
        first.lemma_cardinality_of_set();
        assert(before.to_set().subset_of(first.to_set())) by {
            assert forall|p: usize| #[trigger] before.to_set().contains(
                p,
            ) implies first.to_set().contains(p) by {
                let v = choose|v: int| 0 <= v < before.len() && before[v] == p;
                assert(first.contains(before[v]));
            }
        }
        lemma_len_subset(before.to_set(), first.to_set());
        assert forall|v: int| 0 <= v < after.len() implies first.contains(#[trigger] after[v]) by {
            if before.contains(after[v]) {
                let u = choose|u: int| 0 <= u < before.len() && before[u] == after[v];
                assert(first.contains(before[u]));
            } else {
                assert(after[v] < before.to_set().len());
            }
        }
    }
}

proof fn lemma_descends_from<I, P, N, T, O, W, C, F>(
    arithmetic: Arithmetic<I, P, N, T, O, W, C, F>,
    tolerance: Double,
    rows: Adjacency,
    weights: Seq<Double>,
    levels: Seq<Level>,
    first: Seq<usize>,
    parts: Seq<Seq<usize>>,
    j: int,
) where
    I: Fn(usize, &Vec<usize>, &[Double]) -> Double + Copy,
    P: Fn(Double, Double) -> Double + Copy,
    N: Fn(Double, Double) -> Double + Copy,
    T: Fn(Double, Double) -> Double + Copy,
    O: Fn(Double, Double) -> Double + Copy,
    W: Fn(i64) -> Double + Copy,
    C: Fn(usize) -> Double + Copy,
    F: Fn(Double) -> i64 + Copy,

    requires
        in_range(rows),
        rows.len() <= usize::MAX,
        ladder(arithmetic.plus, rows, weights, levels),
        descends(arithmetic, tolerance, levels, first, 0, parts),
        first.len() == levels.last().graph@.len(),
        0 <= j < parts.len(),
    ensures
        parts[j].len() == levels[j].graph@.len(),
        descends_from(first, parts[j]),
    decreases parts.len() - j,
{
    if j == parts.len() - 1 {
        assert(within(first, first));
    } else {
        lemma_descends_from(
            arithmetic,
            tolerance,
            rows,
            weights,
            levels,
            first,
            parts,
            j + 1,
        );
        assert(descends_at(arithmetic, tolerance, levels, 0, parts, j));
        lemma_ladder(arithmetic.plus, rows, weights, levels, j + 1);
        let below_rows = rows_below(rows, levels, j + 1);
        let level = levels[j + 1];
        lemma_level(
            arithmetic.plus,
            below_rows,
            weights_below(weights, levels, j + 1),
            level,
        );
        law_uncoarse_follows_groups(parts[j + 1], level.sets(), below_rows.len());
        lemma_uncoarse_within(parts[j + 1], level.sets(), below_rows.len());
        let before = uncoarse(parts[j + 1], level.sets());
        lemma_within_descends(first, parts[j + 1], before);
        lemma_refined_descends(arithmetic, tolerance, levels[j], first, before, parts[j]);
    }
}

proof fn lemma_within_descends(first: Seq<usize>, part: Seq<usize>, later: Seq<usize>)
    requires
        descends_from(first, part),
        within(later, part),
    ensures
        descends_from(first, later),
{
    assert forall|v: int| 0 <= v < later.len() implies exists|u: int|
        0 <= u < part.len() && part[u] == #[trigger] later[v] by {
        assert(part.contains(later[v]));
    }
    if gapless(first) {
        assert forall|v: int| 0 <= v < later.len() implies first.contains(#[trigger] later[v]) by {
            let u = choose|u: int| 0 <= u < part.len() && part[u] == later[v];
            assert(first.contains(part[u]));
        }
    }
    assert forall|limit: usize| #[trigger] below(first, limit) implies below(later, limit) by {
        assert(below(part, limit));
        assert forall|v: int| 0 <= v < later.len() implies #[trigger] later[v] < limit by {
            let u = choose|u: int| 0 <= u < part.len() && part[u] == later[v];
            assert(part[u] < limit);
        }
    }
}

/// The partitioner makes up no parts: if the first partition, of the coarsest
/// graph, numbers its parts without a gap, every part of the result occurs
/// there, and parts numbered below a limit stay below it. So a bisection stays
/// one.
pub proof fn law_result_makes_up_no_parts<I, P, N, T, O, W, C, F, G>(
    arithmetic: Arithmetic<I, P, N, T, O, W, C, F>,
    initial: G,
    tolerance: Double,
    rows: Adjacency,
    weights: Seq<Double>,
    before: Seq<usize>,
    after: Seq<usize>,
) where
    I: Fn(usize, &Vec<usize>, &[Double]) -> Double + Copy,
    P: Fn(Double, Double) -> Double + Copy,
    N: Fn(Double, Double) -> Double + Copy,
    T: Fn(Double, Double) -> Double + Copy,
    O: Fn(Double, Double) -> Double + Copy,
    W: Fn(i64) -> Double + Copy,
    C: Fn(usize) -> Double + Copy,
    F: Fn(Double) -> i64 + Copy,
    G: Fn(&Graph, &Vec<Double>) -> Vec<usize>,

    requires
        in_range(rows),
        rows.len() <= usize::MAX,
        forall|g: &Graph, w: &Vec<Double>, p: Vec<usize>| #[trigger]
            call_ensures(initial, (g, w), p) ==> p@.len() == g@.len(),
        multilevel_outcome(
            arithmetic,
            initial,
            tolerance,
            rows,
            weights,
            before,
            after,
            Ok(()),
        ),
    ensures
        exists|levels: Seq<Level>, first: Seq<usize>|
            {
                &&& #[trigger] complete(arithmetic.plus, rows, weights, levels)
                &&& #[trigger] founds(initial, levels.last(), first)
                &&& gapless(first) ==> within(after, first)
                &&& forall|limit: usize| #[trigger] below(first, limit) ==> below(after, limit)
            },
        forall|limit: usize| #[trigger] founds_below(initial, limit) ==> below(after, limit),
{
    let (levels, first, parts) = choose|
        levels: Seq<Level>,
        first: Seq<usize>,
        parts: Seq<Seq<usize>>,
    |
        {
            &&& #[trigger] complete(arithmetic.plus, rows, weights, levels)
            &&& levels.len() >= 2
            &&& founds(initial, levels.last(), first)
            &&& #[trigger] descends(arithmetic, tolerance, levels, first, 0, parts)
            &&& after == uncoarse(parts[0], levels[0].sets())
            &&& after.len() == rows.len()
        };
    let p = choose|p: Vec<usize>|
        p@ == first && #[trigger] call_ensures(
            initial,
            (&levels.last().graph, &levels.last().weights),
            p,
        );
    assert(call_ensures(initial, (&levels.last().graph, &levels.last().weights), p));
    lemma_descends_from(arithmetic, tolerance, rows, weights, levels, first, parts, 0);
    assert(climbs(
        arithmetic.plus,
        rows_below(rows, levels, 0),
        weights_below(weights, levels, 0),
        levels[0],
    ));
    lemma_level(arithmetic.plus, rows, weights, levels[0]);
    lemma_uncoarse_within(parts[0], levels[0].sets(), rows.len());
    lemma_within_descends(first, parts[0], after);
    assert forall|limit: usize| #[trigger] founds_below(initial, limit) implies below(
        after,
        limit,
    ) by {
        assert(below(first, limit));
    }
}

proof fn lemma_mass_nonneg(rows: Adjacency)
    ensures
        mass(rows) >= 0,
{
    let f = |v: int| row_mass(rows, v);
    assert forall|v: int| 0 <= v < rows.len() implies #[trigger] f(v) >= 0 by {
        lemma_row_mass(rows, v);
    }
    lemma_total_nonneg(rows.len() as int, f);
    assert(mass(rows) == total(rows.len() as int, f));
}

impl MultiLevelPartitioner {
    /// Partitions a graph with these settings.
    ///
    /// `geometric` and `bisection` are two ways to partition the coarsest graph,
    /// by a separating circle and by the median of a coordinate. The one that
    /// the settings ask for is used. The partition, the vertex weights and the
    /// graph have to be about the same number of vertices.
    pub fn partition<I, P, N, T, O, W, C, F, G, B>(
        &self,
        part_ids: &mut [usize],
        graph: &Graph,
        weights: &[Double],
        geometric: G,
        bisection: B,
        arithmetic: &Arithmetic<I, P, N, T, O, W, C, F>,
    ) -> (result: Result<(), Error>) where
        I: Fn(usize, &Vec<usize>, &[Double]) -> Double + Copy,
        P: Fn(Double, Double) -> Double + Copy,
        N: Fn(Double, Double) -> Double + Copy,
        T: Fn(Double, Double) -> Double + Copy,
        O: Fn(Double, Double) -> Double + Copy,
        W: Fn(i64) -> Double + Copy,
        C: Fn(usize) -> Double + Copy,
        F: Fn(Double) -> i64 + Copy,
        G: Fn(&Graph, &Vec<Double>) -> Vec<usize>,
        B: Fn(&Graph, &Vec<Double>) -> Vec<usize>,

        requires
            length_verdict(
                old(part_ids)@.len() as int,
                weights@.len() as int,
                graph@.len() as int,
            ) is Ok ==> {
                &&& fits(graph@)
                &&& graph@.len() * SLOTS_PER_PART <= usize::MAX
                &&& 16 * (graph@.len() + 2) <= isize::MAX
                &&& arithmetic.usable()
                &&& forall|g: &Graph, w: &Vec<Double>| call_requires(geometric, (g, w))
                &&& forall|g: &Graph, w: &Vec<Double>, p: Vec<usize>| #[trigger]
                    call_ensures(geometric, (g, w), p) ==> p@.len() == g@.len()
                &&& forall|g: &Graph, w: &Vec<Double>| call_requires(bisection, (g, w))
                &&& forall|g: &Graph, w: &Vec<Double>, p: Vec<usize>| #[trigger]
                    call_ensures(bisection, (g, w), p) ==> p@.len() == g@.len()
            },
        ensures
            match length_verdict(
                old(part_ids)@.len() as int,
                weights@.len() as int,
                graph@.len() as int,
            ) {
                Err(e) => result == Err::<(), Error>(e) && final(part_ids)@ == old(part_ids)@,
                Ok(_) => match self.initial_partitioner {
                    InitialPartitioner::GeometricPartitioner => multilevel_outcome(
                        *arithmetic,
                        geometric,
                        self.tolerance,
                        graph@,
                        weights@,
                        old(part_ids)@,
                        final(part_ids)@,
                        result,
                    ),
                    InitialPartitioner::RecursiveCoordinateBisection => multilevel_outcome(
                        *arithmetic,
                        bisection,
                        self.tolerance,
                        graph@,
                        weights@,
                        old(part_ids)@,
                        final(part_ids)@,
                        result,
                    ),
                },
            },
    {
        match check_lengths(part_ids.len(), weights.len(), graph.len()) {
            Err(e) => Err(e),
            Ok(_) => match self.initial_partitioner {
                InitialPartitioner::GeometricPartitioner => multilevel_partitioner(
                    part_ids,
                    weights,
                    graph,
                    self.tolerance,
                    geometric,
                    arithmetic,
                ),
                InitialPartitioner::RecursiveCoordinateBisection => multilevel_partitioner(
                    part_ids,
                    weights,
                    graph,
                    self.tolerance,
                    bisection,
                    arithmetic,
                ),
            },
        }
    }
}

} // verus!
