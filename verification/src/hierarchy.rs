//! A ladder of coarser and coarser graphs.

use crate::coarsen::{
    coarsen, coarsens, heavy_edge_matching_coarse, last_joined, lemma_matching_complete,
    lemma_shuffle_visits_all, list_ascending, visits_all,
};
use crate::double::Double;
use crate::matching::{law_matching_is_proper, lemma_all_named, matching, proper};
use crate::matrix::{are_rows_of, column_count, row_count, SparseMatrix};
use crate::projection::{
    condenses, law_coarse_is_loop_free, law_coarse_is_symmetric, law_coarse_weighs_no_more,
    law_first_edge_shrinks, law_uncoarse_keeps_cut, partitions_vertices,
};
use crate::random::shuffle_with_entropy;
use crate::topology::{
    cut, in_range, loop_free, mass, no_positive_loops, symmetric, Adjacency, Graph,
};
use crate::uncoarsen::{groups, named, names_fit, uncoarse};
use vstd::prelude::*;

verus! {

/// A graph with at most this many vertices is not coarsened any further.
pub const COARSE_ENOUGH: usize = 100;

/// A coarse graph and how it comes from the graph one level below.
pub struct Level {
    /// The coarse graph.
    pub graph: Graph,
    /// For each vertex of the coarse graph, the vertices below that it stands
    /// for.
    pub vertex_mapping: Vec<Vec<usize>>,
    /// The weights of the vertices of the coarse graph.
    pub weights: Vec<Double>,
}

impl Level {
    /// The vertices below that each vertex of the coarse graph stands for.
    pub open spec fn sets(&self) -> Seq<Seq<usize>> {
        groups(self.vertex_mapping@)
    }
}

/// The level is what coarsening makes of a graph, with its vertices visited in
/// some order.
#[verifier::opaque]
pub open spec fn climbs<P: Fn(Double, Double) -> Double>(
    plus: P,
    rows: Adjacency,
    weights: Seq<Double>,
    level: Level,
) -> bool {
    exists|order: Seq<usize>, m: SparseMatrix|
        {
            &&& #[trigger] visits_all(order, rows.len())
            &&& #[trigger] coarsens(
                plus,
                rows,
                weights,
                order,
                m,
                level.sets(),
                level.weights@,
            )
            &&& column_count(m) == row_count(m)
            &&& level.graph@.len() == row_count(m)
            &&& in_range(level.graph@)
            &&& are_rows_of(m@, level.graph@)
        }
}

/// For some order of its vertices the graph cannot be coarsened: the last
/// group has no edge to another one, or the matrix of the coarse graph is not
/// square.
#[verifier::opaque]
pub open spec fn jams<P: Fn(Double, Double) -> Double>(
    plus: P,
    rows: Adjacency,
    weights: Seq<Double>,
) -> bool {
    exists|order: Seq<usize>| #[trigger]
        visits_all(order, rows.len()) && (!last_joined(
            rows,
            matching(rows, order, order.len() as int),
        ) || exists|m: SparseMatrix, sets: Seq<Seq<usize>>, coarse_weights: Seq<Double>| #[trigger]
            coarsens(plus, rows, weights, order, m, sets, coarse_weights) && column_count(m)
                != row_count(m))
}

/// Some edge of a list has a positive weight.
pub open spec fn lively(row: Seq<(usize, i64)>) -> bool {
    exists|k: int| 0 <= k < row.len() && (#[trigger] row[k]).1 > 0
}

/// No edge has a positive weight, so that no order of the vertices pairs two of
/// them.
pub open spec fn barren(rows: Adjacency) -> bool {
    forall|v: int, k: int|
        0 <= v < rows.len() && 0 <= k < rows[v].len() ==> (#[trigger] rows[v][k]).1 <= 0
}

/// The graph that level number `i` comes from.
pub open spec fn rows_below(rows: Adjacency, levels: Seq<Level>, i: int) -> Adjacency {
    if i <= 0 {
        rows
    } else {
        levels[i - 1].graph@
    }
}

/// The vertex weights of the graph that level number `i` comes from.
pub open spec fn weights_below(weights: Seq<Double>, levels: Seq<Level>, i: int) -> Seq<Double> {
    if i <= 0 {
        weights
    } else {
        levels[i - 1].weights@
    }
}

/// Each level comes from the one below it, the first from the given graph, and
/// only graphs that are not coarse enough are coarsened.
pub open spec fn ladder<P: Fn(Double, Double) -> Double>(
    plus: P,
    rows: Adjacency,
    weights: Seq<Double>,
    levels: Seq<Level>,
) -> bool {
    forall|i: int|
        0 <= i < levels.len() ==> rows_below(rows, levels, i).len() > COARSE_ENOUGH && climbs(
            plus,
            rows_below(rows, levels, i),
            weights_below(weights, levels, i),
            #[trigger] levels[i],
        )
}

/// The ladder may end early: its top is not coarse enough, and it cannot be
/// coarsened, or it is a coarse graph itself that no coarsening ever makes
/// smaller.
pub open spec fn ends_early<P: Fn(Double, Double) -> Double>(
    plus: P,
    rows: Adjacency,
    weights: Seq<Double>,
    levels: Seq<Level>,
) -> bool {
    let top = rows_below(rows, levels, levels.len() as int);
    let top_weights = weights_below(weights, levels, levels.len() as int);
    &&& ladder(plus, rows, weights, levels)
    &&& top.len() > COARSE_ENOUGH
    &&& jams(plus, top, top_weights) || (levels.len() > 0 && barren(top))
}

/// What holds of every level: its groups partition the vertices below, it has
/// a vertex for each group, it has no loops and it is neither larger nor
/// heavier than the graph below.
pub proof fn lemma_level<P: Fn(Double, Double) -> Double>(
    plus: P,
    rows: Adjacency,
    weights: Seq<Double>,
    level: Level,
)
    requires
        in_range(rows),
        rows.len() <= usize::MAX,
        climbs(plus, rows, weights, level),
    ensures
        partitions_vertices(level.sets(), rows.len()),
        level.graph@.len() == level.sets().len(),
        level.weights@.len() == level.graph@.len(),
        level.graph@.len() <= rows.len(),
        in_range(level.graph@),
        loop_free(level.graph@),
        mass(level.graph@) <= mass(rows),
        no_positive_loops(rows) ==> proper(level.sets()),
        exists|m: SparseMatrix| #[trigger] condenses(rows, level.sets(), m@, level.graph@),
{
    reveal(climbs);
    let (order, m) = choose|order: Seq<usize>, m: SparseMatrix|
        {
            &&& #[trigger] visits_all(order, rows.len())
            &&& #[trigger] coarsens(
                plus,
                rows,
                weights,
                order,
                m,
                level.sets(),
                level.weights@,
            )
            &&& column_count(m) == row_count(m)
            &&& level.graph@.len() == row_count(m)
            &&& in_range(level.graph@)
            &&& are_rows_of(m@, level.graph@)
        };
    lemma_matching_complete(rows, order);
    assert(condenses(rows, level.sets(), m@, level.graph@));
    law_coarse_is_loop_free(rows, level.sets(), m@, level.graph@);
    law_coarse_weighs_no_more(rows, level.sets(), m@, level.graph@);
    if no_positive_loops(rows) {
        law_matching_is_proper(rows, order, order.len() as int);
    }
}

/// The groups of a level name few enough vertices for a partition to be
/// carried over.
pub proof fn lemma_level_names<P: Fn(Double, Double) -> Double>(
    plus: P,
    rows: Adjacency,
    weights: Seq<Double>,
    level: Level,
)
    requires
        in_range(rows),
        2 * rows.len() <= usize::MAX,
        climbs(plus, rows, weights, level),
    ensures
        names_fit(level.sets()),
        named(level.sets(), level.sets().len() as int) <= usize::MAX,
        no_positive_loops(rows) ==> named(level.sets(), level.sets().len() as int)
            == rows.len(),
{
    lemma_level(plus, rows, weights, level);
    let sets = level.sets();
    lemma_all_named(sets, rows.len() as int);
    assert forall|c: int, i: int| 0 <= c < sets.len() && 0 <= i < sets[c].len() implies (
    #[trigger] sets[c][i]) < named(sets, sets.len() as int) by {
        assert(sets[c].contains(sets[c][i]));
    }
}

/// Carrying a partition down one level keeps its edge cut, and the level is
/// undirected if the graph below is. This holds of undirected graphs without
/// loops of positive weight.
pub proof fn law_level_keeps_cut<P: Fn(Double, Double) -> Double>(
    plus: P,
    rows: Adjacency,
    weights: Seq<Double>,
    level: Level,
    part: Seq<usize>,
)
    requires
        in_range(rows),
        symmetric(rows),
        no_positive_loops(rows),
        rows.len() <= usize::MAX,
        climbs(plus, rows, weights, level),
    ensures
        cut(rows, uncoarse(part, level.sets())) == cut(level.graph@, part),
        symmetric(level.graph@),
{
    lemma_level(plus, rows, weights, level);
    let m = choose|m: SparseMatrix| #[trigger]
        condenses(rows, level.sets(), m@, level.graph@);
    law_uncoarse_keeps_cut(rows, level.sets(), m@, level.graph@, part);
    law_coarse_is_symmetric(rows, level.sets(), m@, level.graph@);
}

/// The first vertex with an edge of positive weight.
fn first_with_positive_edge(graph: &Graph) -> (result: Option<usize>)
    ensures
        match result {
            Some(v) => v < graph@.len() && lively(graph@[v as int]),
            None => barren(graph@),
        },
{
    let mut v: usize = 0;
    while v < graph.len()
        invariant
            v <= graph@.len(),
            forall|x: int, k: int|
                0 <= x < v && 0 <= k < graph@[x].len() ==> (#[trigger] graph@[x][k]).1 <= 0,
        decreases graph@.len() - v,
    {
        let row: &Vec<(usize, i64)> = graph.neighbors(v);
        let mut k: usize = 0;
        while k < row.len()
            invariant
                v < graph@.len(),
                row@ == graph@[v as int],
                k <= row@.len(),
                forall|j: int| 0 <= j < k ==> (#[trigger] graph@[v as int][j]).1 <= 0,
            decreases row@.len() - k,
        {
            if row[k].1 > 0 {
                assert(row@[k as int].1 > 0);
                assert(lively(graph@[v as int]));
                return Some(v);
            }
            k += 1;
        }
        v += 1;
    }
    None
}

/// A random order of the vertices below `n` that begins with `v`.
fn order_from(n: usize, v: usize) -> (order: Vec<usize>)
    requires
        v < n,
    ensures
        visits_all(order@, n as nat),
        order@[0] == v,
{
    let mut order: Vec<usize> = list_ascending(n);
    shuffle_with_entropy(&mut order);
    proof {
        lemma_shuffle_visits_all(order@, n as nat);
        assert(order@.contains(v));
    }
    let ghost drawn = order@;
    let mut p: usize = 0;
    while order[p] != v
        invariant
            order@ == drawn,
            drawn.contains(v),
            p < drawn.len() == n,
            forall|i: int| 0 <= i < p ==> drawn[i] != v,
        decreases drawn.len() - p,
    {
        proof {
            let i = choose|i: int| 0 <= i < drawn.len() && drawn[i] == v;
            assert(p < i);
        }
        p += 1;
    }
    let first: usize = order[0];
    order.set(p, first);
    order.set(0, v);
    proof {
        assert forall|x: usize| x < n implies #[trigger] order@.contains(x) by {
            assert(drawn.contains(x));
            let i = choose|i: int| 0 <= i < drawn.len() && drawn[i] == x;
            if i == 0 {
                assert(order@[p as int] == x);
            } else if i == p {
                assert(order@[0] == x);
            } else {
                assert(order@[i] == x);
            }
        }
    }
    order
}

/// Coarsens a graph once, visiting its vertices in a random order; `first` can
/// be set to a vertex with an edge of positive weight that the order begins
/// with.
fn climb<P: Fn(Double, Double) -> Double + Copy>(
    graph: &Graph,
    weights: &[Double],
    plus: P,
    first: Option<usize>,
) -> (result: Option<Level>)
    requires
        graph@.len() <= weights@.len(),
        mass(graph@) <= i64::MAX,
        16 * (graph@.len() + 2) <= isize::MAX,
        forall|a: Double, b: Double| call_requires(plus, (a, b)),
        first matches Some(v) ==> {
            &&& no_positive_loops(graph@)
            &&& v < graph@.len()
            &&& lively(graph@[v as int])
        },
    ensures
        match result {
            Some(level) => climbs(plus, graph@, weights@, level) && (first is Some
                ==> level.graph@.len() < graph@.len()),
            None => jams(plus, graph@, weights@),
        },
{
    proof {
        reveal(climbs);
        reveal(jams);
    }
    let n: usize = graph.len();
    let coarse: Option<(SparseMatrix, Vec<Vec<usize>>, Vec<Double>)> = match first {
        None => heavy_edge_matching_coarse(graph, None, weights, plus),
        Some(v) => {
            let order: Vec<usize> = order_from(n, v);
            proof {
                let row = graph@[v as int];
                let k = choose|k: int| 0 <= k < row.len() && (#[trigger] row[k]).1 > 0;
                law_first_edge_shrinks(graph@, order@, k);
            }
            coarsen(graph, order.as_slice(), weights, plus)
        },
    };
    match coarse {
        None => None,
        Some((m, vertex_mapping, coarse_weights)) => {
            let ghost sets = groups(vertex_mapping@);
            let ghost order = choose|order: Seq<usize>| #[trigger]
                visits_all(order, graph@.len()) && coarsens(
                    plus,
                    graph@,
                    weights@,
                    order,
                    m,
                    sets,
                    coarse_weights@,
                );
            assert(coarsens(plus, graph@, weights@, order, m, sets, coarse_weights@));
            match Graph::from_matrix(&m) {
                None => None,
                Some(coarse) => {
                    let level: Level = Level {
                        graph: coarse,
                        vertex_mapping,
                        weights: coarse_weights,
                    };
                    assert(coarsens(
                        plus,
                        graph@,
                        weights@,
                        order,
                        m,
                        level.sets(),
                        level.weights@,
                    ));
                    Some(level)
                },
            }
        },
    }
}

proof fn lemma_ladder_grows<P: Fn(Double, Double) -> Double>(
    plus: P,
    rows: Adjacency,
    weights: Seq<Double>,
    levels: Seq<Level>,
    level: Level,
)
    requires
        ladder(plus, rows, weights, levels),
        rows_below(rows, levels, levels.len() as int).len() > COARSE_ENOUGH,
        climbs(
            plus,
            rows_below(rows, levels, levels.len() as int),
            weights_below(weights, levels, levels.len() as int),
            level,
        ),
    ensures
        ladder(plus, rows, weights, levels.push(level)),
{
    let taller = levels.push(level);
    assert forall|i: int| 0 <= i < taller.len() implies rows_below(rows, taller, i).len()
        > COARSE_ENOUGH && climbs(
        plus,
        rows_below(rows, taller, i),
        weights_below(weights, taller, i),
        #[trigger] taller[i],
    ) by {
        assert(rows_below(rows, taller, i) == rows_below(rows, levels, i));
        assert(weights_below(weights, taller, i) == weights_below(weights, levels, i));
        if i < levels.len() {
            assert(taller[i] == levels[i]);
        }
    }
}

/// Coarsens a graph again and again until it is coarse enough.
///
/// A coarsening that leaves a graph as large as it was is followed by another
/// one, in another order. There is no result if a graph cannot be coarsened, or
/// if no coarsening could ever make a coarse graph smaller.
pub fn coarsen_repeatedly<P: Fn(Double, Double) -> Double + Copy>(
    graph: &Graph,
    weights: &[Double],
    plus: P,
) -> (result: Option<Vec<Level>>)
    requires
        graph@.len() <= weights@.len(),
        mass(graph@) <= i64::MAX,
        16 * (graph@.len() + 2) <= isize::MAX,
        forall|a: Double, b: Double| call_requires(plus, (a, b)),
    ensures
        match result {
            Some(levels) => ladder(plus, graph@, weights@, levels@) && rows_below(
                graph@,
                levels@,
                levels@.len() as int,
            ).len() <= COARSE_ENOUGH,
            None => exists|levels: Seq<Level>| #[trigger]
                ends_early(plus, graph@, weights@, levels),
        },
{
    let ghost rows = graph@;
    let mut levels: Vec<Level> = Vec::new();
    let mut size: usize = graph.len();
    let mut stalled: bool = false;
    while size > COARSE_ENOUGH
        invariant
            rows == graph@,
            in_range(rows),
            graph@.len() <= weights@.len(),
            mass(graph@) <= i64::MAX,
            16 * (graph@.len() + 2) <= isize::MAX,
            forall|a: Double, b: Double| call_requires(plus, (a, b)),
            ladder(plus, rows, weights@, levels@),
            size == rows_below(rows, levels@, levels@.len() as int).len(),
            size <= rows.len(),
            in_range(rows_below(rows, levels@, levels@.len() as int)),
            size <= weights_below(weights@, levels@, levels@.len() as int).len(),
            mass(rows_below(rows, levels@, levels@.len() as int)) <= mass(rows),
            levels@.len() > 0 ==> loop_free(rows_below(rows, levels@, levels@.len() as int)),
            stalled ==> levels@.len() > 0,
        decreases
                size,
                if stalled {
                    0int
                } else {
                    1
                },
    {
        let ghost below = rows_below(rows, levels@, levels@.len() as int);
        let ghost below_weights = weights_below(weights@, levels@, levels@.len() as int);
        let step: Option<Level> = if levels.len() == 0 {
            climb(graph, weights, plus, None)
        } else {
            let top: &Level = &levels[levels.len() - 1];
            let first: Option<usize> = if stalled {
                match first_with_positive_edge(&top.graph) {
                    None => {
                        assert(ends_early(plus, rows, weights@, levels@));
                        return None;
                    },
                    Some(v) => Some(v),
                }
            } else {
                None
            };
            climb(&top.graph, top.weights.as_slice(), plus, first)
        };
        match step {
            None => {
                assert(ends_early(plus, rows, weights@, levels@));
                return None;
            },
            Some(level) => {
                proof {
                    lemma_level(plus, below, below_weights, level);
                }
                let next: usize = level.graph.len();
                proof {
                    lemma_ladder_grows(plus, rows, weights@, levels@, level);
                }
                levels.push(level);
                stalled = next >= size;
                size = next;
            },
        }
    }
    Some(levels)
}

} // verus!
