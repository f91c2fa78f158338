//! What a coarser graph is made of: groups of vertices, the edges between them and
//! what they weigh.

use crate::coarsen::{
    coarsens, holder, into_term, joined, last_joined, lemma_matching_complete, merged,
    merged_term, merges, visits_all,
};
use crate::double::Double;
use crate::greedy::{is_greedy, law_matching_is_greedy};
use crate::hierarchy::{climbs, jams, lemma_level, Level};
use crate::matching::matching;
use crate::matrix::{are_rows_of, column_count, law_graph_has_the_entries, row_count, SparseMatrix};
use crate::projection::{lemma_holder, partitions_vertices};
use crate::topology::{between, in_range, names, Adjacency};
use crate::total::{lemma_total_ext, total};
use crate::weights::{sums_to, weights_of};
use vstd::prelude::*;

verus! {

/// Some edge leads from a vertex of group `a` to a vertex of group `b`.
pub open spec fn links(rows: Adjacency, sets: Seq<Seq<usize>>, a: int, b: int) -> bool {
    exists|v: int, k: int|
        0 <= v < rows.len() && 0 <= k < rows[v].len() && sets[a].contains(v as usize)
            && sets[b].contains((#[trigger] rows[v][k]).0)
}

/// The weight of all edges from vertices of group `a` to vertices of group `b`.
pub open spec fn across(rows: Adjacency, sets: Seq<Seq<usize>>, a: int, b: int) -> int {
    total(
        rows.len() as int,
        |v: int|
            if sets[a].contains(v as usize) {
                total(
                    rows[v].len() as int,
                    |k: int|
                        if sets[b].contains(rows[v][k].0) {
                            rows[v][k].1 as int
                        } else {
                            0
                        },
                )
            } else {
                0
            },
    )
}

proof fn lemma_member(sets: Seq<Seq<usize>>, n: nat, v: int, a: int)
    requires
        partitions_vertices(sets, n),
        0 <= v < n,
    ensures
        holder(sets, v) == a <==> 0 <= a < sets.len() && sets[a].contains(v as usize),
{
    lemma_holder(sets, n, v);
}

proof fn lemma_joined_links(rows: Adjacency, sets: Seq<Seq<usize>>, a: int, b: int)
    requires
        in_range(rows),
        partitions_vertices(sets, rows.len()),
    ensures
        joined(rows, sets, a, b) <==> 0 <= a < sets.len() && 0 <= b < sets.len() && links(
            rows,
            sets,
            a,
            b,
        ),
{
    if joined(rows, sets, a, b) {
        let (v, k) = choose|v: int, k: int|
            0 <= v < rows.len() && 0 <= k < rows[v].len() && holder(sets, v) == a && holder(
                sets,
                (#[trigger] rows[v][k]).0 as int,
            ) == b;
        lemma_member(sets, rows.len(), v, a);
        lemma_member(sets, rows.len(), rows[v][k].0 as int, b);
        assert(sets[b].contains(rows[v][k].0));
    }
    if 0 <= a < sets.len() && 0 <= b < sets.len() && links(rows, sets, a, b) {
        let (v, k) = choose|v: int, k: int|
            0 <= v < rows.len() && 0 <= k < rows[v].len() && sets[a].contains(v as usize)
                && sets[b].contains((#[trigger] rows[v][k]).0);
        lemma_member(sets, rows.len(), v, a);
        lemma_member(sets, rows.len(), rows[v][k].0 as int, b);
        assert(holder(sets, rows[v][k].0 as int) == b);
    }
}

proof fn lemma_merged_across(rows: Adjacency, sets: Seq<Seq<usize>>, a: int, b: int)
    requires
        in_range(rows),
        partitions_vertices(sets, rows.len()),
        0 <= a < sets.len(),
        0 <= b < sets.len(),
    ensures
        merged(rows, sets, a, b) == across(rows, sets, a, b),
{
    let n = rows.len() as int;
    let by_group = |v: int|
        if sets[a].contains(v as usize) {
            total(
                rows[v].len() as int,
                |k: int|
                    if sets[b].contains(rows[v][k].0) {
                        rows[v][k].1 as int
                    } else {
                        0
                    },
            )
        } else {
            0
        };
    let by_holder = merged_term(rows, sets, a, b);
    assert forall|v: int| 0 <= v < n implies #[trigger] by_holder(v) == by_group(v) by {
        lemma_member(sets, rows.len(), v, a);
        let to_holder = into_term(rows[v], sets, b);
        let to_group = |k: int|
            if sets[b].contains(rows[v][k].0) {
                rows[v][k].1 as int
            } else {
                0
            };
        assert forall|k: int| 0 <= k < rows[v].len() implies #[trigger] to_holder(k) == to_group(
            k,
        ) by {
            lemma_member(sets, rows.len(), rows[v][k].0 as int, b);
        }
        lemma_total_ext(rows[v].len() as int, to_holder, to_group);
    }
    lemma_total_ext(n, by_holder, by_group);
}

/// The entries of a coarse graph are the edges between different groups: there is
/// one exactly where some edge leads from a vertex of the one group to a vertex of
/// the other, and it weighs as much as all these edges.
pub proof fn law_coarse_entries_join_groups(
    rows: Adjacency,
    sets: Seq<Seq<usize>>,
    entries: Map<(usize, usize), i64>,
    a: usize,
    b: usize,
)
    requires
        in_range(rows),
        partitions_vertices(sets, rows.len()),
        merges(rows, sets, entries),
    ensures
        entries.contains_key((a, b)) <==> a != b && a < sets.len() && b < sets.len() && links(
            rows,
            sets,
            a as int,
            b as int,
        ),
        entries.contains_key((a, b)) ==> entries[(a, b)] == across(rows, sets, a as int, b as int),
{
    lemma_joined_links(rows, sets, a as int, b as int);
    if a < sets.len() && b < sets.len() {
        lemma_merged_across(rows, sets, a as int, b as int);
    }
}

/// Coarsening groups the vertices greedily by their heaviest edges. Each group
/// weighs what the weights of its members add up to, in their order.
pub proof fn law_coarsening_is_greedy<F: Fn(Double, Double) -> Double>(
    plus: F,
    rows: Adjacency,
    weights: Seq<Double>,
    order: Seq<usize>,
    m: SparseMatrix,
    sets: Seq<Seq<usize>>,
    coarse_weights: Seq<Double>,
)
    requires
        in_range(rows),
        visits_all(order, rows.len()),
        coarsens(plus, rows, weights, order, m, sets, coarse_weights),
    ensures
        is_greedy(rows, order, sets),
        row_count(m) == sets.len(),
        coarse_weights.len() == sets.len(),
        forall|c: int|
            0 <= c < sets.len() ==> sums_to(
                plus,
                Seq::new(sets[c].len(), |i: int| weights[sets[c][i] as int]),
                #[trigger] coarse_weights[c],
            ),
{
    law_matching_is_greedy(rows, order);
    assert forall|c: int| 0 <= c < sets.len() implies sums_to(
        plus,
        Seq::new(sets[c].len(), |i: int| weights[sets[c][i] as int]),
        #[trigger] coarse_weights[c],
    ) by {
        assert(weights_of(sets[c], weights) =~= Seq::new(
            sets[c].len(),
            |i: int| weights[sets[c][i] as int],
        ));
    }
}

/// Coarsening goes through if and only if the last group has an edge to another
/// one, or there are no groups at all.
pub proof fn law_coarsening_needs_an_edge_of_the_last_group(rows: Adjacency, order: Seq<usize>)
    requires
        in_range(rows),
        rows.len() <= usize::MAX,
        visits_all(order, rows.len()),
    ensures
        ({
            let sets = matching(rows, order, order.len() as int);
            last_joined(rows, sets) <==> sets.len() == 0 || exists|b: int|
                0 <= b < sets.len() - 1 && #[trigger] links(rows, sets, sets.len() - 1, b)
        }),
{
    let sets = matching(rows, order, order.len() as int);
    lemma_matching_complete(rows, order);
    if sets.len() > 0 {
        if last_joined(rows, sets) {
            let b = choose|b: usize|
                b != sets.len() - 1 && #[trigger] joined(rows, sets, sets.len() - 1, b as int);
            lemma_joined_links(rows, sets, sets.len() - 1, b as int);
            assert(links(rows, sets, sets.len() - 1, b as int));
        }
        if exists|b: int|
            0 <= b < sets.len() - 1 && #[trigger] links(rows, sets, sets.len() - 1, b) {
            let b = choose|b: int|
                0 <= b < sets.len() - 1 && #[trigger] links(rows, sets, sets.len() - 1, b);
            lemma_joined_links(rows, sets, sets.len() - 1, b);
            assert(joined(rows, sets, sets.len() - 1, (b as usize) as int));
        }
    }
}

/// A level is one coarsening of the graph below: its groups are greedy for some
/// order of all vertices, its vertices weigh what the members of the groups add up
/// to, and its edges are those between different groups.
pub proof fn law_level_is_one_coarsening<P: Fn(Double, Double) -> Double>(
    plus: P,
    rows: Adjacency,
    weights: Seq<Double>,
    level: Level,
)
    requires
        in_range(rows),
        rows.len() <= usize::MAX,
        climbs(plus, rows, weights, level),
    ensures
        exists|order: Seq<usize>|
            visits_all(order, rows.len()) && #[trigger] is_greedy(rows, order, level.sets()),
        level.graph@.len() == level.sets().len(),
        level.weights@.len() == level.sets().len(),
        forall|c: int|
            0 <= c < level.sets().len() ==> sums_to(
                plus,
                Seq::new(level.sets()[c].len(), |i: int| weights[level.sets()[c][i] as int]),
                #[trigger] level.weights@[c],
            ),
        forall|a: int, b: int|
            0 <= a < level.graph@.len() && 0 <= b < level.graph@.len() ==> #[trigger] between(
                level.graph@,
                a,
                b,
            ) == if a == b || !links(rows, level.sets(), a, b) {
                0
            } else {
                across(rows, level.sets(), a, b)
            },
        forall|a: int, b: int|
            0 <= a < level.graph@.len() && 0 <= b < level.graph@.len() ==> (#[trigger] names(
                level.graph@[a],
                b,
            ) <==> a != b && links(rows, level.sets(), a, b)),
{
    lemma_level(plus, rows, weights, level);
    reveal(climbs);
    let sets = level.sets();
    let coarse = level.graph@;
    let (order, m) = choose|order: Seq<usize>, m: SparseMatrix|
        {
            &&& #[trigger] visits_all(order, rows.len())
            &&& #[trigger] coarsens(plus, rows, weights, order, m, sets, level.weights@)
            &&& column_count(m) == row_count(m)
            &&& coarse.len() == row_count(m)
            &&& in_range(coarse)
            &&& are_rows_of(m@, coarse)
        };
    law_coarsening_is_greedy(plus, rows, weights, order, m, sets, level.weights@);
    assert forall|a: int, b: int|
        0 <= a < coarse.len() && 0 <= b < coarse.len() implies #[trigger] between(coarse, a, b)
        == if a == b || !links(rows, sets, a, b) {
        0
    } else {
        across(rows, sets, a, b)
    } by {
        law_graph_has_the_entries(m@, coarse, a as usize, b as usize);
        law_coarse_entries_join_groups(rows, sets, m@, a as usize, b as usize);
    }
    assert forall|a: int, b: int| 0 <= a < coarse.len() && 0 <= b < coarse.len() implies (
    #[trigger] names(coarse[a], b) <==> a != b && links(rows, sets, a, b)) by {
        law_graph_has_the_entries(m@, coarse, a as usize, b as usize);
        law_coarse_entries_join_groups(rows, sets, m@, a as usize, b as usize);
    }
}

/// A graph jams only where the last of its groups, for some order of all vertices,
/// has no edge to another group or none from another group.
pub proof fn law_jam_has_a_lonely_group<P: Fn(Double, Double) -> Double>(
    plus: P,
    rows: Adjacency,
    weights: Seq<Double>,
)
    requires
        in_range(rows),
        rows.len() <= usize::MAX,
        jams(plus, rows, weights),
    ensures
        exists|order: Seq<usize>, sets: Seq<Seq<usize>>|
            {
                &&& visits_all(order, rows.len())
                &&& #[trigger] is_greedy(rows, order, sets)
                &&& sets.len() > 0
                &&& (forall|b: int|
                    0 <= b < sets.len() - 1 ==> !#[trigger] links(rows, sets, sets.len() - 1, b))
                    || (forall|a: int|
                    0 <= a < sets.len() - 1 ==> !#[trigger] links(rows, sets, a, sets.len() - 1))
            },
{
    reveal(jams);
    let order = choose|order: Seq<usize>| #[trigger]
        visits_all(order, rows.len()) && (!last_joined(
            rows,
            matching(rows, order, order.len() as int),
        ) || exists|m: SparseMatrix, sets: Seq<Seq<usize>>, coarse_weights: Seq<Double>| #[trigger]
            coarsens(plus, rows, weights, order, m, sets, coarse_weights) && column_count(m)
                != row_count(m));
    let sets = matching(rows, order, order.len() as int);
    law_matching_is_greedy(rows, order);
    lemma_matching_complete(rows, order);
    if !last_joined(rows, sets) {
        law_coarsening_needs_an_edge_of_the_last_group(rows, order);
    } else {
        let (m, same, coarse_weights) = choose|
            m: SparseMatrix,
            sets: Seq<Seq<usize>>,
            coarse_weights: Seq<Double>,
        | #[trigger]
            coarsens(plus, rows, weights, order, m, sets, coarse_weights) && column_count(m)
                != row_count(m);
        assert(same == sets);
        if sets.len() == 0 {
            if column_count(m) > 0 {
                let (a, b) = choose|a: usize, b: usize| #[trigger]
                    m@.contains_key((a, b)) && b + 1 == column_count(m);
                law_coarse_entries_join_groups(rows, sets, m@, a, b);
            }
        } else {
            assert forall|a: int| 0 <= a < sets.len() - 1 implies !#[trigger] links(
                rows,
                sets,
                a,
                sets.len() - 1,
            ) by {
                if links(rows, sets, a, sets.len() - 1) {
                    let last = (sets.len() - 1) as usize;
                    law_coarse_entries_join_groups(rows, sets, m@, a as usize, last);
                    assert(m@.contains_key((a as usize, last)));
                    let (x, y) = choose|x: usize, y: usize| #[trigger]
                        m@.contains_key((x, y)) && y + 1 == column_count(m);
                    law_coarse_entries_join_groups(rows, sets, m@, x, y);
                }
            }
        }
    }
}

} // verus!
