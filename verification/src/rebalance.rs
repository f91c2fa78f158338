//! Moving vertices out of parts that are too heavy.

use crate::connectivity::{
    conn, get_most_connected_partition, law_most_connected, most_connected, strength, tables,
    tabulates, touches, Move,
};
use crate::double::Double;
use crate::random::random_index;
use crate::refine::{all_tabled, leads_into, listed, moderate};
use crate::relocate::movable;
use crate::slots::SLOTS_PER_PART;
use crate::topology::{in_range, Adjacency, Graph};
use crate::total::magnitude;
use crate::tracking::distinct_vertices;
use crate::unload::{all_unloaded, law_unloaded_are_heavy, unload, unload_sums};
use std::collections::HashMap;
use vstd::prelude::*;
use vstd::slice::slice_to_vec;

verus! {

broadcast use vstd::std_specs::hash::group_hash_axioms;

/// What the parts weigh and may weigh. Entry `p` of each list is about part
/// `p`.
pub struct Load {
    /// A part that weighs more than this is heavy.
    pub max_weight: Double,
    /// A part that weighs no more than this is light.
    pub max_weight_dest: Double,
    /// What each part weighs.
    pub weights: Vec<Double>,
    /// A vertex leaves a heavy part only if it weighs less than this.
    pub limits: Vec<Double>,
    /// How much weight has to leave each part.
    pub excesses: Vec<Double>,
}

impl Load {
    /// Every list is as long as there are parts, and there are few enough
    /// parts to number their buckets.
    pub open spec fn consistent(&self) -> bool {
        &&& self.limits@.len() == self.weights@.len()
        &&& self.excesses@.len() == self.weights@.len()
        &&& self.weights@.len() * SLOTS_PER_PART <= usize::MAX
    }

    /// The parts that are too heavy, in ascending order.
    pub open spec fn heavy(&self) -> Seq<usize> {
        parts_above(self.max_weight, self.weights@, self.weights@.len() as int)
    }

    /// The parts that can take in vertices, in ascending order.
    pub open spec fn light(&self) -> Seq<usize> {
        parts_within(self.max_weight_dest, self.weights@, self.weights@.len() as int)
    }

    /// Lists the parts that are too heavy.
    pub fn heavy_partitions(&self) -> (list: Vec<usize>)
        ensures
            list@ == self.heavy(),
    {
        let mut list: Vec<usize> = Vec::new();
        let mut p: usize = 0;
        while p < self.weights.len()
            invariant
                p <= self.weights@.len(),
                list@ == parts_above(self.max_weight, self.weights@, p as int),
            decreases self.weights@.len() - p,
        {
            if self.max_weight.less(&self.weights[p]) {
                list.push(p);
            }
            p += 1;
        }
        list
    }

    /// Lists the parts that can take in vertices.
    pub fn light_partitions(&self) -> (list: Vec<usize>)
        ensures
            list@ == self.light(),
    {
        let mut list: Vec<usize> = Vec::new();
        let mut p: usize = 0;
        while p < self.weights.len()
            invariant
                p <= self.weights@.len(),
                list@ == parts_within(self.max_weight_dest, self.weights@, p as int),
            decreases self.weights@.len() - p,
        {
            if self.max_weight_dest.at_least(&self.weights[p]) {
                list.push(p);
            }
            p += 1;
        }
        list
    }
}

/// The parts among the first `n` whose weight is above `bound`.
pub open spec fn parts_above(bound: Double, weights: Seq<Double>, n: int) -> Seq<usize>
    decreases n,
{
    if n <= 0 {
        Seq::empty()
    } else if bound.lt(weights[n - 1]) {
        parts_above(bound, weights, n - 1).push((n - 1) as usize)
    } else {
        parts_above(bound, weights, n - 1)
    }
}

/// The parts among the first `n` whose weight is at most `bound`.
pub open spec fn parts_within(bound: Double, weights: Seq<Double>, n: int) -> Seq<usize>
    decreases n,
{
    if n <= 0 {
        Seq::empty()
    } else if bound.ge(weights[n - 1]) {
        parts_within(bound, weights, n - 1).push((n - 1) as usize)
    } else {
        parts_within(bound, weights, n - 1)
    }
}

/// The heavy parts are the parts below `n` above the bound, each once.
pub proof fn lemma_parts_above(bound: Double, weights: Seq<Double>, n: int)
    requires
        0 <= n <= weights.len(),
        n <= usize::MAX,
    ensures
        forall|p: usize| #[trigger]
            parts_above(bound, weights, n).contains(p) <==> p < n && bound.lt(weights[p as int]),
        forall|i: int, j: int|
            0 <= i < j < parts_above(bound, weights, n).len() ==> #[trigger] parts_above(
                bound,
                weights,
                n,
            )[i] < #[trigger] parts_above(bound, weights, n)[j],
        parts_above(bound, weights, n).len() <= n,
    decreases n,
{
    let list = parts_above(bound, weights, n);
    if n > 0 {
        lemma_parts_above(bound, weights, n - 1);
        let before = parts_above(bound, weights, n - 1);
        assert forall|i: int| 0 <= i < before.len() implies #[trigger] before[i] < n - 1 by {
            assert(before.contains(before[i]));
        }
        assert forall|p: usize| #[trigger]
            list.contains(p) <==> p < n && bound.lt(weights[p as int]) by {
            if list.contains(p) {
                let i = choose|i: int| 0 <= i < list.len() && list[i] == p;
                if i < before.len() {
                    assert(before[i] == p);
                    assert(before.contains(p));
                }
            }
            if before.contains(p) {
                let i = choose|i: int| 0 <= i < before.len() && before[i] == p;
                assert(list[i] == p);
            }
            if p == n - 1 && list.len() > before.len() {
                assert(list[before.len() as int] == p);
            }
        }
    }
}

/// The light parts are the parts below `n` within the bound.
pub proof fn lemma_parts_within(bound: Double, weights: Seq<Double>, n: int)
    requires
        0 <= n <= weights.len(),
        n <= usize::MAX,
    ensures
        forall|p: usize| #[trigger]
            parts_within(bound, weights, n).contains(p) <==> p < n && bound.ge(weights[p as int]),
    decreases n,
{
    let list = parts_within(bound, weights, n);
    if n > 0 {
        lemma_parts_within(bound, weights, n - 1);
        let before = parts_within(bound, weights, n - 1);
        assert forall|p: usize| #[trigger]
            list.contains(p) <==> p < n && bound.ge(weights[p as int]) by {
            if list.contains(p) {
                let i = choose|i: int| 0 <= i < list.len() && list[i] == p;
                if i < before.len() {
                    assert(before[i] == p);
                    assert(before.contains(p));
                }
            }
            if before.contains(p) {
                let i = choose|i: int| 0 <= i < before.len() && before[i] == p;
                assert(list[i] == p);
            }
            if p == n - 1 && list.len() > before.len() {
                assert(list[before.len() as int] == p);
            }
        }
    }
}

/// The parts of the first `k` neighbors in a list that are eligible, in order.
pub open spec fn adjacent(
    row: Seq<(usize, i64)>,
    part: Seq<usize>,
    eligible: Seq<usize>,
    k: int,
) -> Seq<usize>
    decreases k,
{
    if k <= 0 {
        Seq::empty()
    } else if eligible.contains(part[row[k - 1].0 as int]) {
        adjacent(row, part, eligible, k - 1).push(part[row[k - 1].0 as int])
    } else {
        adjacent(row, part, eligible, k - 1)
    }
}

/// The eligible parts among those of the neighbors of a vertex.
pub fn get_adjacent_eligible_destination_partitions(
    graph: &Graph,
    vertex: usize,
    partitions: &[usize],
    eligible_partitions: &[usize],
) -> (parts: Vec<usize>)
    requires
        vertex < graph@.len(),
        graph@.len() <= partitions@.len(),
    ensures
        parts@ == adjacent(
            graph@[vertex as int],
            partitions@,
            eligible_partitions@,
            graph@[vertex as int].len() as int,
        ),
{
    let row: &Vec<(usize, i64)> = graph.neighbors(vertex);
    let mut parts: Vec<usize> = Vec::new();
    let mut k: usize = 0;
    while k < row.len()
        invariant
            vertex < graph@.len() <= partitions@.len(),
            in_range(graph@),
            row@ == graph@[vertex as int],
            k <= row@.len(),
            parts@ == adjacent(row@, partitions@, eligible_partitions@, k as int),
        decreases row@.len() - k,
    {
        let u: usize = row[k].0;
        assert(graph@[vertex as int][k as int].0 < graph@.len());
        if listed(eligible_partitions, partitions[u]) {
            parts.push(partitions[u]);
        }
        k += 1;
    }
    parts
}

/// The vertex is in a heavy part and light enough to leave it.
pub open spec fn leaves(part: Seq<usize>, weights: Seq<Double>, load: Load, v: int) -> bool {
    load.heavy().contains(part[v]) && weights[v].lt(load.limits@[part[v] as int])
}

/// The light parts among those of the neighbors of `v`.
pub open spec fn refuges(rows: Adjacency, part: Seq<usize>, load: Load, v: int) -> Seq<usize> {
    adjacent(rows[v], part, load.light(), rows[v].len() as int)
}

/// The vertex leaves its part and no neighbor is in a light part, so that it
/// may go to any light part.
pub open spec fn stranded(
    rows: Adjacency,
    part: Seq<usize>,
    weights: Seq<Double>,
    load: Load,
    v: int,
) -> bool {
    leaves(part, weights, load, v) && refuges(rows, part, load, v).len() == 0
}

/// Where `v` goes: a vertex that leaves goes to the light part among those of
/// its neighbors to which it is connected most strongly, or to the light part
/// picked for it if there is none; the others stay.
pub open spec fn refuge(
    rows: Adjacency,
    part: Seq<usize>,
    weights: Seq<Double>,
    c: Seq<Map<usize, i64>>,
    load: Load,
    picks: Seq<usize>,
    v: int,
) -> usize {
    if !leaves(part, weights, load, v) {
        part[v]
    } else if refuges(rows, part, load, v).len() == 0 {
        load.light()[picks[v] as int]
    } else {
        most_connected(refuges(rows, part, load, v), c[v])
    }
}

/// How much the edge cut would grow if `v` alone moved.
pub open spec fn loss(
    rows: Adjacency,
    part: Seq<usize>,
    weights: Seq<Double>,
    c: Seq<Map<usize, i64>>,
    load: Load,
    picks: Seq<usize>,
    v: int,
) -> int {
    if leaves(part, weights, load, v) {
        strength(c, v, part[v]) - strength(
            c,
            v,
            refuge(rows, part, weights, c, load, picks, v),
        )
    } else {
        0
    }
}

/// Where each vertex goes.
pub open spec fn all_refuges(
    rows: Adjacency,
    part: Seq<usize>,
    weights: Seq<Double>,
    c: Seq<Map<usize, i64>>,
    load: Load,
    picks: Seq<usize>,
) -> Seq<usize> {
    Seq::new(part.len(), |v: int| refuge(rows, part, weights, c, load, picks, v))
}

/// The loss of each vertex.
pub open spec fn losses(
    rows: Adjacency,
    part: Seq<usize>,
    weights: Seq<Double>,
    c: Seq<Map<usize, i64>>,
    load: Load,
    picks: Seq<usize>,
) -> Seq<i64> {
    Seq::new(part.len(), |v: int| loss(rows, part, weights, c, load, picks, v) as i64)
}

/// Every vertex that leaves finds a place: a light part exists if it is
/// stranded, and otherwise the table has an entry for each of its refuges.
pub open spec fn all_housed(
    rows: Adjacency,
    part: Seq<usize>,
    weights: Seq<Double>,
    c: Seq<Map<usize, i64>>,
    load: Load,
) -> bool {
    &&& forall|v: int|
        0 <= v < rows.len() && #[trigger] stranded(rows, part, weights, load, v)
            ==> load.light().len() > 0
    &&& forall|v: int, i: int|
        0 <= v < rows.len() && leaves(part, weights, load, v) && 0 <= i < refuges(
            rows,
            part,
            load,
            v,
        ).len() ==> c[v].contains_key(#[trigger] refuges(rows, part, load, v)[i])
}

/// `moves` are the moves of a rebalancing step: those that unload the heavy
/// parts, each to the refuge of its vertex.
pub open spec fn rebalances<F: Fn(Double, Double) -> Double>(
    plus: F,
    rows: Adjacency,
    part: Seq<usize>,
    weights: Seq<Double>,
    c: Seq<Map<usize, i64>>,
    load: Load,
    picks: Seq<usize>,
    moves: Seq<Move>,
) -> bool {
    let loss = losses(rows, part, weights, c, load, picks);
    exists|sums: Seq<Seq<Double>>| #[trigger]
        unload_sums(plus, part, load.heavy(), loss, weights, sums) && moves == all_unloaded(
            part,
            load.heavy(),
            loss,
            all_refuges(rows, part, weights, c, load, picks),
            load.excesses@,
            sums,
            load.heavy().len() as int,
        )
}

/// There is a pick for each vertex, and each is a place in the list of light
/// parts if there are any.
pub open spec fn picks_fit(load: Load, picks: Seq<usize>, n: nat) -> bool {
    &&& picks.len() == n
    &&& load.light().len() > 0 ==> forall|v: int|
        0 <= v < n ==> #[trigger] picks[v] < load.light().len()
}

/// A rebalancing step only moves vertices of heavy parts, each at most once.
/// Each of them goes to a light part or stays where it is.
pub proof fn law_rebalancing_unloads_heavy_parts<F: Fn(Double, Double) -> Double>(
    plus: F,
    rows: Adjacency,
    part: Seq<usize>,
    weights: Seq<Double>,
    c: Seq<Map<usize, i64>>,
    load: Load,
    picks: Seq<usize>,
    moves: Seq<Move>,
)
    requires
        rows.len() == part.len(),
        part.len() <= usize::MAX,
        picks_fit(load, picks, part.len()),
        all_housed(rows, part, weights, c, load),
        rebalances(plus, rows, part, weights, c, load, picks, moves),
    ensures
        movable(rows, moves),
        distinct_vertices(moves),
        forall|j: int|
            0 <= j < moves.len() ==> ({
                let step = #[trigger] moves[j];
                &&& load.heavy().contains(part[step.vertex as int])
                &&& load.light().contains(step.partition_id) || step.partition_id
                    == part[step.vertex as int]
            }),
{
    let loss = losses(rows, part, weights, c, load, picks);
    let dest = all_refuges(rows, part, weights, c, load, picks);
    let sums = choose|sums: Seq<Seq<Double>>| #[trigger]
        unload_sums(plus, part, load.heavy(), loss, weights, sums) && moves == all_unloaded(
            part,
            load.heavy(),
            loss,
            dest,
            load.excesses@,
            sums,
            load.heavy().len() as int,
        );
    law_unloaded_are_heavy(
        part,
        load.heavy(),
        loss,
        dest,
        load.excesses@,
        sums,
        load.heavy().len() as int,
    );
    assert forall|j: int| 0 <= j < moves.len() implies ({
        let step = #[trigger] moves[j];
        &&& load.heavy().contains(part[step.vertex as int])
        &&& load.light().contains(step.partition_id) || step.partition_id
            == part[step.vertex as int]
    }) by {
        let v = moves[j].vertex as int;
        assert(dest[v] == refuge(rows, part, weights, c, load, picks, v));
        if leaves(part, weights, load, v) {
            let options = refuges(rows, part, load, v);
            if options.len() == 0 {
                assert(stranded(rows, part, weights, load, v));
                assert(picks[v] < load.light().len());
                assert(load.light().contains(load.light()[picks[v] as int]));
            } else {
                law_most_connected(options, c[v]);
                lemma_adjacent(rows[v], part, load.light(), rows[v].len() as int);
                let i = choose|i: int|
                    0 <= i < options.len() && #[trigger] options[i] == most_connected(
                        options,
                        c[v],
                    );
                assert(load.light().contains(options[i]));
            }
        }
    }
}

proof fn lemma_adjacent(row: Seq<(usize, i64)>, part: Seq<usize>, eligible: Seq<usize>, k: int)
    requires
        k <= row.len(),
    ensures
        forall|i: int|
            0 <= i < adjacent(row, part, eligible, k).len() ==> eligible.contains(
                #[trigger] adjacent(row, part, eligible, k)[i],
            ),
        forall|i: int|
            0 <= i < adjacent(row, part, eligible, k).len() ==> leads_into(
                row,
                part,
                #[trigger] adjacent(row, part, eligible, k)[i],
            ),
    decreases k,
{
    if k > 0 {
        lemma_adjacent(row, part, eligible, k - 1);
        let list = adjacent(row, part, eligible, k);
        let before = adjacent(row, part, eligible, k - 1);
        assert forall|i: int| 0 <= i < list.len() implies eligible.contains(
            #[trigger] list[i],
        ) by {
            if i < before.len() {
                assert(list[i] == before[i]);
            }
        }
        assert forall|i: int| 0 <= i < list.len() implies leads_into(
            row,
            part,
            #[trigger] list[i],
        ) by {
            if i < before.len() {
                assert(list[i] == before[i]);
            } else {
                assert(part[row[k - 1].0 as int] == list[i]);
            }
        }
    }
}

/// The table of a partition has an entry for every refuge of a vertex. So every
/// vertex that leaves finds a place, unless it is stranded and there is no light
/// part.
pub proof fn law_refuges_are_tabled(
    rows: Adjacency,
    part: Seq<usize>,
    weights: Seq<Double>,
    c: Seq<Map<usize, i64>>,
    load: Load,
)
    requires
        tabulates(rows, part, c),
    ensures
        all_housed(rows, part, weights, c, load) || (load.light().len() == 0 && exists|v: int|
            0 <= v < rows.len() && #[trigger] stranded(rows, part, weights, load, v)),
{
    assert forall|v: int, i: int|
        0 <= v < rows.len() && leaves(part, weights, load, v) && 0 <= i < refuges(
            rows,
            part,
            load,
            v,
        ).len() implies c[v].contains_key(#[trigger] refuges(rows, part, load, v)[i]) by {
        lemma_adjacent(rows[v], part, load.light(), rows[v].len() as int);
        let p = refuges(rows, part, load, v)[i];
        let j = choose|j: int|
            0 <= j < rows[v].len() && part[(#[trigger] rows[v][j]).0 as int] == p;
        assert(part[rows[v][j].0 as int] == p);
        assert(touches(rows, part, v, p));
    }
}

/// Moves vertices from heavy parts to light ones, so that the edge cut grows
/// as little as possible.
///
/// `picks` holds for each vertex the place of a light part in the list of
/// light parts; it goes there if it has to leave and no neighbor is in a light
/// part.
///
/// There is no result if a vertex has to leave and there is no light part, or
/// if the table has no entry for the light part of a neighbor.
pub fn rebalance<F: Fn(Double, Double) -> Double>(
    graph: &Graph,
    partitions: &[usize],
    vertex_weights: &[Double],
    c: &Vec<HashMap<usize, i64>>,
    load: &Load,
    picks: &[usize],
    plus: F,
) -> (result: Option<Vec<Move>>)
    requires
        graph@.len() == partitions@.len(),
        graph@.len() == vertex_weights@.len(),
        graph@.len() == c@.len(),
        load.consistent(),
        picks_fit(*load, picks@, graph@.len()),
        moderate(tables(c@)),
        forall|a: Double, b: Double| call_requires(plus, (a, b)),
    ensures
        result is Some <==> all_housed(
            graph@,
            partitions@,
            vertex_weights@,
            tables(c@),
            *load,
        ),
        result matches Some(moves) ==> rebalances(
            plus,
            graph@,
            partitions@,
            vertex_weights@,
            tables(c@),
            *load,
            picks@,
            moves@,
        ),
{
    let ghost rows = graph@;
    let ghost part = partitions@;
    let ghost weights = vertex_weights@;
    let ghost table = tables(c@);
    let heavy: Vec<usize> = load.heavy_partitions();
    let light: Vec<usize> = load.light_partitions();
    proof {
        lemma_parts_above(load.max_weight, load.weights@, load.weights@.len() as int);
        assert forall|i: int| 0 <= i < heavy@.len() implies #[trigger] heavy@[i]
            < load.weights@.len() by {
            assert(heavy@.contains(heavy@[i]));
        }
        assert(heavy@.no_duplicates());
    }
    let n: usize = graph.len();
    let mut dest: Vec<usize> = slice_to_vec(partitions);
    let mut loss_of: Vec<i64> = vec![0; n];
    let mut v: usize = 0;
    while v < n
        invariant
            rows == graph@,
            part == partitions@,
            weights == vertex_weights@,
            table == tables(c@),
            n == rows.len() == part.len() == weights.len() == c@.len() == table.len(),
            heavy@ == load.heavy(),
            light@ == load.light(),
            load.consistent(),
            forall|i: int| 0 <= i < heavy@.len() ==> #[trigger] heavy@[i] < load.weights@.len(),
            picks_fit(*load, picks@, rows.len()),
            moderate(table),
            v <= n,
            dest@.len() == n,
            loss_of@.len() == n,
            forall|x: int| v <= x < n ==> #[trigger] dest@[x] == part[x],
            forall|x: int| v <= x < n ==> #[trigger] loss_of@[x] == 0,
            forall|x: int|
                0 <= x < v ==> #[trigger] dest@[x] == refuge(
                    rows,
                    part,
                    weights,
                    table,
                    *load,
                    picks@,
                    x,
                ),
            forall|x: int|
                0 <= x < v ==> #[trigger] loss_of@[x] == loss(
                    rows,
                    part,
                    weights,
                    table,
                    *load,
                    picks@,
                    x,
                ),
            forall|x: int|
                0 <= x < v && #[trigger] stranded(rows, part, weights, *load, x)
                    ==> load.light().len() > 0,
            forall|x: int, i: int|
                0 <= x < v && leaves(part, weights, *load, x) && 0 <= i < refuges(
                    rows,
                    part,
                    *load,
                    x,
                ).len() ==> table[x].contains_key(#[trigger] refuges(rows, part, *load, x)[i]),
        decreases n - v,
    {
        let own: usize = partitions[v];
        if listed(heavy.as_slice(), own) {
            assert(own < load.weights@.len()) by {
                let i = choose|i: int| 0 <= i < heavy@.len() && heavy@[i] == own;
                assert(heavy@[i] < load.weights@.len());
            }
            if vertex_weights[v].less(&load.limits[own]) {
                let options: Vec<usize> = get_adjacent_eligible_destination_partitions(
                    graph,
                    v,
                    partitions,
                    light.as_slice(),
                );
                assert(options@ == refuges(rows, part, *load, v as int));
                let d: usize = if options.len() == 0 {
                    assert(stranded(rows, part, weights, *load, v as int));
                    if light.len() == 0 {
                        return None;
                    }
                    assert(picks@[v as int] < load.light().len());
                    light[picks[v]]
                } else {
                    if !all_tabled(options.as_slice(), &c[v]) {
                        proof {
                            let i = choose|i: int|
                                0 <= i < options@.len() && !c@[v as int]@.contains_key(
                                    #[trigger] options@[i],
                                );
                            assert(refuges(rows, part, *load, v as int)[i] == options@[i]);
                            assert(!all_housed(rows, part, weights, table, *load));
                        }
                        return None;
                    }
                    get_most_connected_partition(v, options.as_slice(), c)
                };
                let here: i64 = conn(v, own, c);
                let there: i64 = conn(v, d, c);
                assert(magnitude(strength(table, v as int, own) - strength(table, v as int, d))
                    <= i64::MAX);
                dest.set(v, d);
                loss_of.set(v, here - there);
            }
        }
        v += 1;
    }
    proof {
        assert(dest@ =~= all_refuges(rows, part, weights, table, *load, picks@));
        assert(loss_of@ =~= losses(rows, part, weights, table, *load, picks@));
        assert(all_housed(rows, part, weights, table, *load));
        assert(heavy@.len() * SLOTS_PER_PART <= load.weights@.len() * SLOTS_PER_PART);
    }
    let moves: Vec<Move> = unload(
        partitions,
        heavy.as_slice(),
        loss_of.as_slice(),
        dest.as_slice(),
        vertex_weights,
        load.excesses.as_slice(),
        plus,
    );
    Some(moves)
}

/// Moves vertices from heavy parts to light ones, so that the edge cut grows
/// as little as possible. A vertex that has to leave and has no neighbor in a
/// light part goes to a random light part.
///
/// There is no result if a vertex has to leave and there is no light part, or
/// if the table has no entry for the light part of a neighbor.
pub fn jetrw<F: Fn(Double, Double) -> Double>(
    graph: &Graph,
    partitions: &[usize],
    vertex_weights: &[Double],
    c: &Vec<HashMap<usize, i64>>,
    load: &Load,
    plus: F,
) -> (result: Option<Vec<Move>>)
    requires
        graph@.len() == partitions@.len(),
        graph@.len() == vertex_weights@.len(),
        graph@.len() == c@.len(),
        load.consistent(),
        moderate(tables(c@)),
        forall|a: Double, b: Double| call_requires(plus, (a, b)),
    ensures
        result is Some <==> all_housed(
            graph@,
            partitions@,
            vertex_weights@,
            tables(c@),
            *load,
        ),
        result matches Some(moves) ==> exists|picks: Seq<usize>| #[trigger]
            picks_fit(*load, picks, graph@.len()) && rebalances(
                plus,
                graph@,
                partitions@,
                vertex_weights@,
                tables(c@),
                *load,
                picks,
                moves@,
            ),
{
    let light: Vec<usize> = load.light_partitions();
    let mut picks: Vec<usize> = Vec::new();
    while picks.len() < graph.len()
        invariant
            picks@.len() <= graph@.len(),
            light@ == load.light(),
            load.light().len() > 0 ==> forall|v: int|
                0 <= v < picks@.len() ==> #[trigger] picks@[v] < load.light().len(),
        decreases graph@.len() - picks@.len(),
    {
        if light.len() > 0 {
            picks.push(random_index(light.len()));
        } else {
            picks.push(0);
        }
    }
    rebalance(graph, partitions, vertex_weights, c, load, picks.as_slice(), plus)
}

} // verus!
