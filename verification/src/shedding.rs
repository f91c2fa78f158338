//! What rebalancing does: which vertices leave a heavy part, and where they go.

use crate::connectivity::{law_most_connected, most_connected, strength, Move};
use crate::double::Double;
use crate::listing::{law_light_parts_are_within, numbers_where};
use crate::propagation::moves_vertex;
use crate::rebalance::{
    adjacent, all_housed, all_refuges, leaves, lemma_parts_above, lemma_parts_within, loss, losses,
    picks_fit, rebalances, refuge, refuges, stranded, Load,
};
use crate::slots::{slot, SLOTS_PER_PART};
use crate::topology::Adjacency;
use crate::unload::{
    all_unloaded, law_queue_is_own_part_by_loss, law_unloaded_are_heavy, queue, unload_sums,
    unloaded,
};
use crate::weights::{running, weights_of};
use vstd::prelude::*;

verus! {

proof fn lemma_unloaded_member(
    line: Seq<usize>,
    dest: Seq<usize>,
    sums: Seq<Double>,
    excess: Double,
    k: int,
)
    requires
        0 <= k <= line.len(),
        line.no_duplicates(),
    ensures
        forall|x: int|
            0 <= x < line.len() ==> (moves_vertex(
                unloaded(line, dest, sums, excess, k),
                #[trigger] line[x],
            ) <==> x < k && sums[x + 1].lt(excess)),
        forall|v: usize| #[trigger]
            moves_vertex(unloaded(line, dest, sums, excess, k), v) ==> line.contains(v),
    decreases k,
{
    let moves = unloaded(line, dest, sums, excess, k);
    if k > 0 {
        lemma_unloaded_member(line, dest, sums, excess, k - 1);
        let before = unloaded(line, dest, sums, excess, k - 1);
        assert forall|v: usize| #[trigger]
            moves_vertex(moves, v) <==> moves_vertex(before, v) || (v == line[k - 1] && sums[k].lt(
                excess,
            )) by {
            lemma_member_grows(before, moves, v);
            if moves.len() > before.len() {
                assert(moves[before.len() as int].vertex == line[k - 1]);
            }
        }
        assert forall|x: int| 0 <= x < line.len() implies (moves_vertex(
            moves,
            #[trigger] line[x],
        ) <==> x < k && sums[x + 1].lt(excess)) by {
            if x != k - 1 {
                assert(line[x] != line[k - 1]);
            }
        }
    }
}

proof fn lemma_member_grows(before: Seq<Move>, after: Seq<Move>, v: usize)
    requires
        before.len() <= after.len() <= before.len() + 1,
        forall|j: int| 0 <= j < before.len() ==> #[trigger] before[j] == after[j],
    ensures
        moves_vertex(after, v) <==> moves_vertex(before, v) || (after.len() > before.len()
            && after.last().vertex == v),
{
    if moves_vertex(before, v) {
        let j = choose|j: int| 0 <= j < before.len() && (#[trigger] before[j]).vertex == v;
        assert(after[j].vertex == v);
    }
    if moves_vertex(after, v) {
        let j = choose|j: int| 0 <= j < after.len() && (#[trigger] after[j]).vertex == v;
        if j < before.len() {
            assert(before[j].vertex == v);
        }
    }
    if after.len() > before.len() && after.last().vertex == v {
        assert(after[after.len() - 1].vertex == v);
    }
}

proof fn lemma_member_joined(first: Seq<Move>, second: Seq<Move>, v: usize)
    ensures
        moves_vertex(first + second, v) <==> moves_vertex(first, v) || moves_vertex(second, v),
{
    let all = first + second;
    if moves_vertex(all, v) {
        let j = choose|j: int| 0 <= j < all.len() && (#[trigger] all[j]).vertex == v;
        if j < first.len() {
            assert(first[j].vertex == v);
        } else {
            assert(second[j - first.len()].vertex == v);
        }
    }
    if moves_vertex(first, v) {
        let j = choose|j: int| 0 <= j < first.len() && (#[trigger] first[j]).vertex == v;
        assert(all[j].vertex == v);
    }
    if moves_vertex(second, v) {
        let j = choose|j: int| 0 <= j < second.len() && (#[trigger] second[j]).vertex == v;
        assert(all[first.len() + j].vertex == v);
    }
}

proof fn lemma_all_unloaded_member(
    part: Seq<usize>,
    heavy: Seq<usize>,
    loss: Seq<i64>,
    dest: Seq<usize>,
    excesses: Seq<Double>,
    sums: Seq<Seq<Double>>,
    i: int,
    x: int,
    n: int,
)
    requires
        0 <= i < heavy.len(),
        heavy.no_duplicates(),
        part.len() <= usize::MAX,
        0 <= n <= heavy.len(),
        0 <= x < queue(part, heavy, loss, i, SLOTS_PER_PART as int).len(),
    ensures
        moves_vertex(
            all_unloaded(part, heavy, loss, dest, excesses, sums, n),
            queue(part, heavy, loss, i, SLOTS_PER_PART as int)[x],
        ) <==> i < n && sums[i][x + 1].lt(excesses[heavy[i] as int]),
    decreases n,
{
    let own = queue(part, heavy, loss, i, SLOTS_PER_PART as int);
    let v = own[x];
    if n > 0 {
        lemma_all_unloaded_member(part, heavy, loss, dest, excesses, sums, i, x, n - 1);
        let line = queue(part, heavy, loss, n - 1, SLOTS_PER_PART as int);
        let excess = excesses[heavy[n - 1] as int];
        law_queue_is_own_part_by_loss(part, heavy, loss, i);
        law_queue_is_own_part_by_loss(part, heavy, loss, n - 1);
        lemma_unloaded_member(line, dest, sums[n - 1], excess, line.len() as int);
        lemma_member_joined(
            all_unloaded(part, heavy, loss, dest, excesses, sums, n - 1),
            unloaded(line, dest, sums[n - 1], excess, line.len() as int),
            v,
        );
        assert(own.contains(v));
        if i != n - 1 {
            assert(heavy[i] != heavy[n - 1]);
            assert(!line.contains(v));
        } else {
            assert(line[x] == v);
        }
    } else {
        let none = all_unloaded(part, heavy, loss, dest, excesses, sums, n);
        assert(none.len() == 0);
    }
}

/// What leaves a heavy part is decided by that part alone. Its vertices line up,
/// all of them and no others, the ones with smaller losses first and those of
/// one slot in ascending order. Their weights are added up along the line, and a
/// vertex leaves if and only if the sum up to and with its own weight is below
/// the excess of that part. It goes where it was meant to go.
pub proof fn law_heavy_part_sheds_its_excess<F: Fn(Double, Double) -> Double>(
    plus: F,
    part: Seq<usize>,
    heavy: Seq<usize>,
    loss: Seq<i64>,
    dest: Seq<usize>,
    weights: Seq<Double>,
    excesses: Seq<Double>,
    sums: Seq<Seq<Double>>,
    i: int,
)
    requires
        0 <= i < heavy.len(),
        heavy.no_duplicates(),
        part.len() <= usize::MAX,
        unload_sums(plus, part, heavy, loss, weights, sums),
    ensures
        exists|line: Seq<usize>, terms: Seq<Double>, along: Seq<Double>|
            {
                let moves = all_unloaded(
                    part,
                    heavy,
                    loss,
                    dest,
                    excesses,
                    sums,
                    heavy.len() as int,
                );
                &&& #[trigger] in_line(part, heavy[i], loss, line)
                &&& terms.len() == line.len()
                &&& forall|k: int|
                    0 <= k < line.len() ==> #[trigger] terms[k] == weights[line[k] as int]
                &&& #[trigger] running(plus, terms, along)
                &&& forall|k: int|
                    0 <= k < line.len() ==> (moves_vertex(moves, #[trigger] line[k])
                        <==> along[k + 1].lt(excesses[heavy[i] as int]))
                &&& forall|j: int|
                    0 <= j < moves.len() ==> (#[trigger] moves[j]).partition_id
                        == dest[moves[j].vertex as int]
            },
{
    let line = queue(part, heavy, loss, i, SLOTS_PER_PART as int);
    let terms = weights_of(line, weights);
    let along = sums[i];
    law_queue_is_own_part_by_loss(part, heavy, loss, i);
    assert(in_line(part, heavy[i], loss, line));
    assert(running(plus, terms, along));
    let moves = all_unloaded(part, heavy, loss, dest, excesses, sums, heavy.len() as int);
    assert forall|k: int| 0 <= k < line.len() implies (moves_vertex(moves, #[trigger] line[k])
        <==> along[k + 1].lt(excesses[heavy[i] as int])) by {
        lemma_all_unloaded_member(
            part,
            heavy,
            loss,
            dest,
            excesses,
            sums,
            i,
            k,
            heavy.len() as int,
        );
    }
    law_unloaded_are_heavy(part, heavy, loss, dest, excesses, sums, heavy.len() as int);
}

/// The line holds every vertex of part `p` once and nothing else, by the slots
/// of the losses and within a slot in ascending order.
pub open spec fn in_line(part: Seq<usize>, p: usize, loss: Seq<i64>, line: Seq<usize>) -> bool {
    &&& line.no_duplicates()
    &&& forall|v: usize| #[trigger] line.contains(v) <==> v < part.len() && part[v as int] == p
    &&& forall|j: int, k: int|
        0 <= j < k < line.len() ==> ({
            let first = #[trigger] line[j];
            let second = #[trigger] line[k];
            let one = slot(loss[first as int] as int, 25);
            let other = slot(loss[second as int] as int, 25);
            one < other || (one == other && first < second)
        })
}

proof fn lemma_adjacent_at(
    row: Seq<(usize, i64)>,
    part: Seq<usize>,
    eligible: Seq<usize>,
    n: int,
    k: int,
)
    requires
        0 <= k < n <= row.len(),
        eligible.contains(part[row[k].0 as int]),
    ensures
        adjacent(row, part, eligible, k).len() < adjacent(row, part, eligible, n).len(),
        adjacent(row, part, eligible, n)[adjacent(row, part, eligible, k).len() as int]
            == part[row[k].0 as int],
    decreases n,
{
    let list = adjacent(row, part, eligible, n);
    let before = adjacent(row, part, eligible, n - 1);
    if k < n - 1 {
        lemma_adjacent_at(row, part, eligible, n - 1, k);
        let i = adjacent(row, part, eligible, k).len() as int;
        assert(list[i] == before[i]);
    }
}

proof fn lemma_adjacent_place(
    row: Seq<(usize, i64)>,
    part: Seq<usize>,
    eligible: Seq<usize>,
    n: int,
    i: int,
)
    requires
        0 <= n <= row.len(),
        0 <= i < adjacent(row, part, eligible, n).len(),
    ensures
        exists|k: int|
            0 <= k < n && part[(#[trigger] row[k]).0 as int] == adjacent(row, part, eligible, n)[i]
                && eligible.contains(part[row[k].0 as int]) && adjacent(
                row,
                part,
                eligible,
                k,
            ).len() == i,
    decreases n,
{
    let list = adjacent(row, part, eligible, n);
    let before = adjacent(row, part, eligible, n - 1);
    if n > 0 {
        if i < before.len() {
            lemma_adjacent_place(row, part, eligible, n - 1, i);
            let k = choose|k: int|
                0 <= k < n - 1 && part[(#[trigger] row[k]).0 as int] == before[i]
                    && eligible.contains(part[row[k].0 as int]) && adjacent(
                    row,
                    part,
                    eligible,
                    k,
                ).len() == i;
            assert(list[i] == before[i]);
            assert(part[row[k].0 as int] == list[i]);
        } else {
            assert(part[row[n - 1].0 as int] == list[i]);
        }
    }
}

/// A part is heavy if it weighs more than the greatest weight allowed.
pub open spec fn too_heavy(load: Load, p: usize) -> bool {
    p < load.weights@.len() && load.max_weight.lt(load.weights@[p as int])
}

/// A part is light if it weighs no more than a destination may.
pub open spec fn light_enough(load: Load, p: usize) -> bool {
    p < load.weights@.len() && load.max_weight_dest.ge(load.weights@[p as int])
}

/// A vertex of a heavy part that weighs less than the limit of the part has to
/// leave. It goes to the light part of a neighbor, such that no light part of a
/// neighbor is connected to it more strongly, and of equally strong ones to the
/// first in its list; without a neighbor in a light part it goes to any light
/// part. Its loss is what it is connected to its own part by, less what it is
/// connected to the new one by. Every other vertex stays and loses nothing.
pub proof fn law_refuge_is_strongest(
    rows: Adjacency,
    part: Seq<usize>,
    weights: Seq<Double>,
    c: Seq<Map<usize, i64>>,
    load: Load,
    picks: Seq<usize>,
    v: int,
)
    requires
        0 <= v < rows.len(),
        load.weights@.len() <= usize::MAX,
        picks_fit(load, picks, rows.len()),
        exists|p: usize| #[trigger] light_enough(load, p),
        forall|k: int|
            0 <= k < rows[v].len() && light_enough(
                load,
                part[(#[trigger] rows[v][k]).0 as int],
            ) ==> c[v].contains_key(part[rows[v][k].0 as int]),
    ensures
        ({
            let there = refuge(rows, part, weights, c, load, picks, v);
            let out = too_heavy(load, part[v]) && weights[v].lt(load.limits@[part[v] as int]);
            &&& !out ==> there == part[v] && loss(rows, part, weights, c, load, picks, v) == 0
            &&& out ==> light_enough(load, there) && loss(rows, part, weights, c, load, picks, v)
                == strength(c, v, part[v]) - strength(c, v, there)
            &&& out && (exists|k: int|
                0 <= k < rows[v].len() && light_enough(
                    load,
                    part[(#[trigger] rows[v][k]).0 as int],
                )) ==> {
                &&& forall|k: int|
                    0 <= k < rows[v].len() && light_enough(
                        load,
                        part[(#[trigger] rows[v][k]).0 as int],
                    ) ==> strength(c, v, there) >= strength(c, v, part[rows[v][k].0 as int])
                &&& exists|k: int|
                    {
                        &&& 0 <= k < rows[v].len()
                        &&& part[(#[trigger] rows[v][k]).0 as int] == there
                        &&& forall|j: int|
                            0 <= j < k && light_enough(
                                load,
                                part[(#[trigger] rows[v][j]).0 as int],
                            ) ==> strength(c, v, part[rows[v][j].0 as int]) < strength(
                                c,
                                v,
                                there,
                            )
                    }
            }
        }),
{
    let n = load.weights@.len() as int;
    lemma_parts_above(load.max_weight, load.weights@, n);
    lemma_parts_within(load.max_weight_dest, load.weights@, n);
    let light = load.light();
    let row = rows[v];
    let table = c[v];
    let m = row.len() as int;
    let options = refuges(rows, part, load, v);
    let there = refuge(rows, part, weights, c, load, picks, v);
    assert forall|p: usize| #[trigger] light.contains(p) <==> light_enough(load, p) by {}
    assert(load.heavy().contains(part[v]) <==> too_heavy(load, part[v]));
    let some = choose|p: usize| #[trigger] light_enough(load, p);
    assert(light.contains(some));
    if leaves(part, weights, load, v) {
        assert forall|i: int| 0 <= i < options.len() implies table.contains_key(
            #[trigger] options[i],
        ) && light_enough(load, options[i]) by {
            lemma_adjacent_place(row, part, light, m, i);
            let k = choose|k: int|
                0 <= k < m && part[(#[trigger] row[k]).0 as int] == options[i] && light.contains(
                    part[row[k].0 as int],
                ) && adjacent(row, part, light, k).len() == i;
            assert(light_enough(load, part[rows[v][k].0 as int]));
        }
        if exists|k: int|
            0 <= k < rows[v].len() && light_enough(
                load,
                part[(#[trigger] rows[v][k]).0 as int],
            ) {
            let near = choose|k: int|
                0 <= k < rows[v].len() && light_enough(
                    load,
                    part[(#[trigger] rows[v][k]).0 as int],
                );
            lemma_adjacent_at(row, part, light, m, near);
            assert(options.len() > 0);
            law_most_connected(options, table);
            let i = choose|i: int|
                0 <= i < options.len() && #[trigger] options[i] == most_connected(options, table)
                    && (forall|j: int|
                    0 <= j < i ==> table[#[trigger] options[j]] < table[options[i]]);
            lemma_adjacent_place(row, part, light, m, i);
            let place = choose|k: int|
                0 <= k < m && part[(#[trigger] row[k]).0 as int] == options[i] && light.contains(
                    part[row[k].0 as int],
                ) && adjacent(row, part, light, k).len() == i;
            assert(part[rows[v][place].0 as int] == there);
            assert forall|j: int|
                0 <= j < place && light_enough(
                    load,
                    part[(#[trigger] rows[v][j]).0 as int],
                ) implies strength(c, v, part[rows[v][j].0 as int]) < strength(c, v, there) by {
                lemma_adjacent_at(row, part, light, place, j);
                lemma_adjacent_at(row, part, light, m, j);
                let earlier = adjacent(row, part, light, j).len() as int;
                assert(table[options[earlier]] < table[options[i]]);
            }
            assert forall|k: int|
                0 <= k < rows[v].len() && light_enough(
                    load,
                    part[(#[trigger] rows[v][k]).0 as int],
                ) implies strength(c, v, there) >= strength(c, v, part[rows[v][k].0 as int]) by {
                lemma_adjacent_at(row, part, light, m, k);
                let x = adjacent(row, part, light, k).len() as int;
                assert(options[x] == part[row[k].0 as int]);
            }
        } else {
            if options.len() > 0 {
                lemma_adjacent_place(row, part, light, m, 0);
                let k = choose|k: int|
                    0 <= k < m && part[(#[trigger] row[k]).0 as int] == options[0]
                        && light.contains(part[row[k].0 as int]) && adjacent(
                        row,
                        part,
                        light,
                        k,
                    ).len() == 0;
                assert(light_enough(load, part[rows[v][k].0 as int]));
            }
            assert(picks[v] < light.len());
            assert(light.contains(light[picks[v] as int]));
        }
    }
}

/// What leaves a heavy part in a rebalancing step. The vertices of the part line
/// up by their losses; a vertex leaves, for its refuge, if and only if the
/// weights up to and with its own stay below what the part has in excess. No
/// vertex of any other part leaves.
pub proof fn law_rebalancing_sheds_excess<F: Fn(Double, Double) -> Double>(
    plus: F,
    rows: Adjacency,
    part: Seq<usize>,
    weights: Seq<Double>,
    c: Seq<Map<usize, i64>>,
    load: Load,
    picks: Seq<usize>,
    moves: Seq<Move>,
    p: usize,
)
    requires
        part.len() <= usize::MAX,
        load.weights@.len() <= usize::MAX,
        rebalances(plus, rows, part, weights, c, load, picks, moves),
    ensures
        too_heavy(load, p) ==> exists|line: Seq<usize>, terms: Seq<Double>, along: Seq<Double>|
            {
                &&& #[trigger] in_line(
                    part,
                    p,
                    losses(rows, part, weights, c, load, picks),
                    line,
                )
                &&& terms.len() == line.len()
                &&& forall|k: int|
                    0 <= k < line.len() ==> #[trigger] terms[k] == weights[line[k] as int]
                &&& #[trigger] running(plus, terms, along)
                &&& forall|k: int|
                    0 <= k < line.len() ==> (moves_vertex(moves, #[trigger] line[k])
                        <==> along[k + 1].lt(load.excesses@[p as int]))
            },
        forall|j: int|
            0 <= j < moves.len() ==> ({
                let step = #[trigger] moves[j];
                &&& step.vertex < part.len()
                &&& too_heavy(load, part[step.vertex as int])
                &&& step.partition_id == refuge(
                    rows,
                    part,
                    weights,
                    c,
                    load,
                    picks,
                    step.vertex as int,
                )
            }),
{
    let n = load.weights@.len() as int;
    let heavy = load.heavy();
    let loss = losses(rows, part, weights, c, load, picks);
    let dest = all_refuges(rows, part, weights, c, load, picks);
    lemma_parts_above(load.max_weight, load.weights@, n);
    assert(heavy.no_duplicates());
    let sums = choose|sums: Seq<Seq<Double>>| #[trigger]
        unload_sums(plus, part, heavy, loss, weights, sums) && moves == all_unloaded(
            part,
            heavy,
            loss,
            dest,
            load.excesses@,
            sums,
            heavy.len() as int,
        );
    law_unloaded_are_heavy(part, heavy, loss, dest, load.excesses@, sums, heavy.len() as int);
    if too_heavy(load, p) {
        assert(heavy.contains(p));
        let i = choose|i: int| 0 <= i < heavy.len() && heavy[i] == p;
        law_heavy_part_sheds_its_excess(
            plus,
            part,
            heavy,
            loss,
            dest,
            weights,
            load.excesses@,
            sums,
            i,
        );
    }
    assert forall|j: int| 0 <= j < moves.len() implies ({
        let step = #[trigger] moves[j];
        &&& step.vertex < part.len()
        &&& too_heavy(load, part[step.vertex as int])
        &&& step.partition_id == refuge(
            rows,
            part,
            weights,
            c,
            load,
            picks,
            step.vertex as int,
        )
    }) by {
        let step = moves[j];
        assert(heavy.contains(part[step.vertex as int]));
    }
}

/// The vertex has to leave: its part is too heavy, and it weighs less than the
/// limit of the part.
pub open spec fn has_to_leave(part: Seq<usize>, weights: Seq<Double>, load: Load, v: int) -> bool {
    too_heavy(load, part[v]) && weights[v].lt(load.limits@[part[v] as int])
}

/// A vertex that has to leave and has no neighbor in a light part goes to the
/// light part that was picked for it, counted in ascending order.
pub proof fn law_stranded_vertex_follows_its_pick(
    rows: Adjacency,
    part: Seq<usize>,
    weights: Seq<Double>,
    c: Seq<Map<usize, i64>>,
    load: Load,
    picks: Seq<usize>,
    v: int,
)
    requires
        0 <= v < rows.len(),
        load.weights@.len() <= usize::MAX,
        has_to_leave(part, weights, load, v),
        forall|k: int|
            0 <= k < rows[v].len() ==> !light_enough(
                load,
                part[(#[trigger] rows[v][k]).0 as int],
            ),
    ensures
        refuge(rows, part, weights, c, load, picks, v) == numbers_where(
            load.weights@.len(),
            |p: usize| load.max_weight_dest.ge(load.weights@[p as int]),
        )[picks[v] as int],
{
    let n = load.weights@.len();
    law_light_parts_are_within(load.max_weight_dest, load.weights@, n);
    lemma_parts_above(load.max_weight, load.weights@, n as int);
    lemma_parts_within(load.max_weight_dest, load.weights@, n as int);
    assert(leaves(part, weights, load, v));
    let options = refuges(rows, part, load, v);
    if options.len() > 0 {
        lemma_adjacent_place(rows[v], part, load.light(), rows[v].len() as int, 0);
        let k = choose|k: int|
            0 <= k < rows[v].len() && part[(#[trigger] rows[v][k]).0 as int] == options[0]
                && load.light().contains(part[rows[v][k].0 as int]) && adjacent(
                rows[v],
                part,
                load.light(),
                k,
            ).len() == 0;
        assert(light_enough(load, part[rows[v][k].0 as int]));
    }
}

/// Rebalancing goes through if and only if every vertex that has to leave has a
/// place to go: the table has entries for the light parts of its neighbors, and
/// if it has no neighbor in a light part there is some light part.
pub proof fn law_rebalancing_needs_light_parts(
    rows: Adjacency,
    part: Seq<usize>,
    weights: Seq<Double>,
    c: Seq<Map<usize, i64>>,
    load: Load,
)
    requires
        load.weights@.len() <= usize::MAX,
    ensures
        all_housed(rows, part, weights, c, load) <==> forall|v: int|
            0 <= v < rows.len() && #[trigger] has_to_leave(part, weights, load, v) ==> {
                &&& forall|k: int|
                    0 <= k < rows[v].len() && light_enough(
                        load,
                        part[(#[trigger] rows[v][k]).0 as int],
                    ) ==> c[v].contains_key(part[rows[v][k].0 as int])
                &&& exists|p: usize| #[trigger] light_enough(load, p)
            },
{
    let n = load.weights@.len() as int;
    lemma_parts_above(load.max_weight, load.weights@, n);
    lemma_parts_within(load.max_weight_dest, load.weights@, n);
    let light = load.light();
    assert forall|p: usize| #[trigger] light.contains(p) <==> light_enough(load, p) by {}
    assert forall|v: int| #[trigger]
        leaves(part, weights, load, v) <==> has_to_leave(part, weights, load, v) by {
        assert(load.heavy().contains(part[v]) <==> too_heavy(load, part[v]));
    }
    if all_housed(rows, part, weights, c, load) {
        assert forall|v: int|
            0 <= v < rows.len() && #[trigger] has_to_leave(part, weights, load, v) implies {
            &&& forall|k: int|
                0 <= k < rows[v].len() && light_enough(
                    load,
                    part[(#[trigger] rows[v][k]).0 as int],
                ) ==> c[v].contains_key(part[rows[v][k].0 as int])
            &&& exists|p: usize| #[trigger] light_enough(load, p)
        } by {
            let options = refuges(rows, part, load, v);
            assert(leaves(part, weights, load, v));
            assert forall|k: int|
                0 <= k < rows[v].len() && light_enough(
                    load,
                    part[(#[trigger] rows[v][k]).0 as int],
                ) implies c[v].contains_key(part[rows[v][k].0 as int]) by {
                assert(light.contains(part[rows[v][k].0 as int]));
                lemma_adjacent_at(rows[v], part, light, rows[v].len() as int, k);
                let i = adjacent(rows[v], part, light, k).len() as int;
                assert(c[v].contains_key(refuges(rows, part, load, v)[i]));
            }
            if options.len() == 0 {
                assert(stranded(rows, part, weights, load, v));
                assert(light.contains(light[0]));
                assert(light_enough(load, light[0]));
            } else {
                lemma_adjacent_place(rows[v], part, light, rows[v].len() as int, 0);
                assert(light.contains(options[0]));
                assert(light_enough(load, options[0]));
            }
        }
    }
    if forall|v: int|
        0 <= v < rows.len() && #[trigger] has_to_leave(part, weights, load, v) ==> {
            &&& forall|k: int|
                0 <= k < rows[v].len() && light_enough(
                    load,
                    part[(#[trigger] rows[v][k]).0 as int],
                ) ==> c[v].contains_key(part[rows[v][k].0 as int])
            &&& exists|p: usize| #[trigger] light_enough(load, p)
        } {
        assert forall|v: int|
            0 <= v < rows.len() && #[trigger] stranded(rows, part, weights, load, v) implies (
        light.len()) > 0 by {
            assert(leaves(part, weights, load, v));
            assert(has_to_leave(part, weights, load, v));
            let p = choose|p: usize| #[trigger] light_enough(load, p);
            assert(light.contains(p));
        }
        assert forall|v: int, i: int|
            0 <= v < rows.len() && leaves(part, weights, load, v) && 0 <= i < refuges(
                rows,
                part,
                load,
                v,
            ).len() implies c[v].contains_key(#[trigger] refuges(rows, part, load, v)[i]) by {
            assert(has_to_leave(part, weights, load, v));
            let options = refuges(rows, part, load, v);
            lemma_adjacent_place(rows[v], part, light, rows[v].len() as int, i);
            let k = choose|k: int|
                0 <= k < rows[v].len() && part[(#[trigger] rows[v][k]).0 as int] == options[i]
                    && light.contains(part[rows[v][k].0 as int]) && adjacent(
                    rows[v],
                    part,
                    light,
                    k,
                ).len() == i;
            assert(light_enough(load, part[rows[v][k].0 as int]));
        }
    }
}

} // verus!
