//! What label propagation does, in terms of connectivities and edge cuts.

use crate::connectivity::{law_most_connected, most_connected, strength, Move};
use crate::cutting::{law_gain_is_drop_of_cut, law_second_gain_is_drop_of_cut, partition_met};
use crate::refine::{
    choices, choices_tabled, destination, destinations, gains, lemma_eligible, meets, met, moderate,
    other_parts, refinement, regain_term, restless, second_gains, shortlist, winners,
};
use crate::topology::{between, cut, in_range, link, row_mass, symmetric, Adjacency};
use crate::total::{
    lemma_total_ext, lemma_total_magnitude, lemma_total_zero, magnitude, total,
};
use vstd::prelude::*;

verus! {

/// The choices of a vertex are the parts of its neighbors in other parts, in the
/// order of its list.
proof fn lemma_choices(row: Seq<(usize, i64)>, part: Seq<usize>, own: usize, n: int, k: int)
    requires
        0 <= k < n <= row.len(),
        part[row[k].0 as int] != own,
    ensures
        exists|i: int|
            0 <= i < other_parts(row, part, own, n).len() && #[trigger] other_parts(
                row,
                part,
                own,
                n,
            )[i] == part[row[k].0 as int] && i == other_parts(row, part, own, k).len(),
        other_parts(row, part, own, k).len() < other_parts(row, part, own, n).len(),
    decreases n,
{
    let list = other_parts(row, part, own, n);
    let before = other_parts(row, part, own, n - 1);
    if k < n - 1 {
        lemma_choices(row, part, own, n - 1, k);
        let i = other_parts(row, part, own, k).len() as int;
        assert(before[i] == part[row[k].0 as int]);
        assert(list[i] == before[i]);
    } else {
        assert(list[before.len() as int] == part[row[k].0 as int]);
    }
}

/// Every choice comes from a place of the list.
proof fn lemma_choice_place(row: Seq<(usize, i64)>, part: Seq<usize>, own: usize, n: int, i: int)
    requires
        0 <= n <= row.len(),
        0 <= i < other_parts(row, part, own, n).len(),
    ensures
        exists|k: int|
            0 <= k < n && part[(#[trigger] row[k]).0 as int] == other_parts(row, part, own, n)[i]
                && part[row[k].0 as int] != own && other_parts(row, part, own, k).len() == i,
    decreases n,
{
    let list = other_parts(row, part, own, n);
    let before = other_parts(row, part, own, n - 1);
    if n > 0 {
        if i < before.len() {
            lemma_choice_place(row, part, own, n - 1, i);
            let k = choose|k: int|
                0 <= k < n - 1 && part[(#[trigger] row[k]).0 as int] == before[i]
                    && part[row[k].0 as int] != own && other_parts(row, part, own, k).len() == i;
            assert(list[i] == before[i]);
            assert(part[row[k].0 as int] == list[i]);
        } else {
            assert(part[row[n - 1].0 as int] == list[i]);
        }
    }
}

/// A vertex that is not locked and has a neighbor in another part would move to
/// the part of a neighbor, not its own, and no part of a neighbor in another
/// part is connected to it more strongly. Of equally strong ones it is the one
/// that comes first in its list. Every other vertex stays.
pub proof fn law_destination_is_strongest(
    rows: Adjacency,
    part: Seq<usize>,
    c: Seq<Map<usize, i64>>,
    locked: Set<usize>,
    v: int,
)
    requires
        0 <= v < rows.len(),
        forall|k: int|
            0 <= k < rows[v].len() && part[(#[trigger] rows[v][k]).0 as int] != part[v]
                ==> c[v].contains_key(part[rows[v][k].0 as int]),
    ensures
        !locked.contains(v as usize) && (exists|k: int|
            0 <= k < rows[v].len() && part[(#[trigger] rows[v][k]).0 as int] != part[v]) ==> {
            &&& destination(rows, part, c, locked, v) != part[v]
            &&& exists|k: int|
                {
                    &&& 0 <= k < rows[v].len()
                    &&& part[(#[trigger] rows[v][k]).0 as int] == destination(
                        rows,
                        part,
                        c,
                        locked,
                        v,
                    )
                    &&& forall|j: int|
                        0 <= j < k && part[(#[trigger] rows[v][j]).0 as int] != part[v]
                            ==> strength(c, v, part[rows[v][j].0 as int]) < strength(
                            c,
                            v,
                            destination(rows, part, c, locked, v),
                        )
                }
            &&& forall|k: int|
                0 <= k < rows[v].len() && part[(#[trigger] rows[v][k]).0 as int] != part[v]
                    ==> strength(c, v, destination(rows, part, c, locked, v)) >= strength(
                    c,
                    v,
                    part[rows[v][k].0 as int],
                )
        },
        locked.contains(v as usize) || (forall|k: int|
            0 <= k < rows[v].len() ==> part[(#[trigger] rows[v][k]).0 as int] == part[v])
            ==> destination(rows, part, c, locked, v) == part[v],
{
    let row = rows[v];
    let own = part[v];
    let n = row.len() as int;
    let options = choices(rows, part, v);
    let table = c[v];
    assert forall|i: int| 0 <= i < options.len() implies table.contains_key(#[trigger] options[i])
        && options[i] != own by {
        lemma_choice_place(row, part, own, n, i);
        let k = choose|k: int|
            0 <= k < n && part[(#[trigger] row[k]).0 as int] == options[i]
                && part[row[k].0 as int] != own && other_parts(row, part, own, k).len() == i;
        assert(part[rows[v][k].0 as int] != part[v]);
    }
    if options.len() > 0 {
        lemma_choice_place(row, part, own, n, 0);
    }
    if !locked.contains(v as usize) && (exists|k: int|
        0 <= k < row.len() && part[(#[trigger] rows[v][k]).0 as int] != own) {
        let some = choose|k: int|
            0 <= k < row.len() && part[(#[trigger] rows[v][k]).0 as int] != own;
        lemma_choices(row, part, own, n, some);
        assert(restless(rows, part, locked, v));
        let d = destination(rows, part, c, locked, v);
        law_most_connected(options, table);
        let i = choose|i: int|
            0 <= i < options.len() && #[trigger] options[i] == most_connected(options, table) && (
            forall|j: int| 0 <= j < i ==> table[#[trigger] options[j]] < table[options[i]]);
        lemma_choice_place(row, part, own, n, i);
        let place = choose|k: int|
            0 <= k < n && part[(#[trigger] row[k]).0 as int] == options[i]
                && part[row[k].0 as int] != own && other_parts(row, part, own, k).len() == i;
        assert(part[rows[v][place].0 as int] == d);
        assert forall|j: int|
            0 <= j < place && part[(#[trigger] rows[v][j]).0 as int] != part[v] implies strength(
            c,
            v,
            part[rows[v][j].0 as int],
        ) < strength(c, v, d) by {
            lemma_choices(row, part, own, place, j);
            let earlier = other_parts(row, part, own, j).len() as int;
            lemma_choices(row, part, own, n, j);
            assert(options[earlier] == part[row[j].0 as int]);
            assert(table[options[earlier]] < table[options[i]]);
        }
        assert forall|k: int|
            0 <= k < rows[v].len() && part[(#[trigger] rows[v][k]).0 as int] != part[v] implies (
        strength(c, v, d)) >= strength(c, v, part[rows[v][k].0 as int]) by {
            lemma_choices(row, part, own, n, k);
            let x = other_parts(row, part, own, k).len() as int;
            assert(options[x] == part[row[k].0 as int]);
        }
    }
}

/// How much the edge cut drops if vertex `v` alone goes to part `p`.
pub open spec fn cut_drop(rows: Adjacency, part: Seq<usize>, v: int, p: usize) -> int {
    cut(rows, part) - cut(rows, part.update(v, p))
}

/// Some of the moves is of vertex `v`.
pub open spec fn moves_vertex(moves: Seq<Move>, v: usize) -> bool {
    exists|j: int| 0 <= j < moves.len() && (#[trigger] moves[j]).vertex == v
}

/// The moves of the filter are those of the listed vertices that have a positive
/// gain, and no others. They come in the order of the list.
pub proof fn law_winners_have_positive_gains(
    list: Seq<usize>,
    dest: Seq<usize>,
    gain: Map<usize, i64>,
    n: int,
)
    requires
        0 <= n <= list.len(),
    ensures
        forall|v: usize| #[trigger]
            moves_vertex(winners(list, dest, gain, n), v) <==> list.take(n).contains(v)
                && gain.contains_key(v) && gain[v] > 0,
        forall|j: int|
            0 <= j < winners(list, dest, gain, n).len() ==> (#[trigger] winners(
                list,
                dest,
                gain,
                n,
            )[j]).partition_id == dest[winners(list, dest, gain, n)[j].vertex as int],
        (forall|i: int, j: int| 0 <= i < j < list.len() ==> #[trigger] list[i] < #[trigger] list[j])
            ==> forall|i: int, j: int|
            0 <= i < j < winners(list, dest, gain, n).len() ==> (#[trigger] winners(
                list,
                dest,
                gain,
                n,
            )[i]).vertex < (#[trigger] winners(list, dest, gain, n)[j]).vertex,
    decreases n,
{
    let moves = winners(list, dest, gain, n);
    if n > 0 {
        law_winners_have_positive_gains(list, dest, gain, n - 1);
        let before = winners(list, dest, gain, n - 1);
        let last = list[n - 1];
        let shorter = list.take(n - 1);
        let longer = list.take(n);
        assert(longer == shorter.push(last));
        assert forall|v: usize| #[trigger]
            moves_vertex(moves, v) <==> longer.contains(v) && gain.contains_key(v) && gain[v]
                > 0 by {
            if moves_vertex(moves, v) {
                let j = choose|j: int| 0 <= j < moves.len() && (#[trigger] moves[j]).vertex == v;
                if j < before.len() {
                    assert(before[j].vertex == v);
                    assert(moves_vertex(before, v));
                    let i = choose|i: int| 0 <= i < shorter.len() && shorter[i] == v;
                    assert(longer[i] == v);
                } else {
                    assert(longer[n - 1] == v);
                }
            }
            if longer.contains(v) && gain.contains_key(v) && gain[v] > 0 {
                let i = choose|i: int| 0 <= i < longer.len() && longer[i] == v;
                if i < n - 1 {
                    assert(shorter[i] == v);
                    assert(moves_vertex(before, v));
                    let j = choose|j: int|
                        0 <= j < before.len() && (#[trigger] before[j]).vertex == v;
                    assert(moves[j].vertex == v);
                } else {
                    assert(moves[before.len() as int].vertex == v);
                }
            }
        }
        assert forall|j: int| 0 <= j < moves.len() implies (#[trigger] moves[j]).partition_id
            == dest[moves[j].vertex as int] by {
            if j < before.len() {
                assert(moves[j] == before[j]);
            }
        }
        if forall|i: int, j: int|
            0 <= i < j < list.len() ==> #[trigger] list[i] < #[trigger] list[j] {
            assert forall|i: int, j: int| 0 <= i < j < moves.len() implies (
            #[trigger] moves[i]).vertex < (#[trigger] moves[j]).vertex by {
                assert(moves[i] == before[i]);
                if j < before.len() {
                    assert(moves[j] == before[j]);
                } else {
                    let v = before[i].vertex;
                    assert(moves_vertex(before, v));
                    let x = choose|x: int| 0 <= x < shorter.len() && shorter[x] == v;
                    assert(list[x] < list[n - 1]);
                }
            }
        }
    }
}

/// A propagation step moves exactly the vertices that it should. A vertex goes
/// to another part if and only if it has a destination there, the edge cut drops
/// when it moves alone or grows by less than its allowance, and the edge cut
/// still drops when it moves after all those that come before it: the ones that
/// pass the same test, are not locked, and make the edge cut drop more, or as
/// much with a smaller number. This holds of undirected graphs whose loops weigh
/// nothing.
pub proof fn law_refinement_is_exact(
    rows: Adjacency,
    part: Seq<usize>,
    c: Seq<Map<usize, i64>>,
    locked: Set<usize>,
    allowance: Seq<i64>,
    v: usize,
)
    requires
        in_range(rows),
        symmetric(rows),
        rows.len() == part.len(),
        rows.len() == c.len(),
        rows.len() <= usize::MAX,
        v < rows.len(),
        row_mass(rows, v as int) <= i64::MAX,
        moderate(c),
        forall|u: int| 0 <= u < rows.len() ==> #[trigger] between(rows, u, u) == 0,
        forall|u: int, p: usize|
            0 <= u < rows.len() ==> #[trigger] strength(c, u, p) == link(rows, part, u, p),
    ensures
        ({
            let moves = refinement(rows, part, c, locked, allowance);
            let to = |u: int| destination(rows, part, c, locked, u);
            let drop = |u: int| cut_drop(rows, part, u, to(u));
            let passes = |u: int|
                !locked.contains(u as usize) && (drop(u) > 0 || -drop(u) < allowance[u]);
            let met = Seq::new(
                part.len(),
                |u: int|
                    if u != v && passes(u) && (drop(u) > drop(v as int) || (drop(u) == drop(
                        v as int,
                    ) && u < v)) {
                        to(u)
                    } else {
                        part[u]
                    },
            );
            (exists|j: int|
                0 <= j < moves.len() && (#[trigger] moves[j]).vertex == v && moves[j].partition_id
                    != part[v as int]) <==> {
                &&& to(v as int) != part[v as int]
                &&& passes(v as int)
                &&& cut_drop(rows, met, v as int, to(v as int)) > 0
            }
        }),
{
    let moves = refinement(rows, part, c, locked, allowance);
    let to = |u: int| destination(rows, part, c, locked, u);
    let drop = |u: int| cut_drop(rows, part, u, to(u));
    let passes = |u: int| !locked.contains(u as usize) && (drop(u) > 0 || -drop(u) < allowance[u]);
    let met_by = |u: int|
        if u != v && passes(u) && (drop(u) > drop(v as int) || (drop(u) == drop(v as int) && u
            < v)) {
            to(u)
        } else {
            part[u]
        };
    let now = Seq::new(part.len(), met_by);
    let dest = destinations(rows, part, c, locked);
    let alone = gains(rows, part, c, locked);
    let list = shortlist(rows, part, c, locked, allowance);
    let second = second_gains(rows, part, c, locked, allowance);
    let n = rows.len() as int;
    let i = v as int;
    assert forall|u: int| 0 <= u < n implies #[trigger] alone[u] == drop(u) && dest[u] == to(u) by {
        assert forall|p: usize| #[trigger] strength(c, u, p) == link(rows, part, u, p) by {}
        assert(between(rows, u, u) == 0);
        law_gain_is_drop_of_cut(rows, part, c, locked, u);
        if restless(rows, part, locked, u) {
            assert(magnitude(strength(c, u, to(u)) - strength(c, u, part[u])) <= i64::MAX);
        }
    }
    lemma_eligible(locked, alone, allowance, n);
    assert forall|u: usize| #[trigger] list.contains(u) <==> u < n && passes(u as int) by {
        if u < n {
            assert(alone[u as int] == drop(u as int));
        }
    }
    law_winners_have_positive_gains(list, dest, second, list.len() as int);
    // The partition in which the vertex takes its turn.
    let turn = partition_met(part, dest, alone, list, v);
    assert forall|u: int| 0 <= u < n implies #[trigger] turn[u] == now[u] by {
        assert(alone[u] == drop(u));
        assert(alone[i] == drop(i));
        assert(list.contains(u as usize) <==> passes(u));
    }
    assert(turn =~= now);
    // Its second gain.
    let row = rows[i];
    let term = regain_term(row, part, dest, alone, list, v);
    let sum = total(row.len() as int, term);
    let weight = |k: int| magnitude(rows[i][k].1 as int);
    lemma_total_magnitude(row.len() as int, term, weight);
    assert(total(row.len() as int, weight) == row_mass(rows, i));
    if !meets(row, part, dest, alone, list, v, row.len() as int) {
        assert forall|k: int| 0 <= k < row.len() implies #[trigger] term(k) == 0 by {
            let p = met(part, dest, alone, list, row[k].0, v);
            assert(!(p == dest[i] || p == part[i]));
        }
        lemma_total_zero(row.len() as int, term);
    }
    assert(second.contains_key(v) <==> list.contains(v) && meets(
        row,
        part,
        dest,
        alone,
        list,
        v,
        row.len() as int,
    ));
    if second.contains_key(v) {
        assert(second[v] == sum);
    }
    assert(to(i) == dest[i]);
    if to(i) != part[i] {
        assert(between(rows, i, i) == 0);
        law_second_gain_is_drop_of_cut(rows, part, dest, alone, list, v);
    }
    assert(list.take(list.len() as int) == list);
    assert(moves_vertex(moves, v) <==> list.contains(v) && second.contains_key(v) && second[v] > 0);
    if exists|j: int|
        0 <= j < moves.len() && (#[trigger] moves[j]).vertex == v && moves[j].partition_id
            != part[i] {
        let j = choose|j: int|
            0 <= j < moves.len() && (#[trigger] moves[j]).vertex == v && moves[j].partition_id
                != part[i];
        assert(moves[j].partition_id == dest[i]);
        assert(moves_vertex(moves, v));
    }
    if to(i) != part[i] && passes(i) && sum > 0 {
        assert(list.contains(v));
        assert(second.contains_key(v));
        assert(moves_vertex(moves, v));
        let j = choose|j: int| 0 <= j < moves.len() && (#[trigger] moves[j]).vertex == v;
        assert(moves[j].partition_id == dest[i]);
    }
}

/// Which vertices a propagation step moves, in any graph and with any table. The
/// gain of a vertex is what it is connected to its destination by, less what it is
/// connected to its own part by. A vertex passes if it is not locked and gains, or
/// loses less than its allowance. It is moved if and only if it passes and its
/// edges to vertices in its destination outweigh those to vertices in its own part,
/// where a neighbor that passes and gains more, or as much with a smaller number,
/// counts as being in its own destination already. The moves are listed in
/// ascending order of the vertices, and each leads to the destination.
pub proof fn law_refinement_weighs_neighbors(
    rows: Adjacency,
    part: Seq<usize>,
    c: Seq<Map<usize, i64>>,
    locked: Set<usize>,
    allowance: Seq<i64>,
    v: usize,
)
    requires
        in_range(rows),
        rows.len() == part.len(),
        rows.len() == c.len(),
        rows.len() <= usize::MAX,
        v < rows.len(),
        row_mass(rows, v as int) <= i64::MAX,
        moderate(c),
    ensures
        ({
            let to = |u: int| destination(rows, part, c, locked, u);
            let gain = |u: int| strength(c, u, to(u)) - strength(c, u, part[u]);
            let passes = |u: int|
                !locked.contains(u as usize) && (gain(u) > 0 || -gain(u) < allowance[u]);
            let met_by = |u: int|
                if passes(u) && (gain(u) > gain(v as int) || (gain(u) == gain(v as int) && u < v)) {
                    to(u)
                } else {
                    part[u]
                };
            moves_vertex(refinement(rows, part, c, locked, allowance), v) <==> passes(v as int)
                && total(
                rows[v as int].len() as int,
                |k: int|
                    {
                        let p = met_by(rows[v as int][k].0 as int);
                        if p == to(v as int) {
                            rows[v as int][k].1 as int
                        } else if p == part[v as int] {
                            -(rows[v as int][k].1 as int)
                        } else {
                            0
                        }
                    },
            ) > 0
        }),
        forall|j: int|
            0 <= j < refinement(rows, part, c, locked, allowance).len() ==> (
            #[trigger] refinement(rows, part, c, locked, allowance)[j]).vertex < rows.len()
                && refinement(rows, part, c, locked, allowance)[j].partition_id == destination(
                rows,
                part,
                c,
                locked,
                refinement(rows, part, c, locked, allowance)[j].vertex as int,
            ),
        forall|i: int, j: int|
            0 <= i < j < refinement(rows, part, c, locked, allowance).len() ==> (
            #[trigger] refinement(rows, part, c, locked, allowance)[i]).vertex < (
            #[trigger] refinement(rows, part, c, locked, allowance)[j]).vertex,
{
    let to = |u: int| destination(rows, part, c, locked, u);
    let gain = |u: int| strength(c, u, to(u)) - strength(c, u, part[u]);
    let passes = |u: int|
        !locked.contains(u as usize) && (gain(u) > 0 || -gain(u) < allowance[u]);
    let met_by = |u: int|
        if passes(u) && (gain(u) > gain(v as int) || (gain(u) == gain(v as int) && u < v)) {
            to(u)
        } else {
            part[u]
        };
    let dest = destinations(rows, part, c, locked);
    let alone = gains(rows, part, c, locked);
    let list = shortlist(rows, part, c, locked, allowance);
    let second = second_gains(rows, part, c, locked, allowance);
    let moves = refinement(rows, part, c, locked, allowance);
    let n = rows.len() as int;
    let i = v as int;
    assert forall|u: int| 0 <= u < n implies #[trigger] alone[u] == gain(u) && dest[u] == to(u) by {
        assert(magnitude(strength(c, u, to(u)) - strength(c, u, part[u])) <= i64::MAX);
    }
    lemma_eligible(locked, alone, allowance, n);
    assert forall|u: usize| #[trigger] list.contains(u) <==> u < n && passes(u as int) by {
        if u < n {
            assert(alone[u as int] == gain(u as int));
        }
    }
    law_winners_have_positive_gains(list, dest, second, list.len() as int);
    assert(list.take(list.len() as int) == list);
    let row = rows[i];
    let term = regain_term(row, part, dest, alone, list, v);
    let share = |k: int|
        {
            let p = met_by(rows[i][k].0 as int);
            if p == to(i) {
                rows[i][k].1 as int
            } else if p == part[i] {
                -(rows[i][k].1 as int)
            } else {
                0
            }
        };
    assert(alone[i] == gain(i));
    assert forall|k: int| 0 <= k < row.len() implies #[trigger] term(k) == share(k) by {
        let u = rows[i][k].0;
        assert(alone[u as int] == gain(u as int));
        assert(list.contains(u) <==> passes(u as int));
    }
    lemma_total_ext(row.len() as int, term, share);
    let weight = |k: int| magnitude(rows[i][k].1 as int);
    lemma_total_magnitude(row.len() as int, term, weight);
    assert(total(row.len() as int, weight) == row_mass(rows, i));
    if !meets(row, part, dest, alone, list, v, row.len() as int) {
        assert forall|k: int| 0 <= k < row.len() implies #[trigger] term(k) == 0 by {
            let p = met(part, dest, alone, list, row[k].0, v);
            assert(!(p == dest[i] || p == part[i]));
        }
        lemma_total_zero(row.len() as int, term);
    }
    assert(moves_vertex(moves, v) <==> list.contains(v) && second.contains_key(v) && second[v] > 0);
    assert forall|j: int| 0 <= j < moves.len() implies (#[trigger] moves[j]).vertex < rows.len()
        && moves[j].partition_id == destination(
        rows,
        part,
        c,
        locked,
        moves[j].vertex as int,
    ) by {
        assert(moves_vertex(moves, moves[j].vertex));
        assert(list.contains(moves[j].vertex));
    }
}

/// A propagation step goes through if and only if the table has an entry for
/// every part of a neighbor that a vertex which is not locked could move to.
pub proof fn law_refinement_needs_entries(
    rows: Adjacency,
    part: Seq<usize>,
    c: Seq<Map<usize, i64>>,
    locked: Set<usize>,
)
    ensures
        choices_tabled(rows, part, c, locked) <==> forall|v: int, k: int|
            0 <= v < rows.len() && !locked.contains(v as usize) && 0 <= k < rows[v].len()
                && part[(#[trigger] rows[v][k]).0 as int] != part[v] ==> c[v].contains_key(
                part[rows[v][k].0 as int],
            ),
{
    if choices_tabled(rows, part, c, locked) {
        assert forall|v: int, k: int|
            0 <= v < rows.len() && !locked.contains(v as usize) && 0 <= k < rows[v].len()
                && part[(#[trigger] rows[v][k]).0 as int] != part[v] implies c[v].contains_key(
            part[rows[v][k].0 as int],
        ) by {
            lemma_choices(rows[v], part, part[v], rows[v].len() as int, k);
            let list = choices(rows, part, v);
            let i = choose|i: int|
                0 <= i < list.len() && #[trigger] list[i] == part[rows[v][k].0 as int];
            assert(c[v].contains_key(choices(rows, part, v)[i]));
        }
    }
    if forall|v: int, k: int|
        0 <= v < rows.len() && !locked.contains(v as usize) && 0 <= k < rows[v].len()
            && part[(#[trigger] rows[v][k]).0 as int] != part[v] ==> c[v].contains_key(
            part[rows[v][k].0 as int],
        ) {
        assert forall|v: int, i: int|
            0 <= v < rows.len() && !locked.contains(v as usize) && 0 <= i < choices(
                rows,
                part,
                v,
            ).len() implies c[v].contains_key(#[trigger] choices(rows, part, v)[i]) by {
            lemma_choice_place(rows[v], part, part[v], rows[v].len() as int, i);
        }
    }
}

} // verus!
