//! Why the connectivity table can be kept up to date move by move.

use crate::connectivity::{strength, tabulates, touches, Move};
use crate::relocate::{
    arrived, arrived_term, arrives, departed, departed_term, departs, follows, lemma_row_extremes,
    movable, relocated, source,
};
use crate::topology::{
    between, in_range, lemma_regroup, link, link_term, names, positive, symmetric, toward,
    toward_term, Adjacency,
};
use crate::total::{
    lemma_total_change, lemma_total_ext, lemma_total_nonneg, lemma_total_zero, total,
};
use vstd::prelude::*;

verus! {

/// The weight of the edges from vertex `a` to `v` if `a` is in part `p`.
pub open spec fn inflow_term(rows: Adjacency, part: Seq<usize>, v: int, p: usize) -> spec_fn(
    int,
) -> int {
    |a: int|
        if part[a] == p {
            between(rows, a, v)
        } else {
            0
        }
}

/// The weight of the edges to `v` from vertices of part `p`.
pub open spec fn inflow(rows: Adjacency, part: Seq<usize>, v: int, p: usize) -> int {
    total(rows.len() as int, inflow_term(rows, part, v, p))
}

/// No two moves are of the same vertex.
pub open spec fn distinct_vertices(moves: Seq<Move>) -> bool {
    forall|i: int, j: int|
        0 <= i < j < moves.len() ==> (#[trigger] moves[i]).vertex != (#[trigger] moves[j]).vertex
}

/// In an undirected graph as much weight leads to a vertex from a part as
/// leads from the vertex to the part.
pub proof fn lemma_inflow_is_link(rows: Adjacency, part: Seq<usize>, v: int, p: usize)
    requires
        in_range(rows),
        symmetric(rows),
        0 <= v < rows.len(),
    ensures
        link(rows, part, v, p) == inflow(rows, part, v, p),
{
    let q = |a: int| part[a] == p;
    lemma_regroup(rows, v, q);
    lemma_total_ext(
        rows[v].len() as int,
        |k: int|
            if q(rows[v][k].0 as int) {
                rows[v][k].1 as int
            } else {
                0
            },
        link_term(rows, part, v, p),
    );
    let by_vertex = |a: int|
        if q(a) {
            between(rows, v, a)
        } else {
            0
        };
    assert forall|a: int| 0 <= a < rows.len() implies #[trigger] by_vertex(a) == inflow_term(
        rows,
        part,
        v,
        p,
    )(a) by {
        assert(between(rows, v, a) == between(rows, a, v));
    }
    lemma_total_ext(rows.len() as int, by_vertex, inflow_term(rows, part, v, p));
}

/// Moves do not change the number of vertices.
pub proof fn lemma_relocated_len(part: Seq<usize>, moves: Seq<Move>, j: int)
    requires
        j <= moves.len(),
        forall|x: int| 0 <= x < moves.len() ==> (#[trigger] moves[x]).vertex < part.len(),
    ensures
        relocated(part, moves, j).len() == part.len(),
    decreases j,
{
    if j > 0 {
        lemma_relocated_len(part, moves, j - 1);
        assert(moves[j - 1].vertex < part.len());
    }
}

/// The moves change the weight that leads to `v` from part `p` by what arrives
/// less what departs.
pub proof fn lemma_inflow_after_moves(
    rows: Adjacency,
    part: Seq<usize>,
    moves: Seq<Move>,
    j: int,
    v: int,
    p: usize,
)
    requires
        rows.len() <= part.len(),
        movable(rows, moves),
        0 <= j <= moves.len(),
    ensures
        inflow(rows, relocated(part, moves, j), v, p) == inflow(rows, part, v, p) - departed(
            rows,
            part,
            moves,
            j,
            v,
            p,
        ) + arrived(rows, moves, j, v, p),
    decreases j,
{
    if j > 0 {
        lemma_inflow_after_moves(rows, part, moves, j - 1, v, p);
        lemma_relocated_len(part, moves, j - 1);
        let earlier = relocated(part, moves, j - 1);
        let later = relocated(part, moves, j);
        let a = moves[j - 1].vertex as int;
        assert(moves[j - 1].vertex < rows.len());
        let f = inflow_term(rows, earlier, v, p);
        let g = inflow_term(rows, later, v, p);
        assert forall|i: int| 0 <= i < rows.len() && i != a implies #[trigger] f(i) == g(i) by {
            assert(earlier[i] == later[i]);
        }
        lemma_total_change(rows.len() as int, a, f, g);
        assert(later[a] == moves[j - 1].partition_id);
        assert(earlier[a] == source(part, moves, j - 1));
        let d = departed_term(rows, part, moves, v, p);
        let e = arrived_term(rows, moves, v, p);
        assert(total(j, d) == total(j - 1, d) + d(j - 1));
        assert(total(j, e) == total(j - 1, e) + e(j - 1));
    }
}

/// Applying moves shifts every connectivity by exactly as much as the weight
/// that leads to the vertex from the part. This holds of every graph, directed
/// or not, and of every list of moves.
pub proof fn law_moves_shift_connectivity(
    rows: Adjacency,
    part: Seq<usize>,
    moves: Seq<Move>,
    before: Seq<Map<usize, i64>>,
    after: Seq<Map<usize, i64>>,
    v: int,
    p: usize,
)
    requires
        rows.len() <= part.len(),
        movable(rows, moves),
        follows(rows, part, moves, before, after),
        0 <= v < before.len(),
    ensures
        strength(after, v, p) - inflow(
            rows,
            relocated(part, moves, moves.len() as int),
            v,
            p,
        ) == strength(before, v, p) - inflow(rows, part, v, p),
{
    lemma_inflow_after_moves(rows, part, moves, moves.len() as int, v, p);
}

/// In an undirected graph the table stays exact: if it gave the weight of the
/// edges from each vertex to each part, it still does after any moves.
pub proof fn law_moves_keep_connectivity(
    rows: Adjacency,
    part: Seq<usize>,
    moves: Seq<Move>,
    before: Seq<Map<usize, i64>>,
    after: Seq<Map<usize, i64>>,
)
    requires
        in_range(rows),
        symmetric(rows),
        rows.len() <= part.len(),
        rows.len() <= before.len(),
        movable(rows, moves),
        follows(rows, part, moves, before, after),
        forall|v: int, p: usize|
            0 <= v < rows.len() ==> #[trigger] strength(before, v, p) == link(rows, part, v, p),
    ensures
        forall|v: int, p: usize|
            0 <= v < rows.len() ==> #[trigger] strength(after, v, p) == link(
                rows,
                relocated(part, moves, moves.len() as int),
                v,
                p,
            ),
{
    let m = moves.len() as int;
    assert forall|v: int, p: usize| 0 <= v < rows.len() implies #[trigger] strength(after, v, p)
        == link(rows, relocated(part, moves, m), v, p) by {
        lemma_inflow_is_link(rows, part, v, p);
        lemma_inflow_is_link(rows, relocated(part, moves, m), v, p);
        law_moves_shift_connectivity(rows, part, moves, before, after, v, p);
        assert(strength(before, v, p) == link(rows, part, v, p));
    }
}

/// With positive weights a vertex has a neighbor in a part exactly when its
/// edges to the part weigh something.
proof fn lemma_touches_is_positive_link(rows: Adjacency, part: Seq<usize>, v: int, p: usize)
    requires
        positive(rows),
        0 <= v < rows.len(),
    ensures
        link(rows, part, v, p) >= 0,
        touches(rows, part, v, p) <==> link(rows, part, v, p) > 0,
{
    let f = link_term(rows, part, v, p);
    assert forall|k: int| 0 <= k < rows[v].len() implies #[trigger] f(k) >= 0 by {
        assert(rows[v][k].1 > 0);
    }
    lemma_total_nonneg(rows[v].len() as int, f);
    if touches(rows, part, v, p) {
        let k = choose|k: int|
            0 <= k < rows[v].len() && part[(#[trigger] rows[v][k]).0 as int] == p;
        assert(rows[v][k].1 > 0);
        assert(f(k) > 0);
    } else {
        assert forall|k: int| 0 <= k < rows[v].len() implies #[trigger] f(k) == 0 by {
            assert(!(part[rows[v][k].0 as int] == p));
        }
        lemma_total_zero(rows[v].len() as int, f);
    }
}

/// With positive weights in an undirected graph, the neighbor relation goes
/// both ways.
proof fn lemma_names_back(rows: Adjacency, a: int, b: int)
    requires
        symmetric(rows),
        positive(rows),
        0 <= a < rows.len(),
        0 <= b < rows.len(),
        names(rows[a], b),
    ensures
        names(rows[b], a),
{
    let f = toward_term(rows[a], b);
    assert forall|k: int| 0 <= k < rows[a].len() implies #[trigger] f(k) >= 0 by {
        assert(rows[a][k].1 > 0);
    }
    lemma_total_nonneg(rows[a].len() as int, f);
    let k = choose|k: int| 0 <= k < rows[a].len() && (#[trigger] rows[a][k]).0 == b;
    assert(rows[a][k].1 > 0);
    assert(f(k) > 0);
    assert(between(rows, a, b) == between(rows, b, a));
    lemma_row_extremes(rows[b], a);
}

proof fn lemma_last_place(part: Seq<usize>, moves: Seq<Move>, i: int, j: int)
    requires
        distinct_vertices(moves),
        0 <= i < j <= moves.len(),
        forall|x: int| 0 <= x < moves.len() ==> (#[trigger] moves[x]).vertex < part.len(),
    ensures
        relocated(part, moves, j)[moves[i].vertex as int] == moves[i].partition_id,
    decreases j,
{
    lemma_relocated_len(part, moves, j - 1);
    if i < j - 1 {
        lemma_last_place(part, moves, i, j - 1);
        assert(moves[i].vertex != moves[j - 1].vertex);
    }
    assert(moves[i].vertex < part.len());
    assert(moves[j - 1].vertex < part.len());
}

proof fn lemma_nothing_arrives(rows: Adjacency, moves: Seq<Move>, v: int, p: usize)
    requires
        !arrives(rows, moves, moves.len() as int, v, p),
    ensures
        arrived(rows, moves, moves.len() as int, v, p) == 0,
{
    let f = arrived_term(rows, moves, v, p);
    assert forall|i: int| 0 <= i < moves.len() implies #[trigger] f(i) == 0 by {
        lemma_row_extremes(rows[moves[i].vertex as int], v);
        if moves[i].partition_id == p {
            assert(!names(rows[moves[i].vertex as int], v));
        }
    }
    lemma_total_zero(moves.len() as int, f);
}

proof fn lemma_nothing_departs(
    rows: Adjacency,
    part: Seq<usize>,
    moves: Seq<Move>,
    v: int,
    p: usize,
)
    requires
        !departs(rows, part, moves, moves.len() as int, v, p),
    ensures
        departed(rows, part, moves, moves.len() as int, v, p) == 0,
{
    let f = departed_term(rows, part, moves, v, p);
    assert forall|i: int| 0 <= i < moves.len() implies #[trigger] f(i) == 0 by {
        lemma_row_extremes(rows[moves[i].vertex as int], v);
        if source(part, moves, i) == p {
            assert(!names(rows[moves[i].vertex as int], v));
        }
    }
    lemma_total_zero(moves.len() as int, f);
}

/// In an undirected graph with positive weights the table after moves of
/// distinct vertices is the table that would be built afresh for the new
/// partition, entry for entry. So no lookup of the part of a neighbor ever
/// misses.
pub proof fn law_moves_keep_table(
    rows: Adjacency,
    part: Seq<usize>,
    moves: Seq<Move>,
    before: Seq<Map<usize, i64>>,
    after: Seq<Map<usize, i64>>,
)
    requires
        in_range(rows),
        symmetric(rows),
        positive(rows),
        rows.len() <= part.len(),
        movable(rows, moves),
        distinct_vertices(moves),
        tabulates(rows, part, before),
        follows(rows, part, moves, before, after),
    ensures
        tabulates(rows, relocated(part, moves, moves.len() as int), after),
{
    let m = moves.len() as int;
    let moved = relocated(part, moves, m);
    lemma_relocated_len(part, moves, m);
    law_moves_keep_connectivity(rows, part, moves, before, after);
    assert forall|v: int, p: usize| 0 <= v < rows.len() implies (
    #[trigger] after[v].contains_key(p) <==> touches(rows, moved, v, p)) by {
        lemma_touches_is_positive_link(rows, part, v, p);
        lemma_touches_is_positive_link(rows, moved, v, p);
        assert(strength(before, v, p) == link(rows, part, v, p));
        assert(strength(after, v, p) == link(rows, moved, v, p));
        assert(strength(after, v, p) == strength(before, v, p) - departed(
            rows,
            part,
            moves,
            m,
            v,
            p,
        ) + arrived(rows, moves, m, v, p));
        assert(before[v].contains_key(p) <==> touches(rows, part, v, p));
        if arrives(rows, moves, m, v, p) {
            let i = choose|i: int|
                0 <= i < m && (#[trigger] moves[i]).partition_id == p && names(
                    rows[moves[i].vertex as int],
                    v,
                );
            let a = moves[i].vertex as int;
            lemma_names_back(rows, a, v);
            assert forall|x: int| 0 <= x < m implies (#[trigger] moves[x]).vertex < part.len() by {}
            lemma_last_place(part, moves, i, m);
            let k = choose|k: int| 0 <= k < rows[v].len() && (#[trigger] rows[v][k]).0 == a;
            assert(moved[rows[v][k].0 as int] == p);
        } else {
            lemma_nothing_arrives(rows, moves, v, p);
            if !departs(rows, part, moves, m, v, p) {
                lemma_nothing_departs(rows, part, moves, v, p);
            }
        }
    }
    assert forall|v: int| rows.len() <= v < after.len() implies #[trigger] after[v] == Map::<
        usize,
        i64,
    >::empty() by {
        assert forall|p: usize| !after[v].contains_key(p) by {
            assert(before[v] == Map::<usize, i64>::empty());
            assert forall|i: int| 0 <= i < m implies !names(
                rows[#[trigger] moves[i].vertex as int],
                v,
            ) by {
                let a = moves[i].vertex as int;
                assert(a < rows.len());
                if names(rows[a], v) {
                    let k = choose|k: int| 0 <= k < rows[a].len() && (#[trigger] rows[a][k]).0 == v;
                    assert(rows[a][k].0 < rows.len());
                }
            }
            assert(!arrives(rows, moves, m, v, p));
            assert(!departs(rows, part, moves, m, v, p));
            assert(!before[v].contains_key(p));
        }
        assert(after[v] =~= Map::<usize, i64>::empty());
    }
}

/// What one move does to the table, in any graph. Each vertex that the moved one
/// lists has an entry for the new part afterwards, and its entry for the old part is
/// gone if the weight that leads to it was all that the entry held. The weight is
/// taken from the old part and put on the new one. Nothing else changes.
pub proof fn law_one_move_shifts_entries(
    rows: Adjacency,
    part: Seq<usize>,
    step: Move,
    before: Seq<Map<usize, i64>>,
    after: Seq<Map<usize, i64>>,
    v: int,
    p: usize,
)
    requires
        step.vertex < rows.len(),
        step.vertex < part.len(),
        step.partition_id != part[step.vertex as int],
        follows(rows, part, seq![step], before, after),
        0 <= v < before.len(),
    ensures
        ({
            let old_part = part[step.vertex as int];
            let weight = toward(rows[step.vertex as int], v);
            let listed = names(rows[step.vertex as int], v);
            &&& listed ==> after[v].contains_key(step.partition_id)
            &&& listed ==> (after[v].contains_key(old_part) <==> strength(before, v, old_part)
                != weight)
            &&& strength(after, v, step.partition_id) == strength(before, v, step.partition_id)
                + weight
            &&& strength(after, v, old_part) == strength(before, v, old_part) - weight
            &&& !listed || (p != old_part && p != step.partition_id) ==> (after[v].contains_key(p)
                <==> before[v].contains_key(p)) && strength(after, v, p) == strength(before, v, p)
        }),
{
    let moves = seq![step];
    let old_part = part[step.vertex as int];
    let row = rows[step.vertex as int];
    assert(relocated(part, moves, 0) == part);
    assert(source(part, moves, 0) == old_part);
    let q = step.partition_id;
    assert forall|x: usize|
        departed(rows, part, moves, 1, v, x) == if x == old_part {
            toward(row, v)
        } else {
            0
        } && arrived(rows, moves, 1, v, x) == if x == q {
            toward(row, v)
        } else {
            0
        } by {
        let d = departed_term(rows, part, moves, v, x);
        let e = arrived_term(rows, moves, v, x);
        assert(total(1, d) == total(0, d) + d(0));
        assert(total(1, e) == total(0, e) + e(0));
    }
    assert forall|x: usize|
        departs(rows, part, moves, 1, v, x) <==> x == old_part && names(row, v) by {
        if x == old_part && names(row, v) {
            assert(source(part, moves, 0) == x);
        }
    }
    assert forall|x: usize| arrives(rows, moves, 1, v, x) <==> x == q && names(row, v) by {
        if x == q && names(row, v) {
            assert(moves[0].partition_id == x);
        }
    }
    assert(strength(after, v, q) == strength(before, v, q) - departed(rows, part, moves, 1, v, q)
        + arrived(rows, moves, 1, v, q));
    assert(strength(after, v, old_part) == strength(before, v, old_part) - departed(
        rows,
        part,
        moves,
        1,
        v,
        old_part,
    ) + arrived(rows, moves, 1, v, old_part));
    assert(strength(after, v, p) == strength(before, v, p) - departed(rows, part, moves, 1, v, p)
        + arrived(rows, moves, 1, v, p));
    if !names(row, v) {
        assert forall|k: int| 0 <= k < row.len() implies #[trigger] toward_term(row, v)(k) == 0 by {
            assert(row[k].0 != v);
        }
        lemma_total_zero(row.len() as int, toward_term(row, v));
    }
}

} // verus!
