//! Why connectivities stay within the weight of the graph.

use crate::connectivity::{strength, Move};
use crate::refine::moderate;
use crate::relocate::{
    has_room, lemma_row_extremes, movable, pull, pull_term, stirred, stirred_term,
};
use crate::topology::{between, fits, lemma_row_mass, link, link_term, mass, row_mass, Adjacency};
use crate::total::{
    lemma_total_change, lemma_total_magnitude, lemma_total_mono, lemma_total_nonneg,
    lemma_total_plus, lemma_total_zero, magnitude, total,
};
use crate::tracking::{distinct_vertices, inflow, inflow_term};
use vstd::prelude::*;

verus! {

/// The absolute weight of the edges that lead to `v` from vertex `a`.
pub open spec fn column_term(rows: Adjacency, v: int) -> spec_fn(int) -> int {
    |a: int| pull(rows[a], v)
}

/// The absolute weight of all edges that lead to `v`.
pub open spec fn column_mass(rows: Adjacency, v: int) -> int {
    total(rows.len() as int, column_term(rows, v))
}

/// The table has followed the moves that led from the partition `start` to
/// the partition `now`.
pub open spec fn tracks(
    rows: Adjacency,
    start: Seq<usize>,
    now: Seq<usize>,
    c: Seq<Map<usize, i64>>,
) -> bool {
    forall|v: int, p: usize|
        0 <= v < rows.len() ==> #[trigger] strength(c, v, p) == link(rows, start, v, p) + inflow(
            rows,
            now,
            v,
            p,
        ) - inflow(rows, start, v, p)
}

proof fn lemma_pull_nonneg(row: Seq<(usize, i64)>, b: int)
    ensures
        pull(row, b) >= 0,
{
    lemma_total_nonneg(row.len() as int, pull_term(row, b));
}

proof fn lemma_column_mass(rows: Adjacency, v: int)
    ensures
        0 <= column_mass(rows, v) <= mass(rows),
{
    let n = rows.len() as int;
    let f = column_term(rows, v);
    let g = |a: int| row_mass(rows, a);
    assert forall|a: int| 0 <= a < n implies 0 <= #[trigger] f(a) <= g(a) by {
        lemma_pull_nonneg(rows[a], v);
        let h = |k: int| magnitude(rows[a][k].1 as int);
        lemma_total_mono(rows[a].len() as int, pull_term(rows[a], v), h);
        assert(row_mass(rows, a) == total(rows[a].len() as int, h));
    }
    lemma_total_nonneg(n, f);
    lemma_total_mono(n, f, g);
    assert(mass(rows) == total(n, g));
}

proof fn lemma_inflow_shift(rows: Adjacency, start: Seq<usize>, now: Seq<usize>, v: int, p: usize)
    ensures
        magnitude(inflow(rows, now, v, p) - inflow(rows, start, v, p)) <= column_mass(rows, v),
{
    let n = rows.len() as int;
    let f = inflow_term(rows, start, v, p);
    let g = inflow_term(rows, now, v, p);
    let shift = |a: int| g(a) - f(a);
    lemma_total_plus(n, f, shift, g);
    let h = column_term(rows, v);
    assert forall|a: int| 0 <= a < n implies magnitude(#[trigger] shift(a)) <= h(a) by {
        lemma_row_extremes(rows[a], v);
        lemma_pull_nonneg(rows[a], v);
        assert(magnitude(between(rows, a, v)) <= pull(rows[a], v));
    }
    lemma_total_magnitude(n, shift, h);
}

proof fn lemma_link_bound(rows: Adjacency, part: Seq<usize>, v: int, p: usize)
    requires
        0 <= v < rows.len(),
    ensures
        magnitude(link(rows, part, v, p)) <= mass(rows),
{
    let h = |k: int| magnitude(rows[v][k].1 as int);
    lemma_total_magnitude(rows[v].len() as int, link_term(rows, part, v, p), h);
    assert(row_mass(rows, v) == total(rows[v].len() as int, h));
    lemma_row_mass(rows, v);
}

/// A table that has followed its partition holds connectivities of at most
/// twice the weight of the graph.
pub proof fn lemma_tracked_bound(
    rows: Adjacency,
    start: Seq<usize>,
    now: Seq<usize>,
    c: Seq<Map<usize, i64>>,
)
    requires
        tracks(rows, start, now, c),
    ensures
        forall|v: int, p: usize|
            0 <= v < rows.len() ==> magnitude(#[trigger] strength(c, v, p)) <= 2 * mass(rows),
{
    assert forall|v: int, p: usize| 0 <= v < rows.len() implies magnitude(
        #[trigger] strength(c, v, p),
    ) <= 2 * mass(rows) by {
        lemma_link_bound(rows, start, v, p);
        lemma_inflow_shift(rows, start, now, v, p);
        lemma_column_mass(rows, v);
    }
}

/// With fitting weights, the differences of connectivities in a table that has
/// followed its partition fit in an `i64`.
pub proof fn lemma_tracked_moderate(
    rows: Adjacency,
    start: Seq<usize>,
    now: Seq<usize>,
    c: Seq<Map<usize, i64>>,
)
    requires
        tracks(rows, start, now, c),
        c.len() == rows.len(),
        fits(rows),
    ensures
        moderate(c),
{
    lemma_tracked_bound(rows, start, now, c);
}

/// The vertex of one of the first `j` moves is `a`.
spec fn moved_by(moves: Seq<Move>, j: int, a: int) -> bool {
    exists|i: int| 0 <= i < j && (#[trigger] moves[i]).vertex == a
}

spec fn moved_term(rows: Adjacency, moves: Seq<Move>, v: int, j: int) -> spec_fn(int) -> int {
    |a: int|
        if moved_by(moves, j, a) {
            pull(rows[a], v)
        } else {
            0
        }
}

proof fn lemma_stirred_by_vertex(rows: Adjacency, moves: Seq<Move>, v: int, j: int)
    requires
        movable(rows, moves),
        distinct_vertices(moves),
        0 <= j <= moves.len(),
    ensures
        stirred(rows, moves, j, v) == total(rows.len() as int, moved_term(rows, moves, v, j)),
    decreases j,
{
    let n = rows.len() as int;
    let g = moved_term(rows, moves, v, j);
    if j == 0 {
        lemma_total_zero(n, g);
    } else {
        lemma_stirred_by_vertex(rows, moves, v, j - 1);
        let f = moved_term(rows, moves, v, j - 1);
        let a = moves[j - 1].vertex as int;
        assert(moves[j - 1].vertex < rows.len());
        assert(moved_by(moves, j, a));
        assert(!moved_by(moves, j - 1, a)) by {
            if moved_by(moves, j - 1, a) {
                let i = choose|i: int| 0 <= i < j - 1 && (#[trigger] moves[i]).vertex == a;
                assert(moves[i].vertex != moves[j - 1].vertex);
            }
        }
        assert forall|x: int| 0 <= x < n && x != a implies #[trigger] f(x) == g(x) by {
            if moved_by(moves, j, x) {
                let i = choose|i: int| 0 <= i < j && (#[trigger] moves[i]).vertex == x;
                assert(moves[i].vertex == x);
                assert(i < j - 1);
                assert(moved_by(moves, j - 1, x));
            }
            if moved_by(moves, j - 1, x) {
                let i = choose|i: int| 0 <= i < j - 1 && (#[trigger] moves[i]).vertex == x;
                assert(moves[i].vertex == x);
                assert(moved_by(moves, j, x));
            }
        }
        lemma_total_change(n, a, f, g);
        let s = stirred_term(rows, moves, v);
        assert(total(j, s) == total(j - 1, s) + s(j - 1));
    }
}

/// With fitting weights, moves of distinct vertices never overflow a table
/// that has followed its partition.
pub proof fn lemma_tracked_room(
    rows: Adjacency,
    start: Seq<usize>,
    now: Seq<usize>,
    c: Seq<Map<usize, i64>>,
    moves: Seq<Move>,
)
    requires
        tracks(rows, start, now, c),
        c.len() == rows.len(),
        fits(rows),
        movable(rows, moves),
        distinct_vertices(moves),
    ensures
        has_room(rows, moves, c),
{
    lemma_tracked_bound(rows, start, now, c);
    let m = moves.len() as int;
    assert forall|v: int, p: usize| 0 <= v < c.len() implies magnitude(
        #[trigger] strength(c, v, p),
    ) + 2 * stirred(rows, moves, m, v) <= i64::MAX by {
        let f = moved_term(rows, moves, v, m);
        let g = column_term(rows, v);
        lemma_stirred_by_vertex(rows, moves, v, m);
        assert forall|a: int| 0 <= a < rows.len() implies #[trigger] f(a) <= g(a) by {
            lemma_pull_nonneg(rows[a], v);
        }
        lemma_total_mono(rows.len() as int, f, g);
        lemma_column_mass(rows, v);
    }
}

} // verus!
