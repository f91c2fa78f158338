//! Applying moves to a partition and to its connectivity table.

use crate::connectivity::{deposit, strength, tables, Move};
use crate::topology::{names, toward, toward_term, Adjacency, Graph};
use crate::total::{
    lemma_total_ext, lemma_total_magnitude, lemma_total_nonneg, lemma_total_zero, magnitude, total,
};
use std::collections::HashMap;
use vstd::prelude::*;

verus! {

broadcast use vstd::std_specs::hash::group_hash_axioms;

/// The absolute weight of entry `k` of a list if it names `b`.
pub open spec fn pull_term(row: Seq<(usize, i64)>, b: int) -> spec_fn(int) -> int {
    |k: int|
        if row[k].0 == b {
            magnitude(row[k].1 as int)
        } else {
            0
        }
}

/// The sum of the absolute weights of the entries of a list that name `b`.
pub open spec fn pull(row: Seq<(usize, i64)>, b: int) -> int {
    total(row.len() as int, pull_term(row, b))
}

/// The partition after the first `j` moves.
pub open spec fn relocated(part: Seq<usize>, moves: Seq<Move>, j: int) -> Seq<usize>
    decreases j,
{
    if j <= 0 {
        part
    } else {
        relocated(part, moves, j - 1).update(
            moves[j - 1].vertex as int,
            moves[j - 1].partition_id,
        )
    }
}

/// The part that the vertex of move `j` is in when its turn comes.
pub open spec fn source(part: Seq<usize>, moves: Seq<Move>, j: int) -> usize {
    relocated(part, moves, j)[moves[j].vertex as int]
}

/// The weight of the edges to `v` that move `i` takes out of part `p`.
pub open spec fn departed_term(
    rows: Adjacency,
    part: Seq<usize>,
    moves: Seq<Move>,
    v: int,
    p: usize,
) -> spec_fn(int) -> int {
    |i: int|
        if source(part, moves, i) == p {
            toward(rows[moves[i].vertex as int], v)
        } else {
            0
        }
}

/// The weight of the edges to `v` that the first `j` moves take out of part
/// `p`.
pub open spec fn departed(
    rows: Adjacency,
    part: Seq<usize>,
    moves: Seq<Move>,
    j: int,
    v: int,
    p: usize,
) -> int {
    total(j, departed_term(rows, part, moves, v, p))
}

/// The weight of the edges to `v` that move `i` brings into part `p`.
pub open spec fn arrived_term(rows: Adjacency, moves: Seq<Move>, v: int, p: usize) -> spec_fn(
    int,
) -> int {
    |i: int|
        if moves[i].partition_id == p {
            toward(rows[moves[i].vertex as int], v)
        } else {
            0
        }
}

/// The weight of the edges to `v` that the first `j` moves bring into part
/// `p`.
pub open spec fn arrived(rows: Adjacency, moves: Seq<Move>, j: int, v: int, p: usize) -> int {
    total(j, arrived_term(rows, moves, v, p))
}

/// One of the first `j` moves takes a vertex with an edge to `v` out of part
/// `p`.
pub open spec fn departs(
    rows: Adjacency,
    part: Seq<usize>,
    moves: Seq<Move>,
    j: int,
    v: int,
    p: usize,
) -> bool {
    exists|i: int|
        0 <= i < j && #[trigger] source(part, moves, i) == p && names(
            rows[moves[i].vertex as int],
            v,
        )
}

/// One of the first `j` moves brings a vertex with an edge to `v` into part
/// `p`.
pub open spec fn arrives(rows: Adjacency, moves: Seq<Move>, j: int, v: int, p: usize) -> bool {
    exists|i: int|
        0 <= i < j && (#[trigger] moves[i]).partition_id == p && names(
            rows[moves[i].vertex as int],
            v,
        )
}

/// The sum of the absolute weights of the edges to `v` from the vertex of
/// move `i`.
pub open spec fn stirred_term(rows: Adjacency, moves: Seq<Move>, v: int) -> spec_fn(int) -> int {
    |i: int| pull(rows[moves[i].vertex as int], v)
}

/// The sum of the absolute weights of the edges to `v` from the vertices of
/// the first `j` moves.
pub open spec fn stirred(rows: Adjacency, moves: Seq<Move>, j: int, v: int) -> int {
    total(j, stirred_term(rows, moves, v))
}

/// Every move is of a vertex of the graph.
pub open spec fn movable(rows: Adjacency, moves: Seq<Move>) -> bool {
    forall|j: int| 0 <= j < moves.len() ==> (#[trigger] moves[j]).vertex < rows.len()
}

/// No entry of the table can overflow while the moves are applied.
pub open spec fn has_room(rows: Adjacency, moves: Seq<Move>, c: Seq<Map<usize, i64>>) -> bool {
    forall|v: int, p: usize|
        0 <= v < c.len() ==> magnitude(#[trigger] strength(c, v, p)) + 2 * stirred(
            rows,
            moves,
            moves.len() as int,
            v,
        ) <= i64::MAX
}

/// What the moves do to the table. Each connectivity loses what departed and
/// gains what arrived. An entry that something arrived at is there; of the
/// others, one that something departed from is there unless that leaves it
/// zero, and the rest are there if they were before.
pub open spec fn follows(
    rows: Adjacency,
    part: Seq<usize>,
    moves: Seq<Move>,
    before: Seq<Map<usize, i64>>,
    after: Seq<Map<usize, i64>>,
) -> bool {
    let m = moves.len() as int;
    &&& after.len() == before.len()
    &&& forall|v: int, p: usize|
        0 <= v < before.len() ==> #[trigger] strength(after, v, p) == strength(before, v, p)
            - departed(rows, part, moves, m, v, p) + arrived(rows, moves, m, v, p)
    &&& forall|v: int, p: usize|
        0 <= v < before.len() ==> (#[trigger] after[v].contains_key(p) <==> arrives(
            rows,
            moves,
            m,
            v,
            p,
        ) || (if departs(rows, part, moves, m, v, p) {
            strength(before, v, p) != departed(rows, part, moves, m, v, p)
        } else {
            before[v].contains_key(p)
        }))
}

proof fn lemma_row_step(row: Seq<(usize, i64)>, k: int, b: int)
    requires
        0 <= k < row.len(),
    ensures
        toward(row.take(k + 1), b) == toward(row.take(k), b) + (if row[k].0 == b {
            row[k].1 as int
        } else {
            0
        }),
        pull(row.take(k + 1), b) == pull(row.take(k), b) + (if row[k].0 == b {
            magnitude(row[k].1 as int)
        } else {
            0
        }),
        names(row.take(k + 1), b) <==> names(row.take(k), b) || row[k].0 == b,
        0 <= pull(row.take(k), b),
        pull(row.take(k + 1), b) <= pull(row, b),
        magnitude(toward(row.take(k), b)) <= pull(row.take(k), b),
{
    let longer = row.take(k + 1);
    let shorter = row.take(k);
    lemma_total_ext(k, toward_term(longer, b), toward_term(shorter, b));
    lemma_total_ext(k, pull_term(longer, b), pull_term(shorter, b));
    lemma_total_ext(k, toward_term(shorter, b), toward_term(row, b));
    lemma_total_ext(k + 1, pull_term(longer, b), pull_term(row, b));
    lemma_total_nonneg(row.len() as int, pull_term(row, b));
    lemma_total_nonneg(k, pull_term(shorter, b));
    assert(total(k + 1, pull_term(row, b)) <= total(row.len() as int, pull_term(row, b)));
    lemma_total_magnitude(k, toward_term(shorter, b), pull_term(shorter, b));
    if names(longer, b) && row[k].0 != b {
        let j = choose|j: int| 0 <= j < longer.len() && (#[trigger] longer[j]).0 == b;
        assert(shorter[j].0 == b);
    }
    if names(shorter, b) {
        let j = choose|j: int| 0 <= j < shorter.len() && (#[trigger] shorter[j]).0 == b;
        assert(longer[j].0 == b);
    }
    if row[k].0 == b {
        assert(longer[k].0 == b);
    }
}

/// An empty list leads nowhere, a whole list is all of itself, and a list leads
/// nowhere that it does not name.
pub proof fn lemma_row_extremes(row: Seq<(usize, i64)>, b: int)
    ensures
        toward(row.take(0), b) == 0,
        pull(row.take(0), b) == 0,
        !names(row.take(0), b),
        row.take(row.len() as int) == row,
        magnitude(toward(row, b)) <= pull(row, b),
        !names(row, b) ==> toward(row, b) == 0,
{
    assert(row.take(row.len() as int) == row);
    lemma_total_magnitude(row.len() as int, toward_term(row, b), pull_term(row, b));
    if !names(row, b) {
        lemma_total_zero(row.len() as int, toward_term(row, b));
    }
}

/// Takes `weight` off the entry for `part`, which starts at zero, and drops
/// the entry if nothing is left.
fn withdraw(table: &mut HashMap<usize, i64>, part: usize, weight: i64)
    requires
        i64::MIN <= (if old(table)@.contains_key(part) {
            old(table)@[part] as int
        } else {
            0
        }) - weight <= i64::MAX,
    ensures
        ({
            let left = (if old(table)@.contains_key(part) {
                old(table)@[part] as int
            } else {
                0
            }) - weight;
            final(table)@ == if left == 0 {
                old(table)@.remove(part)
            } else {
                old(table)@.insert(part, left as i64)
            }
        }),
{
    let present: i64 = match table.get(&part) {
        Some(x) => *x,
        None => 0,
    };
    let left: i64 = present - weight;
    table.insert(part, left);
    if left == 0 {
        table.remove(&part);
    }
}

/// Takes the edges of a list out of `part` in the tables of the vertices that
/// they lead to.
fn withdraw_row(row: &Vec<(usize, i64)>, part: usize, c: &mut Vec<HashMap<usize, i64>>)
    requires
        forall|k: int| 0 <= k < row@.len() ==> (#[trigger] row@[k]).0 < old(c)@.len(),
        forall|v: int|
            0 <= v < old(c)@.len() ==> magnitude(#[trigger] strength(tables(old(c)@), v, part))
                + pull(row@, v) <= i64::MAX,
    ensures
        final(c)@.len() == old(c)@.len(),
        forall|v: int, p: usize|
            0 <= v < old(c)@.len() ==> #[trigger] strength(tables(final(c)@), v, p) == strength(
                tables(old(c)@),
                v,
                p,
            ) - (if p == part {
                toward(row@, v)
            } else {
                0
            }),
        forall|v: int, p: usize|
            0 <= v < old(c)@.len() ==> (#[trigger] tables(final(c)@)[v].contains_key(p) <==> (
            if p == part && names(row@, v) {
                strength(tables(old(c)@), v, p) != toward(row@, v)
            } else {
                tables(old(c)@)[v].contains_key(p)
            })),
{
    let ghost before = tables(c@);
    let mut k: usize = 0;
    proof {
        assert forall|v: int| 0 <= v < before.len() implies toward(row@.take(0), v) == 0 && !names(
            row@.take(0),
            v,
        ) by {
            lemma_row_extremes(row@, v);
        }
    }
    while k < row.len()
        invariant
            k <= row@.len(),
            c@.len() == before.len(),
            forall|j: int| 0 <= j < row@.len() ==> (#[trigger] row@[j]).0 < before.len(),
            forall|v: int|
                0 <= v < before.len() ==> magnitude(#[trigger] strength(before, v, part)) + pull(
                    row@,
                    v,
                ) <= i64::MAX,
            forall|v: int, p: usize|
                0 <= v < before.len() ==> #[trigger] strength(tables(c@), v, p) == strength(
                    before,
                    v,
                    p,
                ) - (if p == part {
                    toward(row@.take(k as int), v)
                } else {
                    0
                }),
            forall|v: int, p: usize|
                0 <= v < before.len() ==> (#[trigger] tables(c@)[v].contains_key(p) <==> (if p
                    == part && names(row@.take(k as int), v) {
                    strength(before, v, p) != toward(row@.take(k as int), v)
                } else {
                    before[v].contains_key(p)
                })),
        decreases row@.len() - k,
    {
        let (u, w) = row[k];
        let ghost previous = tables(c@);
        proof {
            assert(row@[k as int].0 < before.len());
            lemma_row_step(row@, k as int, u as int);
            assert(strength(previous, u as int, part) == strength(before, u as int, part) - toward(
                row@.take(k as int),
                u as int,
            ));
            assert(magnitude(strength(before, u as int, part)) + pull(row@, u as int) <= i64::MAX);
        }
        withdraw(&mut c[u], part, w);
        proof {
            let current = tables(c@);
            assert forall|v: int| 0 <= v < before.len() && v != u implies #[trigger] current[v]
                == previous[v] by {}
            assert forall|v: int, p: usize| 0 <= v < before.len() implies #[trigger] strength(
                current,
                v,
                p,
            ) == strength(before, v, p) - (if p == part {
                toward(row@.take(k + 1), v)
            } else {
                0
            }) by {
                lemma_row_step(row@, k as int, v);
                assert(strength(previous, v, p) == strength(before, v, p) - (if p == part {
                    toward(row@.take(k as int), v)
                } else {
                    0
                }));
                if v != u {
                    assert(current[v] == previous[v]);
                }
            }
            assert forall|v: int, p: usize| 0 <= v < before.len() implies (
            #[trigger] current[v].contains_key(p) <==> (if p == part && names(
                row@.take(k + 1),
                v,
            ) {
                strength(before, v, p) != toward(row@.take(k + 1), v)
            } else {
                before[v].contains_key(p)
            })) by {
                lemma_row_step(row@, k as int, v);
                assert(strength(current, v, p) == strength(before, v, p) - (if p == part {
                    toward(row@.take(k + 1), v)
                } else {
                    0
                }));
                assert(previous[v].contains_key(p) <==> (if p == part && names(
                    row@.take(k as int),
                    v,
                ) {
                    strength(before, v, p) != toward(row@.take(k as int), v)
                } else {
                    before[v].contains_key(p)
                }));
                if v != u {
                    assert(current[v] == previous[v]);
                }
            }
        }
        k += 1;
    }
    assert(row@.take(row@.len() as int) == row@);
}

/// Adds the edges of a list to `part` in the tables of the vertices that they
/// lead to.
fn deposit_row(row: &Vec<(usize, i64)>, part: usize, c: &mut Vec<HashMap<usize, i64>>)
    requires
        forall|k: int| 0 <= k < row@.len() ==> (#[trigger] row@[k]).0 < old(c)@.len(),
        forall|v: int|
            0 <= v < old(c)@.len() ==> magnitude(#[trigger] strength(tables(old(c)@), v, part))
                + pull(row@, v) <= i64::MAX,
    ensures
        final(c)@.len() == old(c)@.len(),
        forall|v: int, p: usize|
            0 <= v < old(c)@.len() ==> #[trigger] strength(tables(final(c)@), v, p) == strength(
                tables(old(c)@),
                v,
                p,
            ) + (if p == part {
                toward(row@, v)
            } else {
                0
            }),
        forall|v: int, p: usize|
            0 <= v < old(c)@.len() ==> (#[trigger] tables(final(c)@)[v].contains_key(p) <==> tables(
                old(c)@,
            )[v].contains_key(p) || (p == part && names(row@, v))),
{
    let ghost before = tables(c@);
    let mut k: usize = 0;
    proof {
        assert forall|v: int| 0 <= v < before.len() implies toward(row@.take(0), v) == 0 && !names(
            row@.take(0),
            v,
        ) by {
            lemma_row_extremes(row@, v);
        }
    }
    while k < row.len()
        invariant
            k <= row@.len(),
            c@.len() == before.len(),
            forall|j: int| 0 <= j < row@.len() ==> (#[trigger] row@[j]).0 < before.len(),
            forall|v: int|
                0 <= v < before.len() ==> magnitude(#[trigger] strength(before, v, part)) + pull(
                    row@,
                    v,
                ) <= i64::MAX,
            forall|v: int, p: usize|
                0 <= v < before.len() ==> #[trigger] strength(tables(c@), v, p) == strength(
                    before,
                    v,
                    p,
                ) + (if p == part {
                    toward(row@.take(k as int), v)
                } else {
                    0
                }),
            forall|v: int, p: usize|
                0 <= v < before.len() ==> (#[trigger] tables(c@)[v].contains_key(p)
                    <==> before[v].contains_key(p) || (p == part && names(
                    row@.take(k as int),
                    v,
                ))),
        decreases row@.len() - k,
    {
        let (u, w) = row[k];
        let ghost previous = tables(c@);
        proof {
            assert(row@[k as int].0 < before.len());
            lemma_row_step(row@, k as int, u as int);
            assert(strength(previous, u as int, part) == strength(before, u as int, part) + toward(
                row@.take(k as int),
                u as int,
            ));
            assert(magnitude(strength(before, u as int, part)) + pull(row@, u as int) <= i64::MAX);
        }
        deposit(&mut c[u], part, w);
        proof {
            let current = tables(c@);
            assert forall|v: int| 0 <= v < before.len() && v != u implies #[trigger] current[v]
                == previous[v] by {}
            assert forall|v: int, p: usize| 0 <= v < before.len() implies #[trigger] strength(
                current,
                v,
                p,
            ) == strength(before, v, p) + (if p == part {
                toward(row@.take(k + 1), v)
            } else {
                0
            }) by {
                lemma_row_step(row@, k as int, v);
                assert(strength(previous, v, p) == strength(before, v, p) + (if p == part {
                    toward(row@.take(k as int), v)
                } else {
                    0
                }));
                if v != u {
                    assert(current[v] == previous[v]);
                }
            }
            assert forall|v: int, p: usize| 0 <= v < before.len() implies (
            #[trigger] current[v].contains_key(p) <==> before[v].contains_key(p) || (p == part
                && names(row@.take(k + 1), v))) by {
                lemma_row_step(row@, k as int, v);
                assert(previous[v].contains_key(p) <==> before[v].contains_key(p) || (p == part
                    && names(row@.take(k as int), v)));
                if v != u {
                    assert(current[v] == previous[v]);
                }
            }
        }
        k += 1;
    }
    assert(row@.take(row@.len() as int) == row@);
}

proof fn lemma_stirred(rows: Adjacency, moves: Seq<Move>, j: int, v: int)
    requires
        0 <= j < moves.len(),
    ensures
        stirred(rows, moves, j + 1, v) == stirred(rows, moves, j, v) + pull(
            rows[moves[j].vertex as int],
            v,
        ),
        0 <= stirred(rows, moves, j, v),
        stirred(rows, moves, j + 1, v) <= stirred(rows, moves, moves.len() as int, v),
{
    let f = stirred_term(rows, moves, v);
    assert forall|i: int| 0 <= i < moves.len() implies #[trigger] f(i) >= 0 by {
        lemma_total_nonneg(
            rows[moves[i].vertex as int].len() as int,
            pull_term(rows[moves[i].vertex as int], v),
        );
    }
    lemma_total_nonneg(moves.len() as int, f);
    lemma_total_nonneg(j, f);
    assert(total(j + 1, f) <= total(moves.len() as int, f));
}

proof fn lemma_departure_step(
    rows: Adjacency,
    part: Seq<usize>,
    moves: Seq<Move>,
    j: int,
    v: int,
    p: usize,
)
    requires
        0 <= j < moves.len(),
    ensures
        departed(rows, part, moves, j + 1, v, p) == departed(rows, part, moves, j, v, p) + (
        if source(part, moves, j) == p {
            toward(rows[moves[j].vertex as int], v)
        } else {
            0
        }),
        departs(rows, part, moves, j + 1, v, p) <==> departs(rows, part, moves, j, v, p) || (
        source(part, moves, j) == p && names(rows[moves[j].vertex as int], v)),
        !names(rows[moves[j].vertex as int], v) ==> toward(rows[moves[j].vertex as int], v) == 0,
        magnitude(departed(rows, part, moves, j, v, p)) <= stirred(rows, moves, j, v),
{
    lemma_row_extremes(rows[moves[j].vertex as int], v);
    if departs(rows, part, moves, j + 1, v, p) {
        let i = choose|i: int|
            0 <= i < j + 1 && #[trigger] source(part, moves, i) == p && names(
                rows[moves[i].vertex as int],
                v,
            );
        if i < j {
            assert(source(part, moves, i) == p);
        }
    }
    if departs(rows, part, moves, j, v, p) {
        let i = choose|i: int|
            0 <= i < j && #[trigger] source(part, moves, i) == p && names(
                rows[moves[i].vertex as int],
                v,
            );
        assert(source(part, moves, i) == p);
    }
    let f = departed_term(rows, part, moves, v, p);
    let g = stirred_term(rows, moves, v);
    assert forall|i: int| 0 <= i < j implies magnitude(#[trigger] f(i)) <= g(i) by {
        lemma_row_extremes(rows[moves[i].vertex as int], v);
    }
    lemma_total_magnitude(j, f, g);
}

proof fn lemma_arrival_step(rows: Adjacency, moves: Seq<Move>, j: int, v: int, p: usize)
    requires
        0 <= j < moves.len(),
    ensures
        arrived(rows, moves, j + 1, v, p) == arrived(rows, moves, j, v, p) + (
        if moves[j].partition_id == p {
            toward(rows[moves[j].vertex as int], v)
        } else {
            0
        }),
        arrives(rows, moves, j + 1, v, p) <==> arrives(rows, moves, j, v, p) || (
        moves[j].partition_id == p && names(rows[moves[j].vertex as int], v)),
        magnitude(arrived(rows, moves, j, v, p)) <= stirred(rows, moves, j, v),
{
    if arrives(rows, moves, j + 1, v, p) {
        let i = choose|i: int|
            0 <= i < j + 1 && (#[trigger] moves[i]).partition_id == p && names(
                rows[moves[i].vertex as int],
                v,
            );
        if i < j {
            assert(moves[i].partition_id == p);
        }
    }
    if arrives(rows, moves, j, v, p) {
        let i = choose|i: int|
            0 <= i < j && (#[trigger] moves[i]).partition_id == p && names(
                rows[moves[i].vertex as int],
                v,
            );
        assert(moves[i].partition_id == p);
    }
    let f = arrived_term(rows, moves, v, p);
    let g = stirred_term(rows, moves, v);
    assert forall|i: int| 0 <= i < j implies magnitude(#[trigger] f(i)) <= g(i) by {
        lemma_row_extremes(rows[moves[i].vertex as int], v);
    }
    lemma_total_magnitude(j, f, g);
}

/// Moves vertices to their new parts and brings the connectivity table up to
/// date.
pub fn update_parts_and_vertex_connectivity(
    graph: &Graph,
    partition: &mut [usize],
    c: &mut Vec<HashMap<usize, i64>>,
    moves: &Vec<Move>,
)
    requires
        graph@.len() <= old(partition)@.len(),
        graph@.len() <= old(c)@.len(),
        movable(graph@, moves@),
        has_room(graph@, moves@, tables(old(c)@)),
    ensures
        final(partition)@ == relocated(old(partition)@, moves@, moves@.len() as int),
        follows(graph@, old(partition)@, moves@, tables(old(c)@), tables(final(c)@)),
{
    let ghost rows = graph@;
    let ghost part = partition@;
    let ghost steps = moves@;
    let ghost before = tables(c@);
    let ghost m = steps.len() as int;
    let mut j: usize = 0;
    while j < moves.len()
        invariant
            rows == graph@,
            steps == moves@,
            m == steps.len(),
            j <= m,
            rows.len() <= part.len(),
            partition@.len() == part.len(),
            rows.len() <= before.len(),
            c@.len() == before.len(),
            movable(rows, steps),
            has_room(rows, steps, before),
            partition@ == relocated(part, steps, j as int),
            forall|v: int, p: usize|
                0 <= v < before.len() ==> #[trigger] strength(tables(c@), v, p) == strength(
                    before,
                    v,
                    p,
                ) - departed(rows, part, steps, j as int, v, p),
            forall|v: int, p: usize|
                0 <= v < before.len() ==> (#[trigger] tables(c@)[v].contains_key(p) <==> (
                if departs(rows, part, steps, j as int, v, p) {
                    strength(before, v, p) != departed(rows, part, steps, j as int, v, p)
                } else {
                    before[v].contains_key(p)
                })),
        decreases m - j,
    {
        let vertex: usize = moves[j].vertex;
        assert(steps[j as int].vertex < rows.len());
        let from: usize = partition[vertex];
        let row: &Vec<(usize, i64)> = graph.neighbors(vertex);
        let ghost previous = tables(c@);
        proof {
            assert(from == source(part, steps, j as int));
            assert forall|v: int| 0 <= v < previous.len() implies magnitude(
                #[trigger] strength(previous, v, from),
            ) + pull(row@, v) <= i64::MAX by {
                lemma_stirred(rows, steps, j as int, v);
                lemma_departure_step(rows, part, steps, j as int, v, from);
                assert(strength(previous, v, from) == strength(before, v, from) - departed(
                    rows,
                    part,
                    steps,
                    j as int,
                    v,
                    from,
                ));
                assert(magnitude(strength(before, v, from)) + 2 * stirred(rows, steps, m, v)
                    <= i64::MAX);
            }
            assert forall|k: int| 0 <= k < row@.len() implies (#[trigger] row@[k]).0
                < previous.len() by {
                assert(rows[vertex as int][k].0 < rows.len());
            }
        }
        withdraw_row(row, from, c);
        partition[vertex] = moves[j].partition_id;
        proof {
            let current = tables(c@);
            assert forall|v: int, p: usize| 0 <= v < before.len() implies #[trigger] strength(
                current,
                v,
                p,
            ) == strength(before, v, p) - departed(rows, part, steps, j + 1, v, p) by {
                lemma_departure_step(rows, part, steps, j as int, v, p);
                assert(strength(previous, v, p) == strength(before, v, p) - departed(
                    rows,
                    part,
                    steps,
                    j as int,
                    v,
                    p,
                ));
            }
            assert forall|v: int, p: usize| 0 <= v < before.len() implies (
            #[trigger] current[v].contains_key(p) <==> (if departs(
                rows,
                part,
                steps,
                j + 1,
                v,
                p,
            ) {
                strength(before, v, p) != departed(rows, part, steps, j + 1, v, p)
            } else {
                before[v].contains_key(p)
            })) by {
                lemma_departure_step(rows, part, steps, j as int, v, p);
                assert(strength(previous, v, p) == strength(before, v, p) - departed(
                    rows,
                    part,
                    steps,
                    j as int,
                    v,
                    p,
                ));
                assert(previous[v].contains_key(p) <==> (if departs(
                    rows,
                    part,
                    steps,
                    j as int,
                    v,
                    p,
                ) {
                    strength(before, v, p) != departed(rows, part, steps, j as int, v, p)
                } else {
                    before[v].contains_key(p)
                }));
            }
        }
        j += 1;
    }
    let ghost between = tables(c@);
    j = 0;
    while j < moves.len()
        invariant
            rows == graph@,
            steps == moves@,
            m == steps.len(),
            j <= m,
            rows.len() <= before.len(),
            c@.len() == before.len() == between.len(),
            movable(rows, steps),
            has_room(rows, steps, before),
            partition@ == relocated(part, steps, m),
            forall|v: int, p: usize|
                0 <= v < before.len() ==> #[trigger] strength(between, v, p) == strength(
                    before,
                    v,
                    p,
                ) - departed(rows, part, steps, m, v, p),
            forall|v: int, p: usize|
                0 <= v < before.len() ==> #[trigger] strength(tables(c@), v, p) == strength(
                    between,
                    v,
                    p,
                ) + arrived(rows, steps, j as int, v, p),
            forall|v: int, p: usize|
                0 <= v < before.len() ==> (#[trigger] tables(c@)[v].contains_key(p)
                    <==> between[v].contains_key(p) || arrives(rows, steps, j as int, v, p)),
        decreases m - j,
    {
        let vertex: usize = moves[j].vertex;
        let to: usize = moves[j].partition_id;
        assert(steps[j as int].vertex < rows.len());
        let row: &Vec<(usize, i64)> = graph.neighbors(vertex);
        let ghost previous = tables(c@);
        proof {
            assert forall|v: int| 0 <= v < previous.len() implies magnitude(
                #[trigger] strength(previous, v, to),
            ) + pull(row@, v) <= i64::MAX by {
                lemma_stirred(rows, steps, j as int, v);
                lemma_stirred(rows, steps, m - 1, v);
                lemma_departure_step(rows, part, steps, m - 1, v, to);
                lemma_row_extremes(rows[steps[m - 1].vertex as int], v);
                lemma_arrival_step(rows, steps, j as int, v, to);
                assert(strength(between, v, to) == strength(before, v, to) - departed(
                    rows,
                    part,
                    steps,
                    m,
                    v,
                    to,
                ));
                assert(strength(previous, v, to) == strength(between, v, to) + arrived(
                    rows,
                    steps,
                    j as int,
                    v,
                    to,
                ));
                assert(magnitude(strength(before, v, to)) + 2 * stirred(rows, steps, m, v)
                    <= i64::MAX);
            }
            assert forall|k: int| 0 <= k < row@.len() implies (#[trigger] row@[k]).0
                < previous.len() by {
                assert(rows[vertex as int][k].0 < rows.len());
            }
        }
        deposit_row(row, to, c);
        proof {
            let current = tables(c@);
            assert forall|v: int, p: usize| 0 <= v < before.len() implies #[trigger] strength(
                current,
                v,
                p,
            ) == strength(between, v, p) + arrived(rows, steps, j + 1, v, p) by {
                lemma_arrival_step(rows, steps, j as int, v, p);
                assert(strength(previous, v, p) == strength(between, v, p) + arrived(
                    rows,
                    steps,
                    j as int,
                    v,
                    p,
                ));
            }
            assert forall|v: int, p: usize| 0 <= v < before.len() implies (
            #[trigger] current[v].contains_key(p) <==> between[v].contains_key(p) || arrives(
                rows,
                steps,
                j + 1,
                v,
                p,
            )) by {
                lemma_arrival_step(rows, steps, j as int, v, p);
                assert(previous[v].contains_key(p) <==> between[v].contains_key(p) || arrives(
                    rows,
                    steps,
                    j as int,
                    v,
                    p,
                ));
            }
        }
        j += 1;
    }
}

} // verus!
