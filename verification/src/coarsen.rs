//! Coarsening: replacing each group of vertices by one vertex.

use crate::double::Double;
use crate::matching::{
    covered, grouping, homes, law_matching_groups, lemma_last_holder, match_vertices, matching,
};
use crate::matrix::{column_count, no_entries, row_count, SparseMatrix};
use crate::random::{shuffle_with_entropy, shuffle_with_seed, shuffled};
use crate::topology::{in_range, lemma_row_mass, mass, row_mass, Adjacency, Graph};
use crate::total::{lemma_total_magnitude, lemma_total_nonneg, magnitude, total};
use crate::uncoarsen::{groups, last_holder};
use crate::weights::{sums_to, weight_of_group, weights_of};
use vstd::prelude::*;

verus! {

/// The coarse vertex that stands for vertex `v`: the group that holds it.
pub open spec fn holder(sets: Seq<Seq<usize>>, v: int) -> int {
    last_holder(sets, v as usize, sets.len() as int)
}

/// The weight of entry `k` of a list if it leads into group `b`.
pub open spec fn into_term(row: Seq<(usize, i64)>, sets: Seq<Seq<usize>>, b: int) -> spec_fn(
    int,
) -> int {
    |k: int|
        if holder(sets, row[k].0 as int) == b {
            row[k].1 as int
        } else {
            0
        }
}

/// The weight of the first `k` entries of a list that lead into group `b`.
pub open spec fn into(row: Seq<(usize, i64)>, sets: Seq<Seq<usize>>, b: int, k: int) -> int {
    total(k, into_term(row, sets, b))
}

/// The weight of the edges from vertex `v` into group `b` if `v` is in group
/// `a`.
pub open spec fn merged_term(rows: Adjacency, sets: Seq<Seq<usize>>, a: int, b: int) -> spec_fn(
    int,
) -> int {
    |v: int|
        if holder(sets, v) == a {
            into(rows[v], sets, b, rows[v].len() as int)
        } else {
            0
        }
}

/// The weight of the edges from group `a` to group `b`.
pub open spec fn merged(rows: Adjacency, sets: Seq<Seq<usize>>, a: int, b: int) -> int {
    total(rows.len() as int, merged_term(rows, sets, a, b))
}

/// Some edge leads from group `a` to group `b`.
pub open spec fn joined(rows: Adjacency, sets: Seq<Seq<usize>>, a: int, b: int) -> bool {
    exists|v: int, k: int|
        0 <= v < rows.len() && 0 <= k < rows[v].len() && holder(sets, v) == a && holder(
            sets,
            (#[trigger] rows[v][k]).0 as int,
        ) == b
}

/// The entries are the edges between different groups: there is one from
/// group `a` to group `b` exactly if an edge leads from the one to the other,
/// and it is the weight of all these edges.
pub open spec fn merges(
    rows: Adjacency,
    sets: Seq<Seq<usize>>,
    entries: Map<(usize, usize), i64>,
) -> bool {
    &&& forall|a: usize, b: usize| #[trigger]
        entries.contains_key((a, b)) <==> a != b && joined(rows, sets, a as int, b as int)
    &&& forall|a: usize, b: usize| #[trigger]
        entries.contains_key((a, b)) ==> entries[(a, b)] == merged(rows, sets, a as int, b as int)
}

/// The matrix is just large enough for its entries.
pub open spec fn snug(m: SparseMatrix) -> bool {
    &&& forall|a: usize, b: usize| #[trigger]
        m@.contains_key((a, b)) ==> a < row_count(m) && b < column_count(m)
    &&& row_count(m) > 0 ==> exists|a: usize, b: usize| #[trigger]
        m@.contains_key((a, b)) && a + 1 == row_count(m)
    &&& column_count(m) > 0 ==> exists|a: usize, b: usize| #[trigger]
        m@.contains_key((a, b)) && b + 1 == column_count(m)
}

/// The edges up to entry `k` of the list of vertex `v` lead from group `a` to
/// group `b`.
spec fn joined_upto(
    rows: Adjacency,
    sets: Seq<Seq<usize>>,
    a: int,
    b: int,
    v: int,
    k: int,
) -> bool {
    exists|x: int, j: int|
        0 <= x < rows.len() && 0 <= j < rows[x].len() && (x < v || (x == v && j < k)) && holder(
            sets,
            x,
        ) == a && holder(sets, (#[trigger] rows[x][j]).0 as int) == b
}

spec fn merged_upto(
    rows: Adjacency,
    sets: Seq<Seq<usize>>,
    a: int,
    b: int,
    v: int,
    k: int,
) -> int {
    total(v, merged_term(rows, sets, a, b)) + if holder(sets, v) == a {
        into(rows[v], sets, b, k)
    } else {
        0
    }
}

proof fn lemma_into_bound(rows: Adjacency, sets: Seq<Seq<usize>>, b: int, v: int, k: int)
    requires
        0 <= v < rows.len(),
        0 <= k <= rows[v].len(),
    ensures
        magnitude(into(rows[v], sets, b, k)) <= row_mass(rows, v),
{
    let weight = |j: int| magnitude(rows[v][j].1 as int);
    lemma_total_magnitude(k, into_term(rows[v], sets, b), weight);
    lemma_total_nonneg(rows[v].len() as int, weight);
    assert(total(k, weight) <= total(rows[v].len() as int, weight));
    assert(row_mass(rows, v) == total(rows[v].len() as int, weight));
}

proof fn lemma_merged_bound(
    rows: Adjacency,
    sets: Seq<Seq<usize>>,
    a: int,
    b: int,
    v: int,
    k: int,
)
    requires
        0 <= v < rows.len(),
        0 <= k <= rows[v].len(),
    ensures
        magnitude(merged_upto(rows, sets, a, b, v, k)) <= mass(rows),
{
    let n = rows.len() as int;
    let f = merged_term(rows, sets, a, b);
    let g = |x: int| row_mass(rows, x);
    assert forall|x: int| 0 <= x < n implies magnitude(#[trigger] f(x)) <= g(x) && g(x) >= 0 by {
        lemma_row_mass(rows, x);
        lemma_into_bound(rows, sets, b, x, rows[x].len() as int);
    }
    lemma_total_magnitude(v, f, g);
    lemma_into_bound(rows, sets, b, v, k);
    assert forall|x: int| 0 <= x < n implies #[trigger] g(x) >= 0 by {
        lemma_row_mass(rows, x);
    }
    lemma_total_nonneg(n, g);
    assert(total(v + 1, g) <= total(n, g));
    assert(total(v + 1, g) == total(v, g) + g(v));
    assert(mass(rows) == total(n, g));
}

/// Builds the matrix of the edges between different groups.
fn merge_edges(graph: &Graph, home: &Vec<Option<usize>>, sets: Ghost<Seq<Seq<usize>>>) -> (m:
    SparseMatrix)
    requires
        home@.len() == graph@.len(),
        homes(sets@, home@),
        grouping(sets@, graph@.len() as int),
        sets@.len() <= graph@.len(),
        forall|v: usize| v < graph@.len() ==> #[trigger] covered(sets@, v),
        mass(graph@) <= i64::MAX,
        16 * (graph@.len() + 2) <= isize::MAX,
    ensures
        merges(graph@, sets@, m@),
        snug(m),
{
    let ghost rows = graph@;
    let n: usize = graph.len();
    let mut m: SparseMatrix = SparseMatrix::new();
    assert(m@ == no_entries());
    let mut v: usize = 0;
    proof {
        assert forall|a: int, b: int| !joined_upto(rows, sets@, a, b, 0, 0) by {}
    }
    while v < n
        invariant
            rows == graph@,
            n == rows.len(),
            in_range(rows),
            home@.len() == rows.len(),
            homes(sets@, home@),
            grouping(sets@, rows.len() as int),
            sets@.len() <= rows.len(),
            forall|x: usize| x < rows.len() ==> #[trigger] covered(sets@, x),
            mass(rows) <= i64::MAX,
            16 * (rows.len() + 2) <= isize::MAX,
            v <= n,
            snug(m),
            forall|a: usize, b: usize| #[trigger]
                m@.contains_key((a, b)) <==> a != b && joined_upto(
                    rows,
                    sets@,
                    a as int,
                    b as int,
                    v as int,
                    0,
                ),
            forall|a: usize, b: usize| #[trigger]
                m@.contains_key((a, b)) ==> m@[(a, b)] == merged_upto(
                    rows,
                    sets@,
                    a as int,
                    b as int,
                    v as int,
                    0,
                ),
            forall|a: int, b: int|
                !joined_upto(rows, sets@, a, b, v as int, 0) ==> #[trigger] merged_upto(
                    rows,
                    sets@,
                    a,
                    b,
                    v as int,
                    0,
                ) == 0,
        decreases n - v,
    {
        let row: &Vec<(usize, i64)> = graph.neighbors(v);
        let a: usize = home_of(home, v, sets);
        let mut k: usize = 0;
        while k < row.len()
            invariant
                rows == graph@,
                n == rows.len(),
                in_range(rows),
                row@ == rows[v as int],
                home@.len() == rows.len(),
                homes(sets@, home@),
                grouping(sets@, rows.len() as int),
                sets@.len() <= rows.len(),
                forall|x: usize| x < rows.len() ==> #[trigger] covered(sets@, x),
                mass(rows) <= i64::MAX,
                16 * (rows.len() + 2) <= isize::MAX,
                v < n,
                a == holder(sets@, v as int),
                a < sets@.len(),
                k <= row@.len(),
                snug(m),
                forall|x: usize, y: usize| #[trigger]
                    m@.contains_key((x, y)) <==> x != y && joined_upto(
                        rows,
                        sets@,
                        x as int,
                        y as int,
                        v as int,
                        k as int,
                    ),
                forall|x: usize, y: usize| #[trigger]
                    m@.contains_key((x, y)) ==> m@[(x, y)] == merged_upto(
                        rows,
                        sets@,
                        x as int,
                        y as int,
                        v as int,
                        k as int,
                    ),
                forall|x: int, y: int|
                    !joined_upto(rows, sets@, x, y, v as int, k as int)
                        ==> #[trigger] merged_upto(
                        rows,
                        sets@,
                        x,
                        y,
                        v as int,
                        k as int,
                    ) == 0,
            decreases row@.len() - k,
        {
            let (u, w) = row[k];
            assert(rows[v as int][k as int].0 < rows.len());
            let b: usize = home_of(home, u, sets);
            let ghost before = m;
            proof {
                lemma_merged_step(rows, sets@, v as int, k as int);
                lemma_merged_bound(
                    rows,
                    sets@,
                    a as int,
                    b as int,
                    v as int,
                    k + 1,
                );
                assert(merged_upto(rows, sets@, a as int, b as int, v as int, k + 1)
                    == merged_upto(rows, sets@, a as int, b as int, v as int, k as int) + w);
            }
            if a != b {
                let present: i64 = match m.get(a, b) {
                    Some(x) => x,
                    None => 0,
                };
                assert(present == merged_upto(
                    rows,
                    sets@,
                    a as int,
                    b as int,
                    v as int,
                    k as int,
                )) by {
                    if !m@.contains_key((a, b)) {
                        assert(!joined_upto(
                            rows,
                            sets@,
                            a as int,
                            b as int,
                            v as int,
                            k as int,
                        ));
                    }
                }
                m.insert(a, b, present + w);
                proof {
                    lemma_snug_insert(before, m, a, b);
                }
            }
            assert forall|x: usize, y: usize| #[trigger]
                m@.contains_key((x, y)) <==> x != y && joined_upto(
                    rows,
                    sets@,
                    x as int,
                    y as int,
                    v as int,
                    k + 1,
                ) by {
                assert(before@.contains_key((x, y)) <==> x != y && joined_upto(
                    rows,
                    sets@,
                    x as int,
                    y as int,
                    v as int,
                    k as int,
                ));
            }
            assert forall|x: usize, y: usize| #[trigger] m@.contains_key((x, y)) implies m@[(x, y)]
                == merged_upto(rows, sets@, x as int, y as int, v as int, k + 1) by {
                if before@.contains_key((x, y)) {
                    assert(before@[(x, y)] == merged_upto(
                        rows,
                        sets@,
                        x as int,
                        y as int,
                        v as int,
                        k as int,
                    ));
                }
            }
            k += 1;
        }
        proof {
            lemma_merged_row(rows, sets@, v as int);
        }
        assert forall|x: usize, y: usize| #[trigger]
            m@.contains_key((x, y)) <==> x != y && joined_upto(
                rows,
                sets@,
                x as int,
                y as int,
                v + 1,
                0,
            ) by {
            assert(joined_upto(rows, sets@, x as int, y as int, v + 1, 0) <==> joined_upto(
                rows,
                sets@,
                x as int,
                y as int,
                v as int,
                row@.len() as int,
            ));
        }
        assert forall|x: usize, y: usize| #[trigger] m@.contains_key((x, y)) implies m@[(x, y)]
            == merged_upto(rows, sets@, x as int, y as int, v + 1, 0) by {}
        v += 1;
    }
    proof {
        assert forall|x: usize, y: usize| #[trigger]
            m@.contains_key((x, y)) <==> x != y && joined(rows, sets@, x as int, y as int) by {
            lemma_all_joined(rows, sets@, x as int, y as int);
        }
        assert forall|x: usize, y: usize| #[trigger] m@.contains_key((x, y)) implies m@[(x, y)]
            == merged(rows, sets@, x as int, y as int) by {
            lemma_all_joined(rows, sets@, x as int, y as int);
        }
    }
    m
}

proof fn lemma_all_joined(rows: Adjacency, sets: Seq<Seq<usize>>, a: int, b: int)
    ensures
        joined_upto(rows, sets, a, b, rows.len() as int, 0) <==> joined(rows, sets, a, b),
        merged_upto(rows, sets, a, b, rows.len() as int, 0) == merged(rows, sets, a, b),
{
    let n = rows.len() as int;
    assert(into(rows[n], sets, b, 0) == 0);
    if joined_upto(rows, sets, a, b, n, 0) {
        let (x, j) = choose|x: int, j: int|
            0 <= x < rows.len() && 0 <= j < rows[x].len() && (x < n || (x == n && j < 0)) && holder(
                sets,
                x,
            ) == a && holder(sets, (#[trigger] rows[x][j]).0 as int) == b;
        assert(holder(sets, rows[x][j].0 as int) == b);
    }
    if joined(rows, sets, a, b) {
        let (x, j) = choose|x: int, j: int|
            0 <= x < rows.len() && 0 <= j < rows[x].len() && holder(sets, x) == a && holder(
                sets,
                (#[trigger] rows[x][j]).0 as int,
            ) == b;
        assert(holder(sets, rows[x][j].0 as int) == b);
    }
}

proof fn lemma_merged_step(rows: Adjacency, sets: Seq<Seq<usize>>, v: int, k: int)
    requires
        0 <= v < rows.len(),
        0 <= k < rows[v].len(),
    ensures
        forall|a: int, b: int| #[trigger]
            joined_upto(rows, sets, a, b, v, k + 1) <==> joined_upto(rows, sets, a, b, v, k) || (
            holder(sets, v) == a && holder(sets, rows[v][k].0 as int) == b),
        forall|a: int, b: int| #[trigger]
            merged_upto(rows, sets, a, b, v, k + 1) == merged_upto(rows, sets, a, b, v, k) + (
            if holder(sets, v) == a && holder(sets, rows[v][k].0 as int) == b {
                rows[v][k].1 as int
            } else {
                0
            }),
{
    assert forall|a: int, b: int| #[trigger]
        joined_upto(rows, sets, a, b, v, k + 1) <==> joined_upto(rows, sets, a, b, v, k) || (holder(
            sets,
            v,
        ) == a && holder(sets, rows[v][k].0 as int) == b) by {
        if joined_upto(rows, sets, a, b, v, k + 1) {
            let (x, j) = choose|x: int, j: int|
                0 <= x < rows.len() && 0 <= j < rows[x].len() && (x < v || (x == v && j < k + 1))
                    && holder(sets, x) == a && holder(sets, (#[trigger] rows[x][j]).0 as int) == b;
            assert(holder(sets, rows[x][j].0 as int) == b);
        }
        if joined_upto(rows, sets, a, b, v, k) {
            let (x, j) = choose|x: int, j: int|
                0 <= x < rows.len() && 0 <= j < rows[x].len() && (x < v || (x == v && j < k))
                    && holder(sets, x) == a && holder(sets, (#[trigger] rows[x][j]).0 as int) == b;
            assert(holder(sets, rows[x][j].0 as int) == b);
        }
        if holder(sets, v) == a && holder(sets, rows[v][k].0 as int) == b {
            assert(joined_upto(rows, sets, a, b, v, k + 1));
        }
    }
    assert forall|a: int, b: int| #[trigger]
        merged_upto(rows, sets, a, b, v, k + 1) == merged_upto(rows, sets, a, b, v, k) + if holder(
            sets,
            v,
        ) == a && holder(sets, rows[v][k].0 as int) == b {
            rows[v][k].1 as int
        } else {
            0
        } by {
        let f = into_term(rows[v], sets, b);
        assert(total(k + 1, f) == total(k, f) + f(k));
    }
}

proof fn lemma_merged_row(rows: Adjacency, sets: Seq<Seq<usize>>, v: int)
    requires
        0 <= v < rows.len(),
    ensures
        forall|a: int, b: int| #[trigger]
            joined_upto(rows, sets, a, b, v + 1, 0) <==> joined_upto(
                rows,
                sets,
                a,
                b,
                v,
                rows[v].len() as int,
            ),
        forall|a: int, b: int| #[trigger]
            merged_upto(rows, sets, a, b, v + 1, 0) == merged_upto(
                rows,
                sets,
                a,
                b,
                v,
                rows[v].len() as int,
            ),
{
    let m = rows[v].len() as int;
    assert forall|a: int, b: int| #[trigger]
        joined_upto(rows, sets, a, b, v + 1, 0) <==> joined_upto(rows, sets, a, b, v, m) by {
        if joined_upto(rows, sets, a, b, v + 1, 0) {
            let (x, j) = choose|x: int, j: int|
                0 <= x < rows.len() && 0 <= j < rows[x].len() && (x < v + 1 || (x == v + 1 && j
                    < 0)) && holder(sets, x) == a && holder(
                    sets,
                    (#[trigger] rows[x][j]).0 as int,
                ) == b;
            assert(holder(sets, rows[x][j].0 as int) == b);
        }
        if joined_upto(rows, sets, a, b, v, m) {
            let (x, j) = choose|x: int, j: int|
                0 <= x < rows.len() && 0 <= j < rows[x].len() && (x < v || (x == v && j < m))
                    && holder(sets, x) == a && holder(sets, (#[trigger] rows[x][j]).0 as int) == b;
            assert(holder(sets, rows[x][j].0 as int) == b);
        }
    }
    assert forall|a: int, b: int| #[trigger]
        merged_upto(rows, sets, a, b, v + 1, 0) == merged_upto(rows, sets, a, b, v, m) by {
        let f = merged_term(rows, sets, a, b);
        assert(total(v + 1, f) == total(v, f) + f(v));
        assert(into(rows[v + 1], sets, b, 0) == 0);
    }
}

proof fn lemma_snug_insert(before: SparseMatrix, after: SparseMatrix, row: usize, col: usize)
    requires
        snug(before),
        row < usize::MAX,
        col < usize::MAX,
        exists|value: i64| after@ == #[trigger] before@.insert((row, col), value),
        row_count(after) == if row < row_count(before) {
            row_count(before)
        } else {
            row as nat + 1
        },
        column_count(after) == if col < column_count(before) {
            column_count(before)
        } else {
            col as nat + 1
        },
    ensures
        snug(after),
{
    assert(after@.contains_key((row, col)));
    assert forall|a: usize, b: usize| #[trigger] after@.contains_key((a, b)) implies a < row_count(
        after,
    ) && b < column_count(after) by {
        if (a, b) != (row, col) {
            assert(before@.contains_key((a, b)));
        }
    }
    if row < row_count(before) {
        let (a, b) = choose|a: usize, b: usize| #[trigger]
            before@.contains_key((a, b)) && a + 1 == row_count(before);
        assert(after@.contains_key((a, b)));
    }
    if col < column_count(before) {
        let (a, b) = choose|a: usize, b: usize| #[trigger]
            before@.contains_key((a, b)) && b + 1 == column_count(before);
        assert(after@.contains_key((a, b)));
    }
}

/// The group that holds a vertex.
fn home_of(home: &Vec<Option<usize>>, v: usize, sets: Ghost<Seq<Seq<usize>>>) -> (c: usize)
    requires
        v < home@.len(),
        homes(sets@, home@),
        grouping(sets@, home@.len() as int),
        covered(sets@, v),
    ensures
        c < sets@.len(),
        c == holder(sets@, v as int),
{
    let ghost d = choose|d: int| 0 <= d < sets@.len() && (#[trigger] sets@[d]).contains(v);
    proof {
        assert(home@[v as int] == Some(d as usize));
        let c = home@[v as int]->0;
        assert(sets@[c as int].contains(v));
        lemma_last_holder(sets@, home@.len() as int, c as int, v, sets@.len() as int);
    }
    match home[v] {
        Some(c) => c,
        None => 0,
    }
}

/// The vertices below `n` in ascending order.
pub open spec fn ascending(n: nat) -> Seq<usize> {
    Seq::new(n, |v: int| v as usize)
}

/// The order visits every vertex below `n`, and nothing else.
pub open spec fn visits_all(order: Seq<usize>, n: nat) -> bool {
    &&& order.len() == n
    &&& forall|i: int| 0 <= i < order.len() ==> #[trigger] order[i] < n
    &&& forall|v: usize| v < n ==> #[trigger] order.contains(v)
}

/// The last group has an edge to another group, or there are no groups.
pub open spec fn last_joined(rows: Adjacency, sets: Seq<Seq<usize>>) -> bool {
    sets.len() == 0 || exists|b: usize|
        b != sets.len() - 1 && #[trigger] joined(rows, sets, sets.len() - 1, b as int)
}

/// The matrix, the groups and the weights are what coarsening makes of a graph
/// when its vertices are visited in the given order.
pub open spec fn coarsens<F: Fn(Double, Double) -> Double>(
    plus: F,
    rows: Adjacency,
    weights: Seq<Double>,
    order: Seq<usize>,
    m: SparseMatrix,
    sets: Seq<Seq<usize>>,
    coarse_weights: Seq<Double>,
) -> bool {
    &&& sets == matching(rows, order, order.len() as int)
    &&& merges(rows, sets, m@)
    &&& snug(m)
    &&& row_count(m) == sets.len()
    &&& coarse_weights.len() == sets.len()
    &&& forall|c: int|
        0 <= c < sets.len() ==> sums_to(
            plus,
            weights_of(sets[c], weights),
            #[trigger] coarse_weights[c],
        )
}

proof fn lemma_holder_below(sets: Seq<Seq<usize>>, v: usize, k: int)
    requires
        k >= 0,
    ensures
        -1 <= last_holder(sets, v, k) < k || k == 0,
        last_holder(sets, v, k) < sets.len() || k > sets.len(),
    decreases k,
{
    if k > 0 {
        lemma_holder_below(sets, v, k - 1);
    }
}

/// Every group of a matching that visits all vertices is found, and every
/// vertex is in one.
pub proof fn lemma_matching_complete(rows: Adjacency, order: Seq<usize>)
    requires
        in_range(rows),
        visits_all(order, rows.len()),
    ensures
        grouping(matching(rows, order, order.len() as int), rows.len() as int),
        matching(rows, order, order.len() as int).len() <= rows.len(),
        forall|v: usize|
            v < rows.len() ==> #[trigger] covered(matching(rows, order, order.len() as int), v),
{
    law_matching_groups(rows, order, order.len() as int);
    let sets = matching(rows, order, order.len() as int);
    assert forall|v: usize| v < rows.len() implies #[trigger] covered(sets, v) by {
        assert(order.contains(v));
        let i = choose|i: int| 0 <= i < order.len() && order[i] == v;
        assert(covered(sets, order[i]));
    }
}

/// Coarsens a graph, visiting its vertices in a given order: pairs them by
/// heavy edge matching, joins the edges between different groups, and adds up
/// the weights of each group.
///
/// There is no result if the last group has no edge to another one: the matrix
/// then ends before it, so that there is no place for its weight.
pub fn coarsen<F: Fn(Double, Double) -> Double + Copy>(
    graph: &Graph,
    order: &[usize],
    weights: &[Double],
    plus: F,
) -> (result: Option<(SparseMatrix, Vec<Vec<usize>>, Vec<Double>)>)
    requires
        visits_all(order@, graph@.len()),
        graph@.len() <= weights@.len(),
        mass(graph@) <= i64::MAX,
        16 * (graph@.len() + 2) <= isize::MAX,
        forall|a: Double, b: Double| call_requires(plus, (a, b)),
    ensures
        result is Some <==> last_joined(
            graph@,
            matching(graph@, order@, order@.len() as int),
        ),
        result matches Some(coarse) ==> coarsens(
            plus,
            graph@,
            weights@,
            order@,
            coarse.0,
            groups(coarse.1@),
            coarse.2@,
        ),
{
    let ghost rows = graph@;
    let n: usize = graph.len();
    let (mapping, home) = match_vertices(graph, order);
    let ghost sets = groups(mapping@);
    proof {
        lemma_matching_complete(rows, order@);
    }
    let m: SparseMatrix = merge_edges(graph, &home, Ghost(sets));
    proof {
        assert(sets.len() == mapping@.len());
        assert(row_count(m) <= sets.len()) by {
            if row_count(m) > 0 {
                let (a, b) = choose|a: usize, b: usize| #[trigger]
                    m@.contains_key((a, b)) && a + 1 == row_count(m);
                assert(joined(rows, sets, a as int, b as int));
                let (v, k) = choose|v: int, k: int|
                    0 <= v < rows.len() && 0 <= k < rows[v].len() && holder(sets, v) == a && holder(
                        sets,
                        (#[trigger] rows[v][k]).0 as int,
                    ) == b;
                lemma_holder_below(sets, v as usize, sets.len() as int);
            }
        }
        if last_joined(rows, sets) && sets.len() > 0 {
            let b = choose|b: usize|
                b != sets.len() - 1 && #[trigger] joined(rows, sets, sets.len() - 1, b as int);
            let a = (sets.len() - 1) as usize;
            assert(m@.contains_key((a, b)));
        }
        if row_count(m) == sets.len() && sets.len() > 0 {
            let (a, b) = choose|a: usize, b: usize| #[trigger]
                m@.contains_key((a, b)) && a + 1 == row_count(m);
            assert(joined(rows, sets, sets.len() - 1, b as int));
        }
    }
    if m.rows() < mapping.len() {
        return None;
    }
    let mut coarse_weights: Vec<Double> = Vec::new();
    while coarse_weights.len() < mapping.len()
        invariant
            rows.len() <= weights@.len(),
            sets == groups(mapping@),
            grouping(sets, rows.len() as int),
            coarse_weights@.len() <= mapping@.len(),
            forall|a: Double, b: Double| call_requires(plus, (a, b)),
            forall|c: int|
                0 <= c < coarse_weights@.len() ==> sums_to(
                    plus,
                    weights_of(sets[c], weights@),
                    #[trigger] coarse_weights@[c],
                ),
        decreases mapping@.len() - coarse_weights@.len(),
    {
        let c: usize = coarse_weights.len();
        assert(sets[c as int] == mapping@[c as int]@);
        assert forall|k: int| 0 <= k < mapping@[c as int]@.len() implies (
        #[trigger] mapping@[c as int]@[k]) < weights@.len() by {
            assert(sets[c as int].contains(sets[c as int][k]));
        }
        let weight: Double = weight_of_group(&mapping[c], weights, plus);
        coarse_weights.push(weight);
    }
    Some((m, mapping, coarse_weights))
}

/// Lists the vertices below `n` in ascending order.
pub(crate) fn list_ascending(n: usize) -> (order: Vec<usize>)
    ensures
        order@ == ascending(n as nat),
{
    let mut order: Vec<usize> = Vec::new();
    while order.len() < n
        invariant
            order@.len() <= n,
            forall|v: int| 0 <= v < order@.len() ==> #[trigger] order@[v] == v,
        decreases n - order@.len(),
    {
        order.push(order.len());
    }
    assert(order@ =~= ascending(n as nat));
    order
}

/// Shuffling the vertices gives an order that visits them all.
pub proof fn lemma_shuffle_visits_all(order: Seq<usize>, n: nat)
    requires
        order.to_multiset() == ascending(n).to_multiset(),
        n <= usize::MAX,
    ensures
        visits_all(order, n),
{
    let first = ascending(n);
    order.to_multiset_ensures();
    first.to_multiset_ensures();
    assert forall|i: int| 0 <= i < order.len() implies #[trigger] order[i] < n by {
        assert(order.contains(order[i]));
        assert(first.to_multiset().count(order[i]) > 0);
        assert(first.contains(order[i]));
    }
    assert forall|v: usize| v < n implies #[trigger] order.contains(v) by {
        assert(first[v as int] == v);
        assert(first.contains(v));
        assert(order.to_multiset().count(v) > 0);
    }
}

/// Coarsens a graph by heavy edge matching, visiting its vertices in a random
/// order: one that the seed determines, or a new one each time if there is no
/// seed.
///
/// There is no result if the last group has no edge to another one.
pub fn heavy_edge_matching_coarse<F: Fn(Double, Double) -> Double + Copy>(
    graph: &Graph,
    seed: Option<u64>,
    weights: &[Double],
    plus: F,
) -> (result: Option<(SparseMatrix, Vec<Vec<usize>>, Vec<Double>)>)
    requires
        graph@.len() <= weights@.len(),
        mass(graph@) <= i64::MAX,
        16 * (graph@.len() + 2) <= isize::MAX,
        forall|a: Double, b: Double| call_requires(plus, (a, b)),
    ensures
        exists|order: Seq<usize>| #[trigger]
            visits_all(order, graph@.len()) && (seed matches Some(s) ==> order == shuffled(
                ascending(graph@.len()),
                s,
            )) && (result is Some <==> last_joined(
                graph@,
                matching(graph@, order, order.len() as int),
            )) && (result matches Some(coarse) ==> coarsens(
                plus,
                graph@,
                weights@,
                order,
                coarse.0,
                groups(coarse.1@),
                coarse.2@,
            )),
{
    let n: usize = graph.len();
    let mut order: Vec<usize> = list_ascending(n);
    match seed {
        Some(s) => {
            shuffle_with_seed(&mut order, s);
        },
        None => {
            shuffle_with_entropy(&mut order);
        },
    }
    proof {
        lemma_shuffle_visits_all(order@, n as nat);
    }
    coarsen(graph, order.as_slice(), weights, plus)
}

} // verus!
