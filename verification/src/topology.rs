//! Weighted graphs as adjacency lists, and the edge cut of a partition.

use crate::total::{
    lemma_total_exchange, lemma_total_ext, lemma_total_magnitude, lemma_total_nonneg,
    lemma_total_plus, lemma_total_point, lemma_total_zero, magnitude, total,
};
use vstd::prelude::*;

verus! {

/// The adjacency lists of a graph: entry `v` lists the neighbors of vertex
/// `v`, each with the weight of the edge that leads to it.
pub type Adjacency = Seq<Seq<(usize, i64)>>;

/// Every neighbor is a vertex of the graph.
pub open spec fn in_range(rows: Adjacency) -> bool {
    forall|v: int, k: int|
        0 <= v < rows.len() && 0 <= k < rows[v].len() ==> (#[trigger] rows[v][k]).0 < rows.len()
}

/// The weight of entry `k` of a list if it names `b`.
pub open spec fn toward_term(row: Seq<(usize, i64)>, b: int) -> spec_fn(int) -> int {
    |k: int|
        if row[k].0 == b {
            row[k].1 as int
        } else {
            0
        }
}

/// The total weight of the entries of a list that name `b`.
pub open spec fn toward(row: Seq<(usize, i64)>, b: int) -> int {
    total(row.len() as int, toward_term(row, b))
}

/// The list names `b`.
pub open spec fn names(row: Seq<(usize, i64)>, b: int) -> bool {
    exists|k: int| 0 <= k < row.len() && (#[trigger] row[k]).0 == b
}

/// The total weight of the edges that lead from `a` to `b`.
pub open spec fn between(rows: Adjacency, a: int, b: int) -> int {
    toward(rows[a], b)
}

/// The graph is undirected: each edge is listed from both of its ends.
pub open spec fn symmetric(rows: Adjacency) -> bool {
    forall|a: int, b: int|
        0 <= a < rows.len() && 0 <= b < rows.len() ==> #[trigger] between(rows, a, b) == between(
            rows,
            b,
            a,
        )
}

/// Every edge weight is positive.
pub open spec fn positive(rows: Adjacency) -> bool {
    forall|v: int, k: int|
        0 <= v < rows.len() && 0 <= k < rows[v].len() ==> (#[trigger] rows[v][k]).1 > 0
}

/// No vertex is its own neighbor.
pub open spec fn loop_free(rows: Adjacency) -> bool {
    forall|v: int, k: int|
        0 <= v < rows.len() && 0 <= k < rows[v].len() ==> (#[trigger] rows[v][k]).0 != v
}

/// No vertex has an edge of positive weight to itself.
pub open spec fn no_positive_loops(rows: Adjacency) -> bool {
    forall|v: int, k: int|
        0 <= v < rows.len() && 0 <= k < rows[v].len() && (#[trigger] rows[v][k]).0 == v
            ==> rows[v][k].1 <= 0
}

/// The sum of the absolute edge weights in the list of `v`.
pub open spec fn row_mass(rows: Adjacency, v: int) -> int {
    total(rows[v].len() as int, |k: int| magnitude(rows[v][k].1 as int))
}

/// The sum of the absolute edge weights in all lists.
pub open spec fn mass(rows: Adjacency) -> int {
    total(rows.len() as int, |v: int| row_mass(rows, v))
}

/// Four times the sum of the absolute edge weights fits in an `i64`, so that
/// no sum or difference of connectivities can overflow.
pub open spec fn fits(rows: Adjacency) -> bool {
    4 * mass(rows) <= i64::MAX
}

/// The weight of entry `k` of the list of `v` if it leads to part `p`.
pub open spec fn link_term(rows: Adjacency, part: Seq<usize>, v: int, p: usize) -> spec_fn(
    int,
) -> int {
    |k: int|
        if part[rows[v][k].0 as int] == p {
            rows[v][k].1 as int
        } else {
            0
        }
}

/// The weight of the edges from `v` to vertices of part `p`.
pub open spec fn link(rows: Adjacency, part: Seq<usize>, v: int, p: usize) -> int {
    total(rows[v].len() as int, link_term(rows, part, v, p))
}

/// What the list of `v` adds to the edge cut: the weight of its edges to
/// smaller vertices in other parts.
pub open spec fn row_cut(rows: Adjacency, part: Seq<usize>, v: int) -> int {
    total(
        rows[v].len() as int,
        |k: int|
            if rows[v][k].0 < v && part[rows[v][k].0 as int] != part[v] {
                rows[v][k].1 as int
            } else {
                0
            },
    )
}

/// The edge cut of a partition: the weight of the edges whose ends lie in
/// different parts, each edge counted from its larger end.
pub open spec fn cut(rows: Adjacency, part: Seq<usize>) -> int {
    total(rows.len() as int, |v: int| row_cut(rows, part, v))
}

/// The edges in the first `v` lists, in order, each as its two ends and its
/// weight.
pub open spec fn edges_of(rows: Adjacency, v: int) -> Seq<((usize, usize), i64)>
    decreases v,
{
    if v <= 0 {
        Seq::empty()
    } else {
        edges_of(rows, v - 1) + Seq::new(
            rows[v - 1].len(),
            |k: int| (((v - 1) as usize, rows[v - 1][k].0), rows[v - 1][k].1),
        )
    }
}

/// Summing over a list is summing over the vertices: the entries that satisfy
/// a condition on the neighbor weigh as much as the edges to the vertices
/// that satisfy it.
pub proof fn lemma_regroup(rows: Adjacency, v: int, q: spec_fn(int) -> bool)
    requires
        in_range(rows),
        0 <= v < rows.len(),
    ensures
        total(
            rows[v].len() as int,
            |k: int|
                if q(rows[v][k].0 as int) {
                    rows[v][k].1 as int
                } else {
                    0
                },
        ) == total(
            rows.len() as int,
            |a: int|
                if q(a) {
                    between(rows, v, a)
                } else {
                    0
                },
        ),
{
    let n = rows.len() as int;
    let m = rows[v].len() as int;
    let cell = |k: int, a: int|
        if rows[v][k].0 == a && q(a) {
            rows[v][k].1 as int
        } else {
            0
        };
    let entry = |k: int|
        if q(rows[v][k].0 as int) {
            rows[v][k].1 as int
        } else {
            0
        };
    let vertex = |a: int|
        if q(a) {
            between(rows, v, a)
        } else {
            0
        };
    lemma_total_exchange(m, n, cell);
    let by_entry = |k: int| total(n, |a: int| cell(k, a));
    let by_vertex = |a: int| total(m, |k: int| cell(k, a));
    assert forall|k: int| 0 <= k < m implies #[trigger] by_entry(k) == entry(k) by {
        let u = rows[v][k].0 as int;
        lemma_total_point(n, u, |a: int| cell(k, a));
    }
    lemma_total_ext(m, by_entry, entry);
    assert forall|a: int| 0 <= a < n implies #[trigger] by_vertex(a) == vertex(a) by {
        if q(a) {
            lemma_total_ext(
                m,
                |k: int| cell(k, a),
                toward_term(rows[v], a),
            );
        } else {
            lemma_total_zero(m, |k: int| cell(k, a));
        }
    }
    lemma_total_ext(n, by_vertex, vertex);
}

/// The list of each vertex weighs no more than the whole graph, and no sum of
/// chosen entries of a list exceeds what the list weighs.
pub proof fn lemma_row_mass(rows: Adjacency, v: int)
    requires
        0 <= v < rows.len(),
    ensures
        0 <= row_mass(rows, v) <= mass(rows),
{
    let f = |x: int| row_mass(rows, x);
    assert forall|x: int| 0 <= x < rows.len() implies #[trigger] f(x) >= 0 by {
        lemma_total_nonneg(rows[x].len() as int, |k: int| magnitude(rows[x][k].1 as int));
    }
    lemma_total_nonneg(rows.len() as int, f);
    assert(f(v) <= total(rows.len() as int, f));
}

/// The weight of the edges from `v` to `u` if they are in different parts.
pub open spec fn apart_term(rows: Adjacency, part: Seq<usize>, v: int) -> spec_fn(int) -> int {
    |u: int|
        if part[u] != part[v] {
            between(rows, v, u)
        } else {
            0
        }
}

/// The weight of the edges from `v` to vertices of other parts.
pub open spec fn apart(rows: Adjacency, part: Seq<usize>) -> spec_fn(int) -> int {
    |v: int| total(rows.len() as int, apart_term(rows, part, v))
}

/// The weight of the edges between different parts, counted from each end
/// that lists them.
pub open spec fn double_cut(rows: Adjacency, part: Seq<usize>) -> int {
    total(rows.len() as int, apart(rows, part))
}

/// In an undirected graph the edge cut counts each edge between different
/// parts once: counted from both ends, these edges weigh twice as much.
pub proof fn law_cut_counts_edges_once(rows: Adjacency, part: Seq<usize>)
    requires
        in_range(rows),
        symmetric(rows),
    ensures
        double_cut(rows, part) == 2 * cut(rows, part),
{
    let n = rows.len() as int;
    let lower = |v: int, u: int|
        if u < v && part[u] != part[v] {
            between(rows, v, u)
        } else {
            0
        };
    let upper = |v: int, u: int|
        if v < u && part[u] != part[v] {
            between(rows, v, u)
        } else {
            0
        };
    let cut_row = |v: int| row_cut(rows, part, v);
    let lower_row = |v: int| total(n, |u: int| lower(v, u));
    let upper_row = |v: int| total(n, |u: int| upper(v, u));
    let both_row = apart(rows, part);
    assert forall|v: int| 0 <= v < n implies #[trigger] cut_row(v) == lower_row(v) by {
        let q = |a: int| a < v && part[a] != part[v];
        lemma_regroup(rows, v, q);
        lemma_total_ext(
            rows[v].len() as int,
            |k: int|
                if q(rows[v][k].0 as int) {
                    rows[v][k].1 as int
                } else {
                    0
                },
            |k: int|
                if rows[v][k].0 < v && part[rows[v][k].0 as int] != part[v] {
                    rows[v][k].1 as int
                } else {
                    0
                },
        );
        lemma_total_ext(
            n,
            |a: int|
                if q(a) {
                    between(rows, v, a)
                } else {
                    0
                },
            |u: int| lower(v, u),
        );
    }
    lemma_total_ext(n, cut_row, lower_row);
    assert forall|v: int| 0 <= v < n implies #[trigger] both_row(v) == lower_row(v) + upper_row(
        v,
    ) by {
        lemma_total_plus(
            n,
            |u: int| lower(v, u),
            |u: int| upper(v, u),
            apart_term(rows, part, v),
        );
    }
    lemma_total_plus(n, lower_row, upper_row, both_row);
    lemma_total_exchange(n, n, upper);
    let upper_col = |u: int| total(n, |v: int| upper(v, u));
    assert forall|v: int| 0 <= v < n implies #[trigger] upper_col(v) == lower_row(v) by {
        lemma_total_ext(n, |u: int| upper(u, v), |u: int| lower(v, u));
    }
    lemma_total_ext(n, upper_col, lower_row);
}

/// The edge cut is the weight of the entries that name a smaller vertex in
/// another part. In an undirected graph the entries that name any vertex in
/// another part weigh twice as much.
pub proof fn law_cut_is_weight_across(rows: Adjacency, part: Seq<usize>)
    ensures
        cut(rows, part) == total(
            rows.len() as int,
            |v: int|
                total(
                    rows[v].len() as int,
                    |k: int|
                        if rows[v][k].0 < v && part[rows[v][k].0 as int] != part[v] {
                            rows[v][k].1 as int
                        } else {
                            0
                        },
                ),
        ),
        in_range(rows) && symmetric(rows) ==> 2 * cut(rows, part) == total(
            rows.len() as int,
            |v: int|
                total(
                    rows[v].len() as int,
                    |k: int|
                        if part[rows[v][k].0 as int] != part[v] {
                            rows[v][k].1 as int
                        } else {
                            0
                        },
                ),
        ),
{
    let n = rows.len() as int;
    let lower = |v: int|
        total(
            rows[v].len() as int,
            |k: int|
                if rows[v][k].0 < v && part[rows[v][k].0 as int] != part[v] {
                    rows[v][k].1 as int
                } else {
                    0
                },
        );
    let both = |v: int|
        total(
            rows[v].len() as int,
            |k: int|
                if part[rows[v][k].0 as int] != part[v] {
                    rows[v][k].1 as int
                } else {
                    0
                },
        );
    lemma_total_ext(n, |v: int| row_cut(rows, part, v), lower);
    if in_range(rows) && symmetric(rows) {
        law_cut_counts_edges_once(rows, part);
        let by_vertex = apart(rows, part);
        assert forall|v: int| 0 <= v < n implies #[trigger] by_vertex(v) == both(v) by {
            let q = |a: int| part[a] != part[v];
            lemma_regroup(rows, v, q);
            lemma_total_ext(
                rows[v].len() as int,
                |k: int|
                    if q(rows[v][k].0 as int) {
                        rows[v][k].1 as int
                    } else {
                        0
                    },
                |k: int|
                    if part[rows[v][k].0 as int] != part[v] {
                        rows[v][k].1 as int
                    } else {
                        0
                    },
            );
            lemma_total_ext(
                n,
                |a: int|
                    if q(a) {
                        between(rows, v, a)
                    } else {
                        0
                    },
                apart_term(rows, part, v),
            );
        }
        lemma_total_ext(n, by_vertex, both);
    }
}

/// The list of edges holds the lists of all vertices one after the other: entry
/// `k` of vertex `v` stands behind everything that the vertices before it list,
/// as its two ends and its weight. There is nothing else in it.
pub proof fn law_edge_list_is_all_lists(rows: Adjacency, v: int, k: int, n: int)
    requires
        0 <= v < n <= rows.len() <= usize::MAX,
        0 <= k < rows[v].len(),
    ensures
        edges_of(rows, n).len() == total(n, |a: int| rows[a].len() as int),
        0 <= total(v, |a: int| rows[a].len() as int) + k < edges_of(rows, n).len(),
        edges_of(rows, n)[total(v, |a: int| rows[a].len() as int) + k] == ((
            v as usize,
            rows[v][k].0,
        ), rows[v][k].1),
    decreases n,
{
    let size = |a: int| rows[a].len() as int;
    lemma_edge_count(rows, n - 1);
    lemma_total_nonneg(n, size);
    let before = edges_of(rows, n - 1);
    assert(total(v, size) >= 0) by {
        lemma_total_nonneg(v, size);
    }
    if v < n - 1 {
        law_edge_list_is_all_lists(rows, v, k, n - 1);
        assert(edges_of(rows, n)[total(v, size) + k] == before[total(v, size) + k]);
    }
}

proof fn lemma_edge_count(rows: Adjacency, n: int)
    requires
        0 <= n <= rows.len(),
    ensures
        edges_of(rows, n).len() == total(n, |a: int| rows[a].len() as int),
    decreases n,
{
    if n > 0 {
        lemma_edge_count(rows, n - 1);
    }
}

/// The edge cut is at most the weight of the whole graph.
pub proof fn lemma_cut_bound(rows: Adjacency, part: Seq<usize>)
    ensures
        magnitude(cut(rows, part)) <= mass(rows),
{
    let by_row = |v: int| row_cut(rows, part, v);
    let mass_row = |v: int| row_mass(rows, v);
    assert forall|v: int| 0 <= v < rows.len() implies magnitude(#[trigger] by_row(v)) <= mass_row(
        v,
    ) by {
        let crossing = |k: int|
            if rows[v][k].0 < v && part[rows[v][k].0 as int] != part[v] {
                rows[v][k].1 as int
            } else {
                0
            };
        let weight = |k: int| magnitude(rows[v][k].1 as int);
        lemma_total_magnitude(rows[v].len() as int, crossing, weight);
        assert(by_row(v) == total(rows[v].len() as int, crossing));
        assert(mass_row(v) == total(rows[v].len() as int, weight));
    }
    lemma_total_magnitude(rows.len() as int, by_row, mass_row);
    assert(cut(rows, part) == total(rows.len() as int, by_row));
    assert(mass(rows) == total(rows.len() as int, mass_row));
}

/// A weighted graph.
///
/// Each vertex has a list of neighbors with the weights of the edges to them.
/// Every listed neighbor is a vertex of the graph.
pub struct Graph {
    rows: Vec<Vec<(usize, i64)>>,
}

impl View for Graph {
    type V = Adjacency;

    closed spec fn view(&self) -> Adjacency {
        Seq::new(self.rows@.len(), |v: int| self.rows@[v]@)
    }
}

impl Graph {
    #[verifier::type_invariant]
    spec fn neighbors_exist(&self) -> bool {
        in_range(self@)
    }

    /// Makes a graph of its adjacency lists, unless a list names a vertex that
    /// does not exist.
    pub fn new(rows: Vec<Vec<(usize, i64)>>) -> (result: Option<Graph>)
        ensures
            result is Some <==> in_range(Seq::new(rows@.len(), |v: int| rows@[v]@)),
            result matches Some(graph) ==> graph@ == Seq::new(rows@.len(), |v: int| rows@[v]@),
    {
        let ghost lists = Seq::new(rows@.len(), |v: int| rows@[v]@);
        let mut v: usize = 0;
        while v < rows.len()
            invariant
                v <= rows@.len(),
                lists == Seq::new(rows@.len(), |x: int| rows@[x]@),
                forall|x: int, k: int|
                    0 <= x < v && 0 <= k < lists[x].len() ==> (#[trigger] lists[x][k]).0
                        < lists.len(),
            decreases rows@.len() - v,
        {
            let row: &Vec<(usize, i64)> = &rows[v];
            let mut k: usize = 0;
            while k < row.len()
                invariant
                    v < rows@.len(),
                    k <= row@.len(),
                    row@ == rows@[v as int]@,
                    lists == Seq::new(rows@.len(), |x: int| rows@[x]@),
                    forall|j: int| 0 <= j < k ==> (#[trigger] lists[v as int][j]).0 < lists.len(),
                decreases row@.len() - k,
            {
                assert(lists[v as int][k as int] == row@[k as int]);
                if row[k].0 >= rows.len() {
                    return None;
                }
                k += 1;
            }
            v += 1;
        }
        let graph = Graph { rows };
        Some(graph)
    }

    /// The number of vertices.
    pub fn len(&self) -> (n: usize)
        ensures
            n == self@.len(),
            in_range(self@),
    {
        proof {
            use_type_invariant(self);
        }
        self.rows.len()
    }

    /// The neighbors of a vertex with the weights of the edges to them.
    pub fn neighbors(&self, vertex: usize) -> (row: &Vec<(usize, i64)>)
        requires
            vertex < self@.len(),
        ensures
            row@ == self@[vertex as int],
            in_range(self@),
    {
        proof {
            use_type_invariant(self);
        }
        &self.rows[vertex]
    }

    /// Whether the edge weights are small enough for sums of connectivities
    /// never to overflow.
    pub fn weights_fit(&self) -> (fit: bool)
        ensures
            fit == fits(self@),
    {
        self.weighs_at_most(0x1fff_ffff_ffff_ffff)
    }

    /// Whether the absolute edge weights add up to no more than a limit.
    pub fn weighs_at_most(&self, limit: i64) -> (fit: bool)
        requires
            limit >= 0,
        ensures
            fit == (mass(self@) <= limit),
    {
        let mut sum: i64 = 0;
        let mut v: usize = 0;
        while v < self.rows.len()
            invariant
                v <= self@.len(),
                self@.len() == self.rows@.len(),
                0 <= sum <= limit,
                sum == total(v as int, |x: int| row_mass(self@, x)),
            decreases self@.len() - v,
        {
            let row: &Vec<(usize, i64)> = &self.rows[v];
            let ghost weight = |k: int| magnitude(self@[v as int][k].1 as int);
            let ghost by_row = |x: int| row_mass(self@, x);
            let ghost before = sum as int;
            let mut k: usize = 0;
            while k < row.len()
                invariant
                    v < self@.len(),
                    k <= row@.len(),
                    row@ == self@[v as int],
                    0 <= sum <= limit,
                    weight == (|j: int| magnitude(self@[v as int][j].1 as int)),
                    by_row == (|x: int| row_mass(self@, x)),
                    before == total(v as int, by_row),
                    sum == before + total(k as int, weight),
                decreases row@.len() - k,
            {
                let w: i64 = row[k].1;
                assert(weight(k as int) == magnitude(w as int));
                if w > limit - sum || w < sum - limit {
                    proof {
                        lemma_total_nonneg(row@.len() as int, weight);
                        assert(total(k + 1, weight) <= total(row@.len() as int, weight));
                        assert(by_row(v as int) == total(row@.len() as int, weight));
                        assert forall|x: int| 0 <= x < self@.len() implies #[trigger] by_row(x)
                            >= 0 by {
                            lemma_row_mass(self@, x);
                        }
                        lemma_total_nonneg(self@.len() as int, by_row);
                        assert(total(v + 1, by_row) <= total(self@.len() as int, by_row));
                    }
                    return false;
                }
                sum = if w < 0 {
                    sum + (-w)
                } else {
                    sum + w
                };
                k += 1;
            }
            assert(by_row(v as int) == total(row@.len() as int, weight));
            v += 1;
        }
        true
    }

    /// The edge cut of a partition.
    pub fn edge_cut(&self, partition: &[usize]) -> (cost: i64)
        requires
            self@.len() <= partition@.len(),
            mass(self@) <= i64::MAX,
        ensures
            cost == cut(self@, partition@),
    {
        proof {
            use_type_invariant(self);
        }
        let mut sum: i64 = 0;
        let mut v: usize = 0;
        let ghost by_row = |x: int| row_cut(self@, partition@, x);
        let ghost mass_row = |x: int| row_mass(self@, x);
        while v < self.rows.len()
            invariant
                v <= self@.len(),
                in_range(self@),
                self@.len() == self.rows@.len(),
                self@.len() <= partition@.len(),
                mass(self@) <= i64::MAX,
                by_row == (|x: int| row_cut(self@, partition@, x)),
                mass_row == (|x: int| row_mass(self@, x)),
                magnitude(sum as int) <= total(v as int, mass_row),
                sum == total(v as int, by_row),
            decreases self@.len() - v,
        {
            let row: &Vec<(usize, i64)> = &self.rows[v];
            let ghost weight = |j: int| magnitude(self@[v as int][j].1 as int);
            let ghost crossing = |j: int|
                if self@[v as int][j].0 < v && partition@[self@[v as int][j].0 as int]
                    != partition@[v as int] {
                    self@[v as int][j].1 as int
                } else {
                    0
                };
            let ghost before = sum as int;
            proof {
                assert forall|x: int| 0 <= x < self@.len() implies #[trigger] mass_row(x) >= 0 by {
                    lemma_row_mass(self@, x);
                }
                lemma_total_nonneg(self@.len() as int, mass_row);
                assert(total(v + 1, mass_row) <= total(self@.len() as int, mass_row));
                lemma_total_nonneg(row@.len() as int, weight);
                assert(mass_row(v as int) == total(row@.len() as int, weight));
            }
            let mut k: usize = 0;
            while k < row.len()
                invariant
                    v < self@.len(),
                    k <= row@.len(),
                    in_range(self@),
                    row@ == self@[v as int],
                    self@.len() <= partition@.len(),
                    weight == (|j: int| magnitude(self@[v as int][j].1 as int)),
                    crossing == (|j: int|
                        if self@[v as int][j].0 < v && partition@[self@[v as int][j].0 as int]
                            != partition@[v as int] {
                            self@[v as int][j].1 as int
                        } else {
                            0
                        }),
                    magnitude(before) + total(row@.len() as int, weight) <= i64::MAX,
                    forall|m: int|
                        0 <= m <= row@.len() ==> #[trigger] total(m, weight) <= total(
                            row@.len() as int,
                            weight,
                        ),
                    magnitude(sum - before) <= total(k as int, weight),
                    sum == before + total(k as int, crossing),
                decreases row@.len() - k,
            {
                let (u, w) = row[k];
                assert(self@[v as int][k as int] == row@[k as int]);
                assert(weight(k as int) == magnitude(w as int));
                assert(total(k + 1, weight) <= total(row@.len() as int, weight));
                assert(total(k + 1, crossing) == total(k as int, crossing) + crossing(k as int));
                if u < v && partition[u] != partition[v] {
                    sum = sum + w;
                }
                k += 1;
            }
            assert(by_row(v as int) == total(row@.len() as int, crossing));
            assert(total(v + 1, by_row) == total(v as int, by_row) + by_row(v as int));
            assert(total(v + 1, mass_row) == total(v as int, mass_row) + mass_row(v as int));
            v += 1;
        }
        sum
    }

    /// All edges of the graph in list order, each as its two ends and its
    /// weight.
    pub fn edge_list(&self) -> (edges: Vec<((usize, usize), i64)>)
        ensures
            edges@ == edges_of(self@, self@.len() as int),
    {
        let mut edges: Vec<((usize, usize), i64)> = Vec::new();
        let mut v: usize = 0;
        while v < self.rows.len()
            invariant
                v <= self@.len(),
                self@.len() == self.rows@.len(),
                edges@ == edges_of(self@, v as int),
            decreases self@.len() - v,
        {
            let row: &Vec<(usize, i64)> = &self.rows[v];
            let ghost line = Seq::new(
                row@.len(),
                |k: int| ((v, row@[k].0), row@[k].1),
            );
            let mut k: usize = 0;
            while k < row.len()
                invariant
                    v < self@.len(),
                    k <= row@.len(),
                    row@ == self@[v as int],
                    line == Seq::new(row@.len(), |j: int| ((v, row@[j].0), row@[j].1)),
                    edges@ == edges_of(self@, v as int) + line.take(k as int),
                decreases row@.len() - k,
            {
                edges.push(((v, row[k].0), row[k].1));
                assert(line.take(k + 1) == line.take(k as int).push(line[k as int]));
                k += 1;
            }
            assert(line.take(row@.len() as int) == line);
            assert(edges_of(self@, v + 1) == edges_of(self@, v as int) + line);
            v += 1;
        }
        edges
    }
}

} // verus!
