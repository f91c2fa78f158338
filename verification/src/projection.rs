//! What a coarse graph keeps of the graph that it comes from.

use crate::coarsen::{
    holder, into, into_term, joined, lemma_matching_complete, merged, merged_term, merges,
    visits_all,
};
use crate::matching::{
    covered, founded, grouping, law_matching_is_proper, law_partner_is_heaviest, lemma_all_named,
    lemma_last_holder, lemma_ones, matching, partner, proper,
};
use crate::matrix::{are_rows_of, is_row_of, lemma_between_is_entry};
use crate::topology::{
    apart, apart_term, between, cut, double_cut, in_range, law_cut_counts_edges_once, lemma_regroup,
    loop_free, mass, no_positive_loops, positive, row_mass, symmetric, Adjacency,
};
use crate::total::{
    lemma_total_exchange, lemma_total_ext, lemma_total_magnitude, lemma_total_mono,
    lemma_total_nonneg, lemma_total_plus, lemma_total_point, lemma_total_zero, magnitude, total,
};
use crate::uncoarsen::{named, uncoarse};
use vstd::prelude::*;

verus! {

/// The groups hold every vertex below `n` once, and nothing else.
pub open spec fn partitions_vertices(sets: Seq<Seq<usize>>, n: nat) -> bool {
    &&& grouping(sets, n as int)
    &&& n <= usize::MAX
    &&& forall|v: usize| v < n ==> #[trigger] covered(sets, v)
}

/// The coarse graph has a vertex for each group, and its edges join the edges
/// between the groups.
pub open spec fn condenses(
    rows: Adjacency,
    sets: Seq<Seq<usize>>,
    entries: Map<(usize, usize), i64>,
    coarse: Adjacency,
) -> bool {
    &&& coarse.len() == sets.len()
    &&& coarse.len() <= usize::MAX
    &&& are_rows_of(entries, coarse)
    &&& merges(rows, sets, entries)
}

/// Every vertex has a coarse vertex.
pub proof fn lemma_holder(sets: Seq<Seq<usize>>, n: nat, v: int)
    requires
        partitions_vertices(sets, n),
        0 <= v < n,
    ensures
        0 <= holder(sets, v) < sets.len(),
        sets[holder(sets, v)].contains(v as usize),
{
    assert(covered(sets, v as usize));
    let c = choose|c: int| 0 <= c < sets.len() && (#[trigger] sets[c]).contains(v as usize);
    lemma_last_holder(sets, n as int, c, v as usize, sets.len() as int);
}

/// Carrying a partition over to the finer graph puts each vertex into the part
/// of the coarse vertex that stands for it.
pub proof fn law_uncoarse_follows_groups(part: Seq<usize>, sets: Seq<Seq<usize>>, n: nat)
    requires
        partitions_vertices(sets, n),
        proper(sets),
    ensures
        uncoarse(part, sets).len() == n,
        forall|v: int| 0 <= v < n ==> #[trigger] uncoarse(part, sets)[v] == part[holder(sets, v)],
{
    lemma_all_named(sets, n as int);
    assert forall|v: int| 0 <= v < n implies #[trigger] uncoarse(part, sets)[v] == part[holder(
        sets,
        v,
    )] by {
        lemma_holder(sets, n, v);
    }
}

/// The weight of the edges from `v` to `u` if `u` is in group `b`.
spec fn block_term(rows: Adjacency, sets: Seq<Seq<usize>>, b: int, v: int) -> spec_fn(int) -> int {
    |u: int|
        if holder(sets, u) == b {
            between(rows, v, u)
        } else {
            0
        }
}

proof fn lemma_into_by_vertex(rows: Adjacency, sets: Seq<Seq<usize>>, b: int, v: int)
    requires
        in_range(rows),
        0 <= v < rows.len(),
    ensures
        into(rows[v], sets, b, rows[v].len() as int) == total(
            rows.len() as int,
            block_term(rows, sets, b, v),
        ),
{
    let q = |u: int| holder(sets, u) == b;
    lemma_regroup(rows, v, q);
    lemma_total_ext(
        rows[v].len() as int,
        |k: int|
            if q(rows[v][k].0 as int) {
                rows[v][k].1 as int
            } else {
                0
            },
        into_term(rows[v], sets, b),
    );
    lemma_total_ext(
        rows.len() as int,
        |u: int|
            if q(u) {
                between(rows, v, u)
            } else {
                0
            },
        block_term(rows, sets, b, v),
    );
}

proof fn lemma_merged_is_symmetric(rows: Adjacency, sets: Seq<Seq<usize>>, a: int, b: int)
    requires
        in_range(rows),
        symmetric(rows),
    ensures
        merged(rows, sets, a, b) == merged(rows, sets, b, a),
{
    let n = rows.len() as int;
    let f = |v: int, u: int|
        if holder(sets, v) == a && holder(sets, u) == b {
            between(rows, v, u)
        } else {
            0
        };
    let from_a = merged_term(rows, sets, a, b);
    let from_b = merged_term(rows, sets, b, a);
    let by_first = |v: int| total(n, |u: int| f(v, u));
    let by_second = |u: int| total(n, |v: int| f(v, u));
    assert forall|v: int| 0 <= v < n implies #[trigger] from_a(v) == by_first(v) by {
        if holder(sets, v) == a {
            lemma_into_by_vertex(rows, sets, b, v);
            lemma_total_ext(n, block_term(rows, sets, b, v), |u: int| f(v, u));
        } else {
            lemma_total_zero(n, |u: int| f(v, u));
        }
    }
    assert forall|u: int| 0 <= u < n implies #[trigger] from_b(u) == by_second(u) by {
        if holder(sets, u) == b {
            lemma_into_by_vertex(rows, sets, a, u);
            let g = block_term(rows, sets, a, u);
            let h = |v: int| f(v, u);
            assert forall|v: int| 0 <= v < n implies #[trigger] g(v) == h(v) by {
                assert(between(rows, u, v) == between(rows, v, u));
            }
            lemma_total_ext(n, g, h);
        } else {
            lemma_total_zero(n, |v: int| f(v, u));
        }
    }
    lemma_total_ext(n, from_a, by_first);
    lemma_total_ext(n, from_b, by_second);
    lemma_total_exchange(n, n, f);
}

proof fn lemma_not_joined(rows: Adjacency, sets: Seq<Seq<usize>>, a: int, b: int)
    requires
        !joined(rows, sets, a, b),
    ensures
        merged(rows, sets, a, b) == 0,
{
    let f = merged_term(rows, sets, a, b);
    assert forall|v: int| 0 <= v < rows.len() implies #[trigger] f(v) == 0 by {
        if holder(sets, v) == a {
            let g = into_term(rows[v], sets, b);
            assert forall|k: int| 0 <= k < rows[v].len() implies #[trigger] g(k) == 0 by {
                assert(holder(sets, rows[v][k].0 as int) != b);
            }
            lemma_total_zero(rows[v].len() as int, g);
        }
    }
    lemma_total_zero(rows.len() as int, f);
}

/// The edges between two vertices of the coarse graph weigh as much as all
/// edges between the vertices that they stand for; no edge leads from a coarse
/// vertex to itself.
pub proof fn law_coarse_edges_add_up(
    rows: Adjacency,
    sets: Seq<Seq<usize>>,
    entries: Map<(usize, usize), i64>,
    coarse: Adjacency,
    a: int,
    b: int,
)
    requires
        condenses(rows, sets, entries, coarse),
        0 <= a < coarse.len(),
        0 <= b < coarse.len(),
    ensures
        between(coarse, a, b) == if a == b {
            0
        } else {
            merged(rows, sets, a, b)
        },
{
    assert(is_row_of(entries, a as usize, coarse[a]));
    lemma_between_is_entry(entries, coarse[a], a as usize, b as usize);
    if a != b {
        if !entries.contains_key((a as usize, b as usize)) {
            lemma_not_joined(rows, sets, a, b);
        }
    }
}

/// The coarse graph of an undirected graph is undirected.
pub proof fn law_coarse_is_symmetric(
    rows: Adjacency,
    sets: Seq<Seq<usize>>,
    entries: Map<(usize, usize), i64>,
    coarse: Adjacency,
)
    requires
        in_range(rows),
        symmetric(rows),
        condenses(rows, sets, entries, coarse),
    ensures
        symmetric(coarse),
{
    assert forall|a: int, b: int|
        0 <= a < coarse.len() && 0 <= b < coarse.len() implies #[trigger] between(coarse, a, b)
        == between(coarse, b, a) by {
        law_coarse_edges_add_up(rows, sets, entries, coarse, a, b);
        law_coarse_edges_add_up(rows, sets, entries, coarse, b, a);
        lemma_merged_is_symmetric(rows, sets, a, b);
    }
}

/// A coarse graph has no loops.
pub proof fn law_coarse_is_loop_free(
    rows: Adjacency,
    sets: Seq<Seq<usize>>,
    entries: Map<(usize, usize), i64>,
    coarse: Adjacency,
)
    requires
        condenses(rows, sets, entries, coarse),
    ensures
        loop_free(coarse),
{
    assert forall|a: int, k: int| 0 <= a < coarse.len() && 0 <= k < coarse[a].len() implies (
    #[trigger] coarse[a][k]).0 != a by {
        assert(is_row_of(entries, a as usize, coarse[a]));
        assert(entries.contains_key((a as usize, coarse[a][k].0)));
    }
}

/// The coarse graph of a graph with positive weights has positive weights.
pub proof fn law_coarse_is_positive(
    rows: Adjacency,
    sets: Seq<Seq<usize>>,
    entries: Map<(usize, usize), i64>,
    coarse: Adjacency,
)
    requires
        positive(rows),
        condenses(rows, sets, entries, coarse),
    ensures
        positive(coarse),
{
    assert forall|a: int, k: int| 0 <= a < coarse.len() && 0 <= k < coarse[a].len() implies (
    #[trigger] coarse[a][k]).1 > 0 by {
        let b = coarse[a][k].0;
        assert(is_row_of(entries, a as usize, coarse[a]));
        assert(entries.contains_key((a as usize, b)));
        assert(joined(rows, sets, a, b as int));
        let (v, j) = choose|v: int, j: int|
            0 <= v < rows.len() && 0 <= j < rows[v].len() && holder(sets, v) == a && holder(
                sets,
                (#[trigger] rows[v][j]).0 as int,
            ) == b;
        let f = merged_term(rows, sets, a, b as int);
        assert forall|x: int| 0 <= x < rows.len() implies #[trigger] f(x) >= 0 by {
            let g = into_term(rows[x], sets, b as int);
            assert forall|i: int| 0 <= i < rows[x].len() implies #[trigger] g(i) >= 0 by {
                assert(rows[x][i].1 > 0);
            }
            lemma_total_nonneg(rows[x].len() as int, g);
        }
        lemma_total_nonneg(rows.len() as int, f);
        let g = into_term(rows[v], sets, b as int);
        assert forall|i: int| 0 <= i < rows[v].len() implies #[trigger] g(i) >= 0 by {
            assert(rows[v][i].1 > 0);
        }
        lemma_total_nonneg(rows[v].len() as int, g);
        assert(rows[v][j].1 > 0);
        assert(g(j) > 0);
        assert(f(v) > 0);
    }
}

/// What the edges of `v` into groups of other parts than `p` weigh.
spec fn out_term(
    row: Seq<(usize, i64)>,
    sets: Seq<Seq<usize>>,
    part: Seq<usize>,
    p: usize,
) -> spec_fn(int) -> int {
    |b: int|
        if part[b] != p {
            into(row, sets, b, row.len() as int)
        } else {
            0
        }
}

proof fn lemma_out_of_vertex(
    rows: Adjacency,
    sets: Seq<Seq<usize>>,
    part: Seq<usize>,
    fine: Seq<usize>,
    v: int,
)
    requires
        in_range(rows),
        partitions_vertices(sets, rows.len()),
        0 <= v < rows.len(),
        forall|u: int| 0 <= u < rows.len() ==> #[trigger] fine[u] == part[holder(sets, u)],
    ensures
        apart(rows, fine)(v) == total(
            sets.len() as int,
            out_term(rows[v], sets, part, part[holder(sets, v)]),
        ),
{
    let row = rows[v];
    let n = rows.len() as int;
    let m = sets.len() as int;
    let len = row.len() as int;
    let p = part[holder(sets, v)];
    let cell = |b: int, k: int|
        if part[b] != p && holder(sets, row[k].0 as int) == b {
            row[k].1 as int
        } else {
            0
        };
    lemma_total_exchange(m, len, cell);
    let by_group = |b: int| total(len, |k: int| cell(b, k));
    let by_entry = |k: int| total(m, |b: int| cell(b, k));
    let out = out_term(row, sets, part, p);
    assert forall|b: int| 0 <= b < m implies #[trigger] by_group(b) == out(b) by {
        if part[b] != p {
            lemma_total_ext(len, |k: int| cell(b, k), into_term(row, sets, b));
        } else {
            lemma_total_zero(len, |k: int| cell(b, k));
        }
    }
    lemma_total_ext(m, by_group, out);
    let q = |u: int| fine[u] != fine[v];
    let crossing = |k: int|
        if q(row[k].0 as int) {
            row[k].1 as int
        } else {
            0
        };
    assert forall|k: int| 0 <= k < len implies #[trigger] by_entry(k) == crossing(k) by {
        let u = rows[v][k].0 as int;
        assert(rows[v][k].0 < rows.len());
        lemma_holder(sets, rows.len(), u);
        lemma_total_point(m, holder(sets, u), |b: int| cell(b, k));
        assert(fine[u] == part[holder(sets, u)]);
        assert(fine[v] == p);
    }
    lemma_total_ext(len, by_entry, crossing);
    lemma_regroup(rows, v, q);
    lemma_total_ext(
        len,
        crossing,
        |k: int|
            if q(rows[v][k].0 as int) {
                rows[v][k].1 as int
            } else {
                0
            },
    );
    lemma_total_ext(
        n,
        |u: int|
            if q(u) {
                between(rows, v, u)
            } else {
                0
            },
        apart_term(rows, fine, v),
    );
}

/// The edges between different parts, counted from each end, weigh the same in
/// the coarse graph and in the finer one.
proof fn lemma_double_cut_is_kept(
    rows: Adjacency,
    sets: Seq<Seq<usize>>,
    entries: Map<(usize, usize), i64>,
    coarse: Adjacency,
    part: Seq<usize>,
    fine: Seq<usize>,
)
    requires
        in_range(rows),
        partitions_vertices(sets, rows.len()),
        condenses(rows, sets, entries, coarse),
        forall|u: int| 0 <= u < rows.len() ==> #[trigger] fine[u] == part[holder(sets, u)],
    ensures
        double_cut(coarse, part) == double_cut(rows, fine),
{
    let n = rows.len() as int;
    let m = sets.len() as int;
    let home_cell = |a: int, v: int|
        if holder(sets, v) == a {
            total(m, out_term(rows[v], sets, part, part[a]))
        } else {
            0
        };
    let by_group = |a: int| total(n, |v: int| home_cell(a, v));
    let by_vertex = |v: int| total(m, |a: int| home_cell(a, v));
    lemma_total_exchange(m, n, home_cell);
    let coarse_apart = apart(coarse, part);
    let fine_apart = apart(rows, fine);
    assert forall|a: int| 0 <= a < m implies #[trigger] coarse_apart(a) == by_group(a) by {
        let cell = |b: int, v: int|
            if part[b] != part[a] && holder(sets, v) == a {
                into(rows[v], sets, b, rows[v].len() as int)
            } else {
                0
            };
        let f = apart_term(coarse, part, a);
        let g = |b: int| total(n, |v: int| cell(b, v));
        assert forall|b: int| 0 <= b < m implies #[trigger] f(b) == g(b) by {
            if part[b] != part[a] {
                law_coarse_edges_add_up(rows, sets, entries, coarse, a, b);
                lemma_total_ext(n, merged_term(rows, sets, a, b), |v: int| cell(b, v));
            } else {
                lemma_total_zero(n, |v: int| cell(b, v));
            }
        }
        lemma_total_ext(m, f, g);
        lemma_total_exchange(m, n, cell);
        let h = |v: int| total(m, |b: int| cell(b, v));
        let home = |v: int| home_cell(a, v);
        assert forall|v: int| 0 <= v < n implies #[trigger] h(v) == home(v) by {
            if holder(sets, v) == a {
                lemma_total_ext(
                    m,
                    |b: int| cell(b, v),
                    out_term(rows[v], sets, part, part[a]),
                );
            } else {
                lemma_total_zero(m, |b: int| cell(b, v));
            }
        }
        lemma_total_ext(n, h, home);
    }
    lemma_total_ext(m, coarse_apart, by_group);
    assert forall|v: int| 0 <= v < n implies #[trigger] by_vertex(v) == fine_apart(v) by {
        lemma_holder(sets, rows.len(), v);
        lemma_total_point(m, holder(sets, v), |a: int| home_cell(a, v));
        lemma_out_of_vertex(rows, sets, part, fine, v);
    }
    lemma_total_ext(n, by_vertex, fine_apart);
}

/// Carrying a partition over to the finer graph keeps its edge cut. This holds
/// of undirected graphs and of groups that hold no vertex twice.
pub proof fn law_uncoarse_keeps_cut(
    rows: Adjacency,
    sets: Seq<Seq<usize>>,
    entries: Map<(usize, usize), i64>,
    coarse: Adjacency,
    part: Seq<usize>,
)
    requires
        in_range(rows),
        symmetric(rows),
        in_range(coarse),
        partitions_vertices(sets, rows.len()),
        proper(sets),
        condenses(rows, sets, entries, coarse),
    ensures
        cut(rows, uncoarse(part, sets)) == cut(coarse, part),
{
    let fine = uncoarse(part, sets);
    law_uncoarse_follows_groups(part, sets, rows.len());
    lemma_double_cut_is_kept(rows, sets, entries, coarse, part, fine);
    law_coarse_is_symmetric(rows, sets, entries, coarse);
    law_cut_counts_edges_once(rows, fine);
    law_cut_counts_edges_once(coarse, part);
}

/// The absolute weight of entry `j` of a list if it leads into group `b`.
spec fn heavy_into_term(row: Seq<(usize, i64)>, sets: Seq<Seq<usize>>, b: int) -> spec_fn(
    int,
) -> int {
    |j: int|
        if holder(sets, row[j].0 as int) == b {
            magnitude(row[j].1 as int)
        } else {
            0
        }
}

proof fn lemma_row_into_columns(
    row: Seq<(usize, i64)>,
    sets: Seq<Seq<usize>>,
    list: Seq<(usize, i64)>,
)
    requires
        forall|i: int, j: int|
            0 <= i < j < list.len() ==> (#[trigger] list[i]).0 < (#[trigger] list[j]).0,
    ensures
        total(
            list.len() as int,
            |k: int| total(row.len() as int, heavy_into_term(row, sets, list[k].0 as int)),
        ) <= total(row.len() as int, |j: int| magnitude(row[j].1 as int)),
{
    let len = list.len() as int;
    let n = row.len() as int;
    let cell = |k: int, j: int|
        if holder(sets, row[j].0 as int) == list[k].0 {
            magnitude(row[j].1 as int)
        } else {
            0
        };
    lemma_total_exchange(len, n, cell);
    let by_column = |k: int| total(n, |j: int| cell(k, j));
    let by_entry = |j: int| total(len, |k: int| cell(k, j));
    let heavy = |k: int| total(n, heavy_into_term(row, sets, list[k].0 as int));
    let weight = |j: int| magnitude(row[j].1 as int);
    assert forall|k: int| 0 <= k < len implies #[trigger] heavy(k) == by_column(k) by {
        lemma_total_ext(n, heavy_into_term(row, sets, list[k].0 as int), |j: int| cell(k, j));
    }
    lemma_total_ext(len, heavy, by_column);
    assert forall|j: int| 0 <= j < n implies #[trigger] by_entry(j) <= weight(j) by {
        let column = |k: int| cell(k, j);
        let b = holder(sets, row[j].0 as int);
        if exists|k: int| 0 <= k < len && (#[trigger] list[k]).0 == b {
            let k = choose|k: int| 0 <= k < len && (#[trigger] list[k]).0 == b;
            assert forall|i: int| 0 <= i < len && i != k implies #[trigger] column(i) == 0 by {
                if i < k {
                    assert(list[i].0 < list[k].0);
                } else {
                    assert(list[k].0 < list[i].0);
                }
            }
            lemma_total_point(len, k, column);
        } else {
            assert forall|k: int| 0 <= k < len implies #[trigger] column(k) == 0 by {
                assert(list[k].0 != b);
            }
            lemma_total_zero(len, column);
        }
    }
    lemma_total_mono(n, by_entry, weight);
}

proof fn lemma_coarse_row_mass(
    rows: Adjacency,
    sets: Seq<Seq<usize>>,
    entries: Map<(usize, usize), i64>,
    coarse: Adjacency,
    a: int,
)
    requires
        condenses(rows, sets, entries, coarse),
        0 <= a < coarse.len(),
    ensures
        row_mass(coarse, a) <= total(
            rows.len() as int,
            |v: int|
                if holder(sets, v) == a {
                    row_mass(rows, v)
                } else {
                    0
                },
        ),
{
    let n = rows.len() as int;
    let list = coarse[a];
    let len = list.len() as int;
    assert(is_row_of(entries, a as usize, list));
    let cell = |k: int, v: int|
        if holder(sets, v) == a {
            total(rows[v].len() as int, heavy_into_term(rows[v], sets, list[k].0 as int))
        } else {
            0
        };
    lemma_total_exchange(len, n, cell);
    let weight = |k: int| magnitude(list[k].1 as int);
    let by_column = |k: int| total(n, |v: int| cell(k, v));
    let by_vertex = |v: int| total(len, |k: int| cell(k, v));
    assert forall|k: int| 0 <= k < len implies #[trigger] weight(k) <= by_column(k) by {
        let b = list[k].0 as int;
        assert(entries.contains_key((a as usize, list[k].0)));
        let f = merged_term(rows, sets, a, b);
        let g = |v: int| cell(k, v);
        assert forall|v: int| 0 <= v < n implies magnitude(#[trigger] f(v)) <= g(v) by {
            lemma_total_magnitude(
                rows[v].len() as int,
                into_term(rows[v], sets, b),
                heavy_into_term(rows[v], sets, b),
            );
        }
        lemma_total_magnitude(n, f, g);
    }
    lemma_total_mono(len, weight, by_column);
    let own = |v: int|
        if holder(sets, v) == a {
            row_mass(rows, v)
        } else {
            0
        };
    assert forall|v: int| 0 <= v < n implies #[trigger] by_vertex(v) <= own(v) by {
        let column = |k: int| cell(k, v);
        if holder(sets, v) == a {
            let heavy = |k: int|
                total(rows[v].len() as int, heavy_into_term(rows[v], sets, list[k].0 as int));
            lemma_total_ext(len, column, heavy);
            lemma_row_into_columns(rows[v], sets, list);
            let mass_term = |j: int| magnitude(rows[v][j].1 as int);
            assert(row_mass(rows, v) == total(rows[v].len() as int, mass_term));
        } else {
            lemma_total_zero(len, column);
        }
    }
    lemma_total_mono(n, by_vertex, own);
    assert(row_mass(coarse, a) == total(len, weight));
}

/// A coarse graph weighs no more than the graph that it comes from.
pub proof fn law_coarse_weighs_no_more(
    rows: Adjacency,
    sets: Seq<Seq<usize>>,
    entries: Map<(usize, usize), i64>,
    coarse: Adjacency,
)
    requires
        partitions_vertices(sets, rows.len()),
        condenses(rows, sets, entries, coarse),
    ensures
        mass(coarse) <= mass(rows),
{
    let n = rows.len() as int;
    let m = sets.len() as int;
    let cell = |a: int, v: int|
        if holder(sets, v) == a {
            row_mass(rows, v)
        } else {
            0
        };
    lemma_total_exchange(m, n, cell);
    let by_group = |a: int| total(n, |v: int| cell(a, v));
    let by_vertex = |v: int| total(m, |a: int| cell(a, v));
    let coarse_row = |a: int| row_mass(coarse, a);
    let fine_row = |v: int| row_mass(rows, v);
    assert forall|a: int| 0 <= a < m implies #[trigger] coarse_row(a) <= by_group(a) by {
        lemma_coarse_row_mass(rows, sets, entries, coarse, a);
        lemma_total_ext(
            n,
            |v: int|
                if holder(sets, v) == a {
                    row_mass(rows, v)
                } else {
                    0
                },
            |v: int| cell(a, v),
        );
    }
    lemma_total_mono(m, coarse_row, by_group);
    assert forall|v: int| 0 <= v < n implies #[trigger] by_vertex(v) == fine_row(v) by {
        lemma_holder(sets, rows.len(), v);
        lemma_total_point(m, holder(sets, v), |a: int| cell(a, v));
    }
    lemma_total_ext(n, by_vertex, fine_row);
    assert(mass(coarse) == total(m, coarse_row));
    assert(mass(rows) == total(n, fine_row));
}

/// Some group holds two vertices.
spec fn paired(sets: Seq<Seq<usize>>) -> bool {
    exists|c: int| 0 <= c < sets.len() && (#[trigger] sets[c]).len() == 2
}

proof fn lemma_edge_is_matched(
    rows: Adjacency,
    order: Seq<usize>,
    v: usize,
    u: usize,
    k: int,
)
    requires
        in_range(rows),
        0 <= k <= order.len(),
        forall|i: int| 0 <= i < order.len() ==> #[trigger] order[i] < rows.len(),
        v < rows.len(),
        u < rows.len(),
        exists|i: int|
            0 <= i < rows[v as int].len() && (#[trigger] rows[v as int][i]).0 == u
                && rows[v as int][i].1 > 0,
        exists|i: int|
            0 <= i < rows[u as int].len() && (#[trigger] rows[u as int][i]).0 == v
                && rows[u as int][i].1 > 0,
    ensures
        paired(matching(rows, order, k)) || ({
            &&& !covered(matching(rows, order, k), v)
            &&& !covered(matching(rows, order, k), u)
            &&& forall|i: int| 0 <= i < k ==> #[trigger] order[i] != v && order[i] != u
        }),
    decreases k,
{
    if k > 0 {
        lemma_edge_is_matched(rows, order, v, u, k - 1);
        let before = matching(rows, order, k - 1);
        let after = matching(rows, order, k);
        let x = order[k - 1];
        assert(order[k - 1] < rows.len());
        if paired(before) {
            let c = choose|c: int| 0 <= c < before.len() && (#[trigger] before[c]).len() == 2;
            assert(after[c] == before[c]);
        } else if !covered(before, x) {
            let row = rows[x as int];
            let len = row.len() as int;
            law_partner_is_heaviest(row, before, len);
            let group = founded(row, before, x);
            assert(after == before.push(group));
            if x == v || x == u {
                let y = if x == v {
                    u
                } else {
                    v
                };
                let i = choose|i: int|
                    0 <= i < row.len() && (#[trigger] row[i]).0 == y && row[i].1 > 0;
                assert(!covered(before, row[i].0));
                assert(partner(row, before, len) is Some);
                assert(after[after.len() - 1].len() == 2);
            } else if partner(row, before, len) is Some {
                assert(after[after.len() - 1].len() == 2);
            } else {
                assert forall|z: usize| z == v || z == u implies !covered(after, z) by {
                    if covered(after, z) {
                        let c = choose|c: int|
                            0 <= c < after.len() && (#[trigger] after[c]).contains(z);
                        if c < before.len() {
                            assert(before[c].contains(z));
                        } else {
                            assert(after[c] == seq![x]);
                        }
                    }
                }
            }
        }
    }
}

/// Coarsening a graph shrinks it as long as two different vertices are joined
/// by edges of positive weight both ways. This holds of graphs without loops of
/// positive weight.
pub proof fn law_coarsening_shrinks(rows: Adjacency, order: Seq<usize>, v: usize, u: usize)
    requires
        in_range(rows),
        no_positive_loops(rows),
        rows.len() <= usize::MAX,
        visits_all(order, rows.len()),
        v < rows.len(),
        u < rows.len(),
        exists|i: int|
            0 <= i < rows[v as int].len() && (#[trigger] rows[v as int][i]).0 == u
                && rows[v as int][i].1 > 0,
        exists|i: int|
            0 <= i < rows[u as int].len() && (#[trigger] rows[u as int][i]).0 == v
                && rows[u as int][i].1 > 0,
    ensures
        matching(rows, order, order.len() as int).len() < rows.len(),
{
    let k = order.len() as int;
    let sets = matching(rows, order, k);
    lemma_edge_is_matched(rows, order, v, u, k);
    assert(order.contains(v));
    let i = choose|i: int| 0 <= i < order.len() && order[i] == v;
    assert(order[i] == v);
    assert(paired(sets));
    lemma_pair_shrinks(rows, order);
}

proof fn lemma_pair_stays(rows: Adjacency, order: Seq<usize>, j: int, k: int)
    requires
        1 <= j <= k,
        paired(matching(rows, order, j)),
    ensures
        paired(matching(rows, order, k)),
    decreases k,
{
    if j < k {
        lemma_pair_stays(rows, order, j, k - 1);
        let before = matching(rows, order, k - 1);
        let after = matching(rows, order, k);
        let c = choose|c: int| 0 <= c < before.len() && (#[trigger] before[c]).len() == 2;
        assert(after[c] == before[c]);
    }
}

/// Coarsening a graph shrinks it if the vertex that is visited first has an
/// edge of positive weight. This holds of graphs without loops of positive
/// weight.
pub proof fn law_first_edge_shrinks(rows: Adjacency, order: Seq<usize>, i: int)
    requires
        in_range(rows),
        no_positive_loops(rows),
        rows.len() <= usize::MAX,
        visits_all(order, rows.len()),
        order.len() > 0,
        0 <= i < rows[order[0] as int].len(),
        rows[order[0] as int][i].1 > 0,
    ensures
        matching(rows, order, order.len() as int).len() < rows.len(),
{
    let v = order[0];
    let row = rows[v as int];
    let none = matching(rows, order, 0);
    let after = matching(rows, order, 1);
    assert(none.len() == 0);
    assert(!covered(none, v));
    assert(!covered(none, row[i].0));
    law_partner_is_heaviest(row, none, row.len() as int);
    assert(partner(row, none, row.len() as int) is Some);
    assert(after == none.push(founded(row, none, v)));
    assert(after[0].len() == 2);
    assert(paired(after));
    lemma_pair_stays(rows, order, 1, order.len() as int);
    lemma_pair_shrinks(rows, order);
}

proof fn lemma_pair_shrinks(rows: Adjacency, order: Seq<usize>)
    requires
        in_range(rows),
        no_positive_loops(rows),
        rows.len() <= usize::MAX,
        visits_all(order, rows.len()),
        paired(matching(rows, order, order.len() as int)),
    ensures
        matching(rows, order, order.len() as int).len() < rows.len(),
{
    let k = order.len() as int;
    let sets = matching(rows, order, k);
    lemma_matching_complete(rows, order);
    law_matching_is_proper(rows, order, k);
    lemma_all_named(sets, rows.len() as int);
    let size = |c: int| sets[c].len() as int;
    let m = sets.len() as int;
    let c = choose|c: int| 0 <= c < sets.len() && (#[trigger] sets[c]).len() == 2;
    let one = |d: int|
        if d == c {
            2int
        } else {
            1
        };
    assert forall|d: int| 0 <= d < m implies #[trigger] one(d) <= size(d) by {
        assert(sets[d].len() >= 1);
    }
    lemma_total_mono(m, one, size);
    let extra = |d: int|
        if d == c {
            1int
        } else {
            0
        };
    let unit = |d: int| 1int;
    lemma_total_point(m, c, extra);
    lemma_ones(m);
    lemma_total_plus(m, extra, unit, one);
    assert(named(sets, m) == total(m, size));
}

} // verus!
