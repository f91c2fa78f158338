//! How strongly each vertex is connected to each part, and how that changes
//! when vertices move.

use crate::topology::{in_range, link, link_term, row_mass, Adjacency, Graph};
use crate::total::{
    lemma_total_ext, lemma_total_magnitude, lemma_total_nonneg, magnitude, total,
};
use std::collections::HashMap;
use vstd::prelude::*;

verus! {

broadcast use vstd::std_specs::hash::group_hash_axioms;

/// A vertex and the part that it should move to.
#[derive(Clone, Copy, Debug, PartialEq, Eq, Structural)]
pub struct Move {
    /// The vertex.
    pub vertex: usize,
    /// The part that the vertex should move to.
    pub partition_id: usize,
}

/// The connectivity table as a sequence of maps from parts to weights.
pub open spec fn tables(c: Seq<HashMap<usize, i64>>) -> Seq<Map<usize, i64>> {
    Seq::new(c.len(), |v: int| c[v]@)
}

/// The connectivity of vertex `v` to part `p`; a part without an entry counts
/// as not connected.
pub open spec fn strength(c: Seq<Map<usize, i64>>, v: int, p: usize) -> int {
    if c[v].contains_key(p) {
        c[v][p] as int
    } else {
        0
    }
}

/// Some neighbor of `v` is in part `p`.
pub open spec fn touches(rows: Adjacency, part: Seq<usize>, v: int, p: usize) -> bool {
    exists|k: int| 0 <= k < rows[v].len() && part[(#[trigger] rows[v][k]).0 as int] == p
}

/// The table of a partition: vertex `v` has an entry for exactly the parts of
/// its neighbors, and the entry is the weight of its edges to that part.
pub open spec fn tabulates(rows: Adjacency, part: Seq<usize>, c: Seq<Map<usize, i64>>) -> bool {
    &&& c.len() == part.len()
    &&& forall|v: int, p: usize|
        0 <= v < rows.len() ==> (#[trigger] c[v].contains_key(p) <==> touches(rows, part, v, p))
    &&& forall|v: int, p: usize|
        0 <= v < rows.len() ==> #[trigger] strength(c, v, p) == link(rows, part, v, p)
    &&& forall|v: int| rows.len() <= v < c.len() ==> #[trigger] c[v] == Map::<usize, i64>::empty()
}

/// Adds `weight` to the entry for `part`, which starts at zero.
pub(crate) fn deposit(table: &mut HashMap<usize, i64>, part: usize, weight: i64)
    requires
        i64::MIN <= (if old(table)@.contains_key(part) {
            old(table)@[part] as int
        } else {
            0
        }) + weight <= i64::MAX,
    ensures
        final(table)@ == old(table)@.insert(
            part,
            ((if old(table)@.contains_key(part) {
                old(table)@[part] as int
            } else {
                0
            }) + weight) as i64,
        ),
{
    let present: i64 = match table.get(&part) {
        Some(x) => *x,
        None => 0,
    };
    table.insert(part, present + weight);
}

/// Builds the connectivity table of a partition.
pub fn init_vertex_connectivity_data_structure(
    graph: &Graph,
    partition: &[usize],
) -> (c: Vec<HashMap<usize, i64>>)
    requires
        graph@.len() <= partition@.len(),
        forall|v: int| 0 <= v < graph@.len() ==> #[trigger] row_mass(graph@, v) <= i64::MAX,
    ensures
        tabulates(graph@, partition@, tables(c@)),
{
    let mut c: Vec<HashMap<usize, i64>> = Vec::new();
    let ghost rows = graph@;
    let ghost part = partition@;
    let mut v: usize = 0;
    while v < graph.len()
        invariant
            rows == graph@,
            part == partition@,
            v <= rows.len() <= part.len(),
            c@.len() == v,
            forall|x: int| 0 <= x < rows.len() ==> #[trigger] row_mass(rows, x) <= i64::MAX,
            forall|x: int, p: usize|
                0 <= x < v ==> (#[trigger] tables(c@)[x].contains_key(p) <==> touches(
                    rows,
                    part,
                    x,
                    p,
                )),
            forall|x: int, p: usize|
                0 <= x < v ==> #[trigger] strength(tables(c@), x, p) == link(rows, part, x, p),
        decreases rows.len() - v,
    {
        let row: &Vec<(usize, i64)> = graph.neighbors(v);
        let mut table: HashMap<usize, i64> = HashMap::new();
        let ghost weight = |k: int| magnitude(rows[v as int][k].1 as int);
        proof {
            lemma_total_nonneg(row@.len() as int, weight);
            assert(row_mass(rows, v as int) <= i64::MAX);
        }
        let mut k: usize = 0;
        while k < row.len()
            invariant
                rows == graph@,
                part == partition@,
                in_range(rows),
                v < rows.len() <= part.len(),
                row@ == rows[v as int],
                k <= row@.len(),
                weight == (|j: int| magnitude(rows[v as int][j].1 as int)),
                total(row@.len() as int, weight) <= i64::MAX,
                forall|m: int|
                    0 <= m <= row@.len() ==> #[trigger] total(m, weight) <= total(
                        row@.len() as int,
                        weight,
                    ),
                forall|p: usize| #[trigger]
                    table@.contains_key(p) <==> exists|j: int|
                        0 <= j < k && part[(#[trigger] row@[j]).0 as int] == p,
                forall|p: usize| #[trigger]
                    table@.contains_key(p) ==> table@[p] == total(
                        k as int,
                        link_term(rows, part, v as int, p),
                    ),
                forall|p: usize|
                    !table@.contains_key(p) ==> #[trigger] total(
                        k as int,
                        link_term(rows, part, v as int, p),
                    ) == 0,
            decreases row@.len() - k,
        {
            let (u, w) = row[k];
            assert(rows[v as int][k as int] == row@[k as int]);
            let p: usize = partition[u];
            let ghost before = table@;
            proof {
                assert(total(k + 1, weight) <= total(row@.len() as int, weight));
                lemma_total_magnitude(k + 1, link_term(rows, part, v as int, p), weight);
                let f = link_term(rows, part, v as int, p);
                assert(total(k + 1, f) == total(k as int, f) + w);
            }
            deposit(&mut table, p, w);
            proof {
                assert forall|q: usize| #[trigger]
                    table@.contains_key(q) <==> exists|j: int|
                        0 <= j < k + 1 && part[(#[trigger] row@[j]).0 as int] == q by {
                    if q == p {
                        assert(part[row@[k as int].0 as int] == q);
                    } else {
                        if before.contains_key(q) {
                            let j = choose|j: int|
                                0 <= j < k && part[(#[trigger] row@[j]).0 as int] == q;
                            assert(part[row@[j].0 as int] == q);
                        }
                    }
                }
                assert forall|q: usize| #[trigger] table@.contains_key(q) implies table@[q]
                    == total(k + 1, link_term(rows, part, v as int, q)) by {
                    let f = link_term(rows, part, v as int, q);
                    assert(total(k + 1, f) == total(k as int, f) + f(k as int));
                }
                assert forall|q: usize| !table@.contains_key(q) implies #[trigger] total(
                    k + 1,
                    link_term(rows, part, v as int, q),
                ) == 0 by {
                    assert(!before.contains_key(q));
                    let f = link_term(rows, part, v as int, q);
                    assert(total(k + 1, f) == total(k as int, f) + f(k as int));
                }
            }
            k += 1;
        }
        let ghost earlier = tables(c@);
        c.push(table);
        proof {
            let later = tables(c@);
            assert forall|x: int, p: usize| 0 <= x < v + 1 implies (
            #[trigger] later[x].contains_key(p) <==> touches(rows, part, x, p)) by {
                if x < v {
                    assert(later[x] == earlier[x]);
                    assert(earlier[x].contains_key(p) <==> touches(rows, part, x, p));
                } else {
                    assert(later[x] == table@);
                    if touches(rows, part, x, p) {
                        let j = choose|j: int|
                            0 <= j < rows[x].len() && part[(#[trigger] rows[x][j]).0 as int] == p;
                        assert(part[row@[j].0 as int] == p);
                    }
                    if table@.contains_key(p) {
                        let j = choose|j: int|
                            0 <= j < k && part[(#[trigger] row@[j]).0 as int] == p;
                        assert(part[rows[x][j].0 as int] == p);
                    }
                }
            }
            assert forall|x: int, p: usize| 0 <= x < v + 1 implies #[trigger] strength(
                later,
                x,
                p,
            ) == link(rows, part, x, p) by {
                if x < v {
                    assert(later[x] == earlier[x]);
                    assert(strength(earlier, x, p) == link(rows, part, x, p));
                } else {
                    assert(later[x] == table@);
                }
            }
        }
        v += 1;
    }
    let ghost filled = tables(c@);
    while c.len() < partition.len()
        invariant
            rows.len() <= c@.len() <= partition@.len(),
            filled.len() == rows.len(),
            forall|x: int| 0 <= x < rows.len() ==> #[trigger] tables(c@)[x] == filled[x],
            forall|x: int|
                rows.len() <= x < c@.len() ==> #[trigger] tables(c@)[x] == Map::<
                    usize,
                    i64,
                >::empty(),
        decreases partition@.len() - c@.len(),
    {
        let ghost earlier = tables(c@);
        c.push(HashMap::new());
        assert forall|x: int| 0 <= x < earlier.len() implies #[trigger] tables(c@)[x]
            == earlier[x] by {}
    }
    proof {
        let c_all = tables(c@);
        assert forall|x: int, p: usize| 0 <= x < rows.len() implies (
        #[trigger] c_all[x].contains_key(p) <==> touches(rows, part, x, p)) by {
            assert(c_all[x] == filled[x]);
            assert(filled[x].contains_key(p) <==> touches(rows, part, x, p));
        }
        assert forall|x: int, p: usize| 0 <= x < rows.len() implies #[trigger] strength(
            c_all,
            x,
            p,
        ) == link(rows, part, x, p) by {
            assert(c_all[x] == filled[x]);
            assert(strength(filled, x, p) == link(rows, part, x, p));
        }
    }
    c
}

/// How well a vertex is connected to a part.
pub fn conn(vertex_id: usize, partition_id: usize, c: &Vec<HashMap<usize, i64>>) -> (weight: i64)
    requires
        vertex_id < c@.len(),
    ensures
        weight == strength(tables(c@), vertex_id as int, partition_id),
        c@[vertex_id as int]@.contains_key(partition_id) ==> weight
            == c@[vertex_id as int]@[partition_id],
        !c@[vertex_id as int]@.contains_key(partition_id) ==> weight == 0,
{
    match c[vertex_id].get(&partition_id) {
        Some(weight) => *weight,
        None => 0,
    }
}

/// The first of the parts to which the table gives the greatest weight.
pub open spec fn most_connected(ids: Seq<usize>, table: Map<usize, i64>) -> usize
    decreases ids.len(),
{
    if ids.len() <= 1 {
        ids[0]
    } else {
        let best = most_connected(ids.drop_last(), table);
        if table[ids.last()] > table[best] {
            ids.last()
        } else {
            best
        }
    }
}

/// The most connected part is one of the parts on offer, none of them is
/// connected more strongly, and each of them that comes before it is
/// connected less strongly.
pub proof fn law_most_connected(ids: Seq<usize>, table: Map<usize, i64>)
    requires
        ids.len() > 0,
    ensures
        exists|i: int|
            0 <= i < ids.len() && #[trigger] ids[i] == most_connected(ids, table) && (forall|j: int|
                0 <= j < i ==> table[#[trigger] ids[j]] < table[ids[i]]),
        forall|j: int|
            0 <= j < ids.len() ==> table[#[trigger] ids[j]] <= table[most_connected(ids, table)],
    decreases ids.len(),
{
    if ids.len() > 1 {
        let fewer = ids.drop_last();
        law_most_connected(fewer, table);
        let best = most_connected(fewer, table);
        let i = choose|i: int|
            0 <= i < fewer.len() && #[trigger] fewer[i] == best && (forall|j: int|
                0 <= j < i ==> table[#[trigger] fewer[j]] < table[fewer[i]]);
        assert forall|j: int| 0 <= j < fewer.len() implies table[#[trigger] ids[j]]
            <= table[best] by {
            assert(fewer[j] == ids[j]);
        }
        assert(ids[i] == fewer[i]);
        if table[ids.last()] > table[best] {
            assert(ids[ids.len() - 1] == most_connected(ids, table));
        } else {
            assert forall|j: int| 0 <= j < i implies table[#[trigger] ids[j]] < table[ids[i]] by {
                assert(fewer[j] == ids[j]);
            }
        }
    } else {
        assert(ids[0] == most_connected(ids, table));
    }
}

/// The part, among those on offer, to which a vertex is connected most
/// strongly; the first one where several are.
pub fn get_most_connected_partition(
    vertex_id: usize,
    partition_ids: &[usize],
    c: &Vec<HashMap<usize, i64>>,
) -> (best: usize)
    requires
        partition_ids@.len() > 0,
        vertex_id < c@.len(),
        forall|i: int|
            0 <= i < partition_ids@.len() ==> c@[vertex_id as int]@.contains_key(
                #[trigger] partition_ids@[i],
            ),
    ensures
        best == most_connected(partition_ids@, c@[vertex_id as int]@),
{
    let ghost ids = partition_ids@;
    let ghost table = c@[vertex_id as int]@;
    let mut best: usize = partition_ids[0];
    let mut connections: i64 = conn(vertex_id, best, c);
    let mut i: usize = 1;
    assert(ids.take(1) == seq![ids[0]]);
    assert(table.contains_key(ids[0]));
    while i < partition_ids.len()
        invariant
            1 <= i <= ids.len(),
            ids == partition_ids@,
            vertex_id < c@.len(),
            table == c@[vertex_id as int]@,
            forall|j: int| 0 <= j < ids.len() ==> table.contains_key(#[trigger] ids[j]),
            best == most_connected(ids.take(i as int), table),
            table.contains_key(best),
            connections == table[best],
        decreases ids.len() - i,
    {
        let id: usize = partition_ids[i];
        assert(table.contains_key(ids[i as int]));
        let weight: i64 = conn(vertex_id, id, c);
        proof {
            assert(ids.take(i + 1).drop_last() == ids.take(i as int));
            assert(ids.take(i + 1).last() == id);
        }
        if weight > connections {
            connections = weight;
            best = id;
        }
        i += 1;
    }
    assert(ids.take(ids.len() as int) == ids);
    best
}

/// The table has an entry for the part of every neighbor and for no other part.
/// The entry is the weight of the edges to that part, and a part without an entry
/// counts as nothing.
pub proof fn law_table_is_of_neighbors(
    rows: Adjacency,
    part: Seq<usize>,
    c: Seq<Map<usize, i64>>,
    v: int,
    p: usize,
)
    requires
        tabulates(rows, part, c),
        0 <= v < rows.len(),
    ensures
        c[v].contains_key(p) <==> exists|k: int|
            0 <= k < rows[v].len() && part[(#[trigger] rows[v][k]).0 as int] == p,
        c[v].contains_key(p) ==> c[v][p] == total(
            rows[v].len() as int,
            |k: int|
                if part[rows[v][k].0 as int] == p {
                    rows[v][k].1 as int
                } else {
                    0
                },
        ),
        strength(c, v, p) == total(
            rows[v].len() as int,
            |k: int|
                if part[rows[v][k].0 as int] == p {
                    rows[v][k].1 as int
                } else {
                    0
                },
        ),
        c.len() == part.len(),
{
    assert(strength(c, v, p) == link(rows, part, v, p));
    lemma_total_ext(
        rows[v].len() as int,
        link_term(rows, part, v, p),
        |k: int|
            if part[rows[v][k].0 as int] == p {
                rows[v][k].1 as int
            } else {
                0
            },
    );
}

} // verus!
