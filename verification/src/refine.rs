//! Label propagation: moves that make the edge cut smaller.

use crate::connectivity::{
    conn, get_most_connected_partition, law_most_connected, most_connected, strength, tables,
    tabulates, touches, Move,
};
use crate::relocate::movable;
use crate::topology::{in_range, row_mass, Adjacency, Graph};
use crate::total::{lemma_total_magnitude, lemma_total_nonneg, magnitude, total};
use crate::tracking::distinct_vertices;
use std::collections::{HashMap, HashSet};
use vstd::prelude::*;
use vstd::slice::slice_to_vec;

verus! {

broadcast use vstd::std_specs::hash::group_hash_axioms;

/// The parts, other than `own`, of the first `k` neighbors in a list, in
/// order.
pub open spec fn other_parts(
    row: Seq<(usize, i64)>,
    part: Seq<usize>,
    own: usize,
    k: int,
) -> Seq<usize>
    decreases k,
{
    if k <= 0 {
        Seq::empty()
    } else if part[row[k - 1].0 as int] != own {
        other_parts(row, part, own, k - 1).push(part[row[k - 1].0 as int])
    } else {
        other_parts(row, part, own, k - 1)
    }
}

/// The parts that vertex `v` can move to: those of its neighbors, without its
/// own.
pub open spec fn choices(rows: Adjacency, part: Seq<usize>, v: int) -> Seq<usize> {
    other_parts(rows[v], part, part[v], rows[v].len() as int)
}

/// The vertex is not locked and has a neighbor in another part.
pub open spec fn restless(
    rows: Adjacency,
    part: Seq<usize>,
    locked: Set<usize>,
    v: int,
) -> bool {
    !locked.contains(v as usize) && choices(rows, part, v).len() > 0
}

/// Where a vertex would move: to the part, among its choices, to which it is
/// connected most strongly. A vertex that is not restless stays.
pub open spec fn destination(
    rows: Adjacency,
    part: Seq<usize>,
    c: Seq<Map<usize, i64>>,
    locked: Set<usize>,
    v: int,
) -> usize {
    if restless(rows, part, locked, v) {
        most_connected(choices(rows, part, v), c[v])
    } else {
        part[v]
    }
}

/// How much the edge cut would drop if the vertex alone moved.
pub open spec fn gain(
    rows: Adjacency,
    part: Seq<usize>,
    c: Seq<Map<usize, i64>>,
    locked: Set<usize>,
    v: int,
) -> int {
    if restless(rows, part, locked, v) {
        strength(c, v, destination(rows, part, c, locked, v)) - strength(c, v, part[v])
    } else {
        0
    }
}

/// The table has an entry for every choice of every vertex that is not locked.
pub open spec fn choices_tabled(
    rows: Adjacency,
    part: Seq<usize>,
    c: Seq<Map<usize, i64>>,
    locked: Set<usize>,
) -> bool {
    forall|v: int, i: int|
        0 <= v < rows.len() && !locked.contains(v as usize) && 0 <= i < choices(
            rows,
            part,
            v,
        ).len() ==> c[v].contains_key(#[trigger] choices(rows, part, v)[i])
}

/// The destinations of all vertices.
pub open spec fn destinations(
    rows: Adjacency,
    part: Seq<usize>,
    c: Seq<Map<usize, i64>>,
    locked: Set<usize>,
) -> Seq<usize> {
    Seq::new(rows.len(), |v: int| destination(rows, part, c, locked, v))
}

/// The gains of all vertices.
pub open spec fn gains(
    rows: Adjacency,
    part: Seq<usize>,
    c: Seq<Map<usize, i64>>,
    locked: Set<usize>,
) -> Seq<i64> {
    Seq::new(rows.len(), |v: int| gain(rows, part, c, locked, v) as i64)
}

/// The vertices among the first `n` that pass the first filter: they are not
/// locked, and their gain is positive or their loss is below their allowance.
pub open spec fn eligible(
    locked: Set<usize>,
    gain: Seq<i64>,
    allowance: Seq<i64>,
    n: int,
) -> Seq<usize>
    decreases n,
{
    if n <= 0 {
        Seq::empty()
    } else {
        let v = n - 1;
        let before = eligible(locked, gain, allowance, v);
        if !locked.contains(v as usize) && (gain[v] > 0 || -gain[v] < allowance[v]) {
            before.push(v as usize)
        } else {
            before
        }
    }
}

/// The first vertex takes its turn before the second: it is on the list, and
/// its gain is greater, or equal and its number smaller.
pub open spec fn higher(first: usize, second: usize, gain: Seq<i64>, list: Seq<usize>) -> bool {
    list.contains(first) && (gain[first as int] > gain[second as int] || (gain[first as int]
        == gain[second as int] && first < second))
}

/// The part in which vertex `v` will find neighbor `u` when its turn comes.
pub open spec fn met(
    part: Seq<usize>,
    dest: Seq<usize>,
    gain: Seq<i64>,
    list: Seq<usize>,
    u: usize,
    v: usize,
) -> usize {
    if higher(u, v, gain, list) {
        dest[u as int]
    } else {
        part[u as int]
    }
}

/// What entry `k` of the list of `v` adds to the gain of `v` when the vertices
/// before it have moved.
pub open spec fn regain_term(
    row: Seq<(usize, i64)>,
    part: Seq<usize>,
    dest: Seq<usize>,
    gain: Seq<i64>,
    list: Seq<usize>,
    v: usize,
) -> spec_fn(int) -> int {
    |k: int|
        {
            let p = met(part, dest, gain, list, row[k].0, v);
            if p == dest[v as int] {
                row[k].1 as int
            } else if p == part[v as int] {
                -(row[k].1 as int)
            } else {
                0
            }
        }
}

/// Some of the first `n` neighbors of `v` will be in its own part or in the
/// part where it goes.
pub open spec fn meets(
    row: Seq<(usize, i64)>,
    part: Seq<usize>,
    dest: Seq<usize>,
    gain: Seq<i64>,
    list: Seq<usize>,
    v: usize,
    n: int,
) -> bool {
    exists|k: int|
        0 <= k < n && ({
            let p = met(part, dest, gain, list, (#[trigger] row[k]).0, v);
            p == dest[v as int] || p == part[v as int]
        })
}

/// The gains of the listed vertices when those before them have moved; a
/// vertex that meets nobody has none.
pub open spec fn regains(
    rows: Adjacency,
    part: Seq<usize>,
    dest: Seq<usize>,
    gain: Seq<i64>,
    list: Seq<usize>,
) -> Map<usize, i64> {
    Map::new(
        |v: usize|
            list.contains(v) && meets(
                rows[v as int],
                part,
                dest,
                gain,
                list,
                v,
                rows[v as int].len() as int,
            ),
        |v: usize|
            total(
                rows[v as int].len() as int,
                regain_term(rows[v as int], part, dest, gain, list, v),
            ) as i64,
    )
}

/// The moves of those of the first `n` listed vertices whose gain is positive;
/// a vertex without a gain stays.
pub open spec fn winners(
    list: Seq<usize>,
    dest: Seq<usize>,
    gain: Map<usize, i64>,
    n: int,
) -> Seq<Move>
    decreases n,
{
    if n <= 0 {
        Seq::empty()
    } else {
        let v = list[n - 1];
        if gain.contains_key(v) && gain[v] > 0 {
            winners(list, dest, gain, n - 1).push(
                Move { vertex: v, partition_id: dest[v as int] },
            )
        } else {
            winners(list, dest, gain, n - 1)
        }
    }
}

/// The vertices that pass the first filter of a propagation step.
pub open spec fn shortlist(
    rows: Adjacency,
    part: Seq<usize>,
    c: Seq<Map<usize, i64>>,
    locked: Set<usize>,
    allowance: Seq<i64>,
) -> Seq<usize> {
    eligible(locked, gains(rows, part, c, locked), allowance, rows.len() as int)
}

/// The second gains of a propagation step.
pub open spec fn second_gains(
    rows: Adjacency,
    part: Seq<usize>,
    c: Seq<Map<usize, i64>>,
    locked: Set<usize>,
    allowance: Seq<i64>,
) -> Map<usize, i64> {
    regains(
        rows,
        part,
        destinations(rows, part, c, locked),
        gains(rows, part, c, locked),
        shortlist(rows, part, c, locked, allowance),
    )
}

/// The moves of a propagation step: the shortlisted vertices whose second gain
/// is positive, each to its destination.
pub open spec fn refinement(
    rows: Adjacency,
    part: Seq<usize>,
    c: Seq<Map<usize, i64>>,
    locked: Set<usize>,
    allowance: Seq<i64>,
) -> Seq<Move> {
    let list = shortlist(rows, part, c, locked, allowance);
    winners(
        list,
        destinations(rows, part, c, locked),
        second_gains(rows, part, c, locked, allowance),
        list.len() as int,
    )
}

/// The difference of any two connectivities of a vertex fits in an `i64`, and
/// so does its negation.
pub open spec fn moderate(c: Seq<Map<usize, i64>>) -> bool {
    forall|v: int, p: usize, q: usize|
        0 <= v < c.len() ==> magnitude(
            #[trigger] strength(c, v, p) - #[trigger] strength(c, v, q),
        ) <= i64::MAX
}

/// Whether a list holds a number.
pub fn listed(list: &[usize], x: usize) -> (found: bool)
    ensures
        found == list@.contains(x),
{
    let mut i: usize = 0;
    while i < list.len()
        invariant
            i <= list@.len(),
            forall|j: int| 0 <= j < i ==> list@[j] != x,
        decreases list@.len() - i,
    {
        if list[i] == x {
            return true;
        }
        i += 1;
    }
    false
}

/// The vertices that moves have locked.
pub fn get_locked_vertices(moves: &Vec<Move>) -> (locked: HashSet<usize>)
    ensures
        forall|v: usize| #[trigger]
            locked@.contains(v) <==> exists|j: int|
                0 <= j < moves@.len() && (#[trigger] moves@[j]).vertex == v,
{
    let mut locked: HashSet<usize> = HashSet::new();
    let mut i: usize = 0;
    while i < moves.len()
        invariant
            i <= moves@.len(),
            forall|v: usize| #[trigger]
                locked@.contains(v) <==> exists|j: int|
                    0 <= j < i && (#[trigger] moves@[j]).vertex == v,
        decreases moves@.len() - i,
    {
        let ghost before = locked@;
        locked.insert(moves[i].vertex);
        assert forall|v: usize| #[trigger]
            locked@.contains(v) <==> exists|j: int|
                0 <= j < i + 1 && (#[trigger] moves@[j]).vertex == v by {
            if v == moves@[i as int].vertex {
                assert(moves@[i as int].vertex == v);
            } else if before.contains(v) {
                let j = choose|j: int| 0 <= j < i && (#[trigger] moves@[j]).vertex == v;
                assert(moves@[j].vertex == v);
            }
        }
        i += 1;
    }
    locked
}

/// The vertices worth moving by themselves: not locked, with a positive gain
/// or with a loss below their allowance.
///
/// The allowance of a vertex is the filter ratio times the connectivity of the
/// vertex to its own part, rounded down.
pub fn gain_conn_ratio_filter(
    locked_vertices: &HashSet<usize>,
    gain: &[i64],
    allowance: &[i64],
) -> (list: Vec<usize>)
    requires
        gain@.len() == allowance@.len(),
        forall|v: int| 0 <= v < gain@.len() ==> #[trigger] gain@[v] > i64::MIN,
    ensures
        list@ == eligible(locked_vertices@, gain@, allowance@, gain@.len() as int),
{
    let mut list: Vec<usize> = Vec::new();
    let mut v: usize = 0;
    while v < gain.len()
        invariant
            v <= gain@.len() == allowance@.len(),
            forall|x: int| 0 <= x < gain@.len() ==> #[trigger] gain@[x] > i64::MIN,
            list@ == eligible(locked_vertices@, gain@, allowance@, v as int),
        decreases gain@.len() - v,
    {
        assert(gain@[v as int] > i64::MIN);
        if !locked_vertices.contains(&v) && (gain[v] > 0 || -gain[v] < allowance[v]) {
            list.push(v);
        }
        v += 1;
    }
    list
}

/// The moves of the listed vertices whose gain is positive. A vertex for which
/// no gain is given stays.
pub fn non_negative_gain_filter(
    first_filter_eligible_moves: &[usize],
    partition_dest: &[usize],
    gain: &HashMap<usize, i64>,
) -> (moves: Vec<Move>)
    requires
        forall|i: int|
            0 <= i < first_filter_eligible_moves@.len() && gain@.contains_key(
                first_filter_eligible_moves@[i],
            ) && gain@[first_filter_eligible_moves@[i]] > 0
                ==> #[trigger] first_filter_eligible_moves@[i] < partition_dest@.len(),
    ensures
        moves@ == winners(
            first_filter_eligible_moves@,
            partition_dest@,
            gain@,
            first_filter_eligible_moves@.len() as int,
        ),
{
    let mut moves: Vec<Move> = Vec::new();
    let mut i: usize = 0;
    let ghost list = first_filter_eligible_moves@;
    while i < first_filter_eligible_moves.len()
        invariant
            list == first_filter_eligible_moves@,
            i <= list.len(),
            forall|j: int|
                0 <= j < list.len() && gain@.contains_key(list[j]) && gain@[list[j]] > 0
                    ==> #[trigger] list[j] < partition_dest@.len(),
            moves@ == winners(list, partition_dest@, gain@, i as int),
        decreases list.len() - i,
    {
        let v: usize = first_filter_eligible_moves[i];
        assert(v == list[i as int]);
        if let Some(g) = gain.get(&v) {
            if *g > 0 {
                moves.push(Move { vertex: v, partition_id: partition_dest[v] });
            }
        }
        i += 1;
    }
    moves
}

/// Whether the first vertex takes its turn before the second.
pub fn is_higher_placed(
    vertex1: usize,
    vertex2: usize,
    gain: &[i64],
    list_of_vertices: &[usize],
) -> (r: bool)
    requires
        list_of_vertices@.contains(vertex1) ==> vertex1 < gain@.len() && vertex2 < gain@.len(),
    ensures
        r == higher(vertex1, vertex2, gain@, list_of_vertices@),
{
    listed(list_of_vertices, vertex1) && (gain[vertex1] > gain[vertex2] || (gain[vertex1]
        == gain[vertex2] && vertex1 < vertex2))
}

/// The parts, other than `own`, of the neighbors in a list.
fn neighbor_parts(row: &Vec<(usize, i64)>, partition: &[usize], own: usize) -> (parts: Vec<usize>)
    requires
        forall|k: int| 0 <= k < row@.len() ==> (#[trigger] row@[k]).0 < partition@.len(),
    ensures
        parts@ == other_parts(row@, partition@, own, row@.len() as int),
{
    let mut parts: Vec<usize> = Vec::new();
    let mut k: usize = 0;
    while k < row.len()
        invariant
            k <= row@.len(),
            forall|j: int| 0 <= j < row@.len() ==> (#[trigger] row@[j]).0 < partition@.len(),
            parts@ == other_parts(row@, partition@, own, k as int),
        decreases row@.len() - k,
    {
        let u: usize = row[k].0;
        assert(row@[k as int].0 < partition@.len());
        if partition[u] != own {
            parts.push(partition[u]);
        }
        k += 1;
    }
    parts
}

/// Whether a table has an entry for each of the parts.
pub(crate) fn all_tabled(parts: &[usize], table: &HashMap<usize, i64>) -> (r: bool)
    ensures
        r == (forall|i: int| 0 <= i < parts@.len() ==> table@.contains_key(#[trigger] parts@[i])),
{
    let mut i: usize = 0;
    while i < parts.len()
        invariant
            i <= parts@.len(),
            forall|j: int| 0 <= j < i ==> table@.contains_key(#[trigger] parts@[j]),
        decreases parts@.len() - i,
    {
        if !table.contains_key(&parts[i]) {
            assert(!table@.contains_key(parts@[i as int]));
            return false;
        }
        i += 1;
    }
    true
}

/// The gain of a listed vertex when the vertices before it have moved, or
/// nothing if it meets nobody.
fn regain(
    graph: &Graph,
    partition: &[usize],
    dest: &[usize],
    gain: &[i64],
    list: &[usize],
    v: usize,
) -> (result: Option<i64>)
    requires
        graph@.len() == partition@.len() == dest@.len() == gain@.len(),
        v < graph@.len(),
        row_mass(graph@, v as int) <= i64::MAX,
    ensures
        result is Some <==> meets(
            graph@[v as int],
            partition@,
            dest@,
            gain@,
            list@,
            v,
            graph@[v as int].len() as int,
        ),
        result matches Some(g) ==> g == total(
            graph@[v as int].len() as int,
            regain_term(graph@[v as int], partition@, dest@, gain@, list@, v),
        ),
{
    let row: &Vec<(usize, i64)> = graph.neighbors(v);
    let ghost term = regain_term(row@, partition@, dest@, gain@, list@, v);
    let ghost weight = |k: int| magnitude(graph@[v as int][k].1 as int);
    proof {
        lemma_total_nonneg(row@.len() as int, weight);
        assert(total(row@.len() as int, weight) == row_mass(graph@, v as int));
    }
    let mut found: bool = false;
    let mut sum: i64 = 0;
    let mut k: usize = 0;
    while k < row.len()
        invariant
            graph@.len() == partition@.len() == dest@.len() == gain@.len(),
            v < graph@.len(),
            in_range(graph@),
            row@ == graph@[v as int],
            k <= row@.len(),
            term == regain_term(row@, partition@, dest@, gain@, list@, v),
            weight == (|j: int| magnitude(graph@[v as int][j].1 as int)),
            total(row@.len() as int, weight) <= i64::MAX,
            forall|m: int|
                0 <= m <= row@.len() ==> #[trigger] total(m, weight) <= total(
                    row@.len() as int,
                    weight,
                ),
            found == meets(row@, partition@, dest@, gain@, list@, v, k as int),
            sum == total(k as int, term),
        decreases row@.len() - k,
    {
        let (u, w) = row[k];
        assert(graph@[v as int][k as int].0 < graph@.len());
        let p: usize = if is_higher_placed(u, v, gain, list) {
            dest[u]
        } else {
            partition[u]
        };
        let ghost before = found;
        proof {
            assert(total(k + 1, weight) <= total(row@.len() as int, weight));
            assert(weight(k as int) == magnitude(w as int));
            lemma_total_magnitude(k + 1, term, weight);
            assert(total(k + 1, term) == total(k as int, term) + term(k as int));
            assert(p == met(partition@, dest@, gain@, list@, row@[k as int].0, v));
        }
        if p == dest[v] {
            sum = sum + w;
            found = true;
        } else if p == partition[v] {
            sum = sum - w;
            found = true;
        }
        proof {
            if before {
                let j = choose|j: int|
                    0 <= j < k && ({
                        let q = met(partition@, dest@, gain@, list@, (#[trigger] row@[j]).0, v);
                        q == dest@[v as int] || q == partition@[v as int]
                    });
                assert(row@[j] == row@[j]);
                assert(meets(row@, partition@, dest@, gain@, list@, v, k + 1));
            }
            if p == dest@[v as int] || p == partition@[v as int] {
                assert(row@[k as int].0 == u);
                assert(meets(row@, partition@, dest@, gain@, list@, v, k + 1));
            }
        }
        k += 1;
    }
    if found {
        Some(sum)
    } else {
        None
    }
}

/// The vertices on an eligible list are the vertices below `n` that pass, in
/// ascending order.
pub proof fn lemma_eligible(locked: Set<usize>, gain: Seq<i64>, allowance: Seq<i64>, n: int)
    requires
        0 <= n <= gain.len(),
        n <= usize::MAX,
    ensures
        forall|v: usize| #[trigger]
            eligible(locked, gain, allowance, n).contains(v) <==> v < n && !locked.contains(v) && (
            gain[v as int] > 0 || -gain[v as int] < allowance[v as int]),
        forall|i: int, j: int|
            0 <= i < j < eligible(locked, gain, allowance, n).len() ==> #[trigger] eligible(
                locked,
                gain,
                allowance,
                n,
            )[i] < #[trigger] eligible(locked, gain, allowance, n)[j],
    decreases n,
{
    let list = eligible(locked, gain, allowance, n);
    if n > 0 {
        lemma_eligible(locked, gain, allowance, n - 1);
        let before = eligible(locked, gain, allowance, n - 1);
        let v = (n - 1) as usize;
        assert forall|i: int| 0 <= i < before.len() implies #[trigger] before[i] < n - 1 by {
            assert(before.contains(before[i]));
        }
        assert forall|u: usize| #[trigger]
            list.contains(u) <==> u < n && !locked.contains(u) && (gain[u as int] > 0
                || -gain[u as int] < allowance[u as int]) by {
            if list.contains(u) {
                let i = choose|i: int| 0 <= i < list.len() && list[i] == u;
                if i < before.len() {
                    assert(before[i] == u);
                    assert(before.contains(u));
                }
            }
            if before.contains(u) {
                let i = choose|i: int| 0 <= i < before.len() && before[i] == u;
                assert(list[i] == u);
            }
            if u == v && list.len() > before.len() {
                assert(list[before.len() as int] == u);
            }
        }
    }
}

/// Some entry of a list leads into part `p`.
pub open spec fn leads_into(row: Seq<(usize, i64)>, part: Seq<usize>, p: usize) -> bool {
    exists|j: int| 0 <= j < row.len() && part[(#[trigger] row[j]).0 as int] == p
}

proof fn lemma_other_parts(row: Seq<(usize, i64)>, part: Seq<usize>, own: usize, k: int)
    requires
        k <= row.len(),
    ensures
        forall|i: int|
            0 <= i < other_parts(row, part, own, k).len() ==> leads_into(
                row,
                part,
                #[trigger] other_parts(row, part, own, k)[i],
            ),
        forall|i: int|
            0 <= i < other_parts(row, part, own, k).len() ==> #[trigger] other_parts(
                row,
                part,
                own,
                k,
            )[i] != own,
    decreases k,
{
    if k > 0 {
        lemma_other_parts(row, part, own, k - 1);
        let list = other_parts(row, part, own, k);
        let before = other_parts(row, part, own, k - 1);
        assert forall|i: int| 0 <= i < list.len() implies leads_into(
            row,
            part,
            #[trigger] list[i],
        ) by {
            if i < before.len() {
                assert(list[i] == before[i]);
            } else {
                assert(part[row[k - 1].0 as int] == list[i]);
            }
        }
        assert forall|i: int| 0 <= i < list.len() implies #[trigger] list[i] != own by {
            if i < before.len() {
                assert(list[i] == before[i]);
            }
        }
    }
}

/// A vertex stays or goes to a part that occurs in the partition.
pub proof fn lemma_destination_occurs(
    rows: Adjacency,
    part: Seq<usize>,
    c: Seq<Map<usize, i64>>,
    locked: Set<usize>,
    v: int,
)
    requires
        in_range(rows),
        rows.len() == part.len(),
        0 <= v < rows.len(),
    ensures
        part.contains(destination(rows, part, c, locked, v)),
{
    assert(part.contains(part[v]));
    if restless(rows, part, locked, v) {
        let options = choices(rows, part, v);
        law_most_connected(options, c[v]);
        lemma_other_parts(rows[v], part, part[v], rows[v].len() as int);
        let i = choose|i: int|
            0 <= i < options.len() && #[trigger] options[i] == most_connected(options, c[v]);
        assert(leads_into(rows[v], part, options[i]));
        let j = choose|j: int|
            0 <= j < rows[v].len() && part[(#[trigger] rows[v][j]).0 as int] == options[i];
        assert(rows[v][j].0 < rows.len());
        assert(part[rows[v][j].0 as int] == options[i]);
    }
}

/// The table of a partition has an entry for every part that a vertex can move
/// to, and a vertex that would move goes to the part of a neighbor, which is
/// not its own.
pub proof fn law_choices_are_tabled(
    rows: Adjacency,
    part: Seq<usize>,
    c: Seq<Map<usize, i64>>,
    locked: Set<usize>,
)
    requires
        tabulates(rows, part, c),
    ensures
        choices_tabled(rows, part, c, locked),
        forall|v: int|
            0 <= v < rows.len() && restless(rows, part, locked, v) ==> touches(
                rows,
                part,
                v,
                #[trigger] destination(rows, part, c, locked, v),
            ) && destination(rows, part, c, locked, v) != part[v],
{
    assert forall|v: int, i: int|
        0 <= v < rows.len() && 0 <= i < choices(rows, part, v).len() implies touches(
        rows,
        part,
        v,
        #[trigger] choices(rows, part, v)[i],
    ) && choices(rows, part, v)[i] != part[v] by {
        lemma_other_parts(rows[v], part, part[v], rows[v].len() as int);
        let p = choices(rows, part, v)[i];
        let j = choose|j: int|
            0 <= j < rows[v].len() && part[(#[trigger] rows[v][j]).0 as int] == p;
        assert(part[rows[v][j].0 as int] == p);
    }
    assert forall|v: int, i: int|
        0 <= v < rows.len() && !locked.contains(v as usize) && 0 <= i < choices(
            rows,
            part,
            v,
        ).len() implies c[v].contains_key(#[trigger] choices(rows, part, v)[i]) by {
        assert(touches(rows, part, v, choices(rows, part, v)[i]));
    }
    assert forall|v: int| 0 <= v < rows.len() && restless(rows, part, locked, v) implies touches(
        rows,
        part,
        v,
        #[trigger] destination(rows, part, c, locked, v),
    ) && destination(rows, part, c, locked, v) != part[v] by {
        let options = choices(rows, part, v);
        law_most_connected(options, c[v]);
        let i = choose|i: int|
            0 <= i < options.len() && #[trigger] options[i] == most_connected(options, c[v]);
        assert(touches(rows, part, v, options[i]));
    }
}

proof fn lemma_winners(list: Seq<usize>, dest: Seq<usize>, gain: Map<usize, i64>, n: int)
    requires
        0 <= n <= list.len(),
        forall|i: int, j: int| 0 <= i < j < list.len() ==> #[trigger] list[i] < #[trigger] list[j],
    ensures
        forall|j: int|
            0 <= j < winners(list, dest, gain, n).len() ==> ({
                let step = #[trigger] winners(list, dest, gain, n)[j];
                &&& list.contains(step.vertex)
                &&& gain.contains_key(step.vertex) && gain[step.vertex] > 0
                &&& step.partition_id == dest[step.vertex as int]
                &&& n < list.len() ==> step.vertex < list[n]
            }),
        distinct_vertices(winners(list, dest, gain, n)),
    decreases n,
{
    if n > 0 {
        lemma_winners(list, dest, gain, n - 1);
        let moves = winners(list, dest, gain, n);
        let before = winners(list, dest, gain, n - 1);
        assert(list.contains(list[n - 1]));
        assert forall|j: int| 0 <= j < moves.len() implies ({
            let step = #[trigger] moves[j];
            &&& list.contains(step.vertex)
            &&& gain.contains_key(step.vertex) && gain[step.vertex] > 0
            &&& step.partition_id == dest[step.vertex as int]
            &&& n < list.len() ==> step.vertex < list[n]
        }) by {
            if j < before.len() {
                assert(moves[j] == before[j]);
            }
        }
        assert forall|i: int, j: int| 0 <= i < j < moves.len() implies (
        #[trigger] moves[i]).vertex != (#[trigger] moves[j]).vertex by {
            assert(moves[i] == before[i]);
            if j < before.len() {
                assert(moves[j] == before[j]);
            }
        }
    }
}

/// A propagation step never moves a locked vertex and moves no vertex twice.
/// Each vertex that it moves goes to its destination and gains by that even
/// when the vertices placed before it have moved.
pub proof fn law_refinement_respects_locks(
    rows: Adjacency,
    part: Seq<usize>,
    c: Seq<Map<usize, i64>>,
    locked: Set<usize>,
    allowance: Seq<i64>,
)
    requires
        rows.len() <= usize::MAX,
    ensures
        movable(rows, refinement(rows, part, c, locked, allowance)),
        distinct_vertices(refinement(rows, part, c, locked, allowance)),
        forall|j: int|
            0 <= j < refinement(rows, part, c, locked, allowance).len() ==> ({
                let step = #[trigger] refinement(rows, part, c, locked, allowance)[j];
                &&& !locked.contains(step.vertex)
                &&& step.partition_id == destination(rows, part, c, locked, step.vertex as int)
                &&& second_gains(rows, part, c, locked, allowance).contains_key(step.vertex)
                &&& second_gains(rows, part, c, locked, allowance)[step.vertex] > 0
            }),
{
    let list = shortlist(rows, part, c, locked, allowance);
    let dest = destinations(rows, part, c, locked);
    let second = second_gains(rows, part, c, locked, allowance);
    let moves = refinement(rows, part, c, locked, allowance);
    lemma_eligible(locked, gains(rows, part, c, locked), allowance, rows.len() as int);
    lemma_winners(list, dest, second, list.len() as int);
    assert forall|j: int| 0 <= j < moves.len() implies ({
        let step = #[trigger] moves[j];
        &&& step.vertex < rows.len()
        &&& !locked.contains(step.vertex)
        &&& step.partition_id == destination(rows, part, c, locked, step.vertex as int)
        &&& second.contains_key(step.vertex) && second[step.vertex] > 0
    }) by {
        assert(list.contains(moves[j].vertex));
    }
}

/// The moves that make the edge cut smaller.
///
/// Each vertex that is not locked and has a neighbor in another part would
/// move to the part to which it is connected most strongly. Those that pass
/// the first filter are looked at again as if the better placed of them had
/// moved already, and the moves that still gain are returned. One that would
/// meet no neighbor in its own part or in the part where it goes gains nothing
/// and stays.
///
/// There is no result if the table has no entry for a choice of a vertex.
pub fn jetlp(
    graph: &Graph,
    partition: &[usize],
    c: &Vec<HashMap<usize, i64>>,
    locked_vertices: &HashSet<usize>,
    allowance: &[i64],
) -> (result: Option<Vec<Move>>)
    requires
        graph@.len() == partition@.len() == c@.len() == allowance@.len(),
        moderate(tables(c@)),
        forall|v: int| 0 <= v < graph@.len() ==> #[trigger] row_mass(graph@, v) <= i64::MAX,
    ensures
        result is Some <==> choices_tabled(
            graph@,
            partition@,
            tables(c@),
            locked_vertices@,
        ),
        result matches Some(moves) ==> moves@ == refinement(
            graph@,
            partition@,
            tables(c@),
            locked_vertices@,
            allowance@,
        ),
{
    let ghost rows = graph@;
    let ghost part = partition@;
    let ghost table = tables(c@);
    let ghost locked = locked_vertices@;
    let n: usize = graph.len();
    let mut dest: Vec<usize> = slice_to_vec(partition);
    let mut gain_of: Vec<i64> = vec![0; n];
    let mut v: usize = 0;
    while v < n
        invariant
            rows == graph@,
            part == partition@,
            table == tables(c@),
            locked == locked_vertices@,
            n == rows.len() == part.len() == c@.len() == table.len(),
            moderate(table),
            v <= n,
            dest@.len() == n,
            gain_of@.len() == n,
            forall|x: int| v <= x < n ==> #[trigger] dest@[x] == part[x],
            forall|x: int| v <= x < n ==> #[trigger] gain_of@[x] == 0,
            forall|x: int|
                0 <= x < v ==> #[trigger] dest@[x] == destination(rows, part, table, locked, x),
            forall|x: int|
                0 <= x < v ==> #[trigger] gain_of@[x] == gain(rows, part, table, locked, x),
            forall|x: int|
                0 <= x < v ==> #[trigger] gain_of@[x] > i64::MIN,
            forall|x: int, i: int|
                0 <= x < v && !locked.contains(x as usize) && 0 <= i < choices(
                    rows,
                    part,
                    x,
                ).len() ==> table[x].contains_key(#[trigger] choices(rows, part, x)[i]),
        decreases n - v,
    {
        if !locked_vertices.contains(&v) {
            let row: &Vec<(usize, i64)> = graph.neighbors(v);
            assert forall|k: int| 0 <= k < row@.len() implies (#[trigger] row@[k]).0
                < part.len() by {
                assert(rows[v as int][k].0 < rows.len());
            }
            let own: usize = partition[v];
            let parts: Vec<usize> = neighbor_parts(row, partition, own);
            assert(parts@ == choices(rows, part, v as int));
            if !all_tabled(parts.as_slice(), &c[v]) {
                proof {
                    let i = choose|i: int|
                        0 <= i < parts@.len() && !c@[v as int]@.contains_key(
                            #[trigger] parts@[i],
                        );
                    assert(choices(rows, part, v as int)[i] == parts@[i]);
                    assert(!choices_tabled(rows, part, table, locked));
                }
                return None;
            }
            if parts.len() != 0 {
                let d: usize = get_most_connected_partition(v, parts.as_slice(), c);
                let there: i64 = conn(v, d, c);
                let here: i64 = conn(v, own, c);
                assert(magnitude(
                    strength(table, v as int, d) - strength(table, v as int, own),
                ) <= i64::MAX);
                dest.set(v, d);
                gain_of.set(v, there - here);
            }
        }
        v += 1;
    }
    proof {
        assert(dest@ =~= destinations(rows, part, table, locked));
        assert(gain_of@ =~= gains(rows, part, table, locked));
        assert(choices_tabled(rows, part, table, locked));
    }
    let list: Vec<usize> = gain_conn_ratio_filter(
        locked_vertices,
        gain_of.as_slice(),
        allowance,
    );
    proof {
        lemma_eligible(locked, gain_of@, allowance@, n as int);
        assert(list@ == shortlist(rows, part, table, locked, allowance@));
    }
    let mut second: HashMap<usize, i64> = HashMap::new();
    let ghost all = regains(rows, part, dest@, gain_of@, list@);
    let mut i: usize = 0;
    while i < list.len()
        invariant
            rows == graph@,
            part == partition@,
            n == rows.len() == part.len() == dest@.len() == gain_of@.len(),
            i <= list@.len(),
            dest@ == destinations(rows, part, table, locked),
            gain_of@ == gains(rows, part, table, locked),
            list@ == shortlist(rows, part, table, locked, allowance@),
            table == tables(c@),
            locked == locked_vertices@,
            all == regains(rows, part, dest@, gain_of@, list@),
            forall|x: int| 0 <= x < rows.len() ==> #[trigger] row_mass(rows, x) <= i64::MAX,
            forall|u: usize| #[trigger] list@.contains(u) ==> u < n,
            forall|u: usize| #[trigger]
                second@.contains_key(u) ==> all.contains_key(u) && second@[u] == all[u],
            forall|j: int|
                0 <= j < i && all.contains_key(#[trigger] list@[j]) ==> second@.contains_key(
                    list@[j],
                ),
        decreases list@.len() - i,
    {
        let u: usize = list[i];
        assert(list@.contains(list@[i as int]));
        assert(row_mass(rows, u as int) <= i64::MAX);
        if let Some(g) = regain(
            graph,
            partition,
            dest.as_slice(),
            gain_of.as_slice(),
            list.as_slice(),
            u,
        ) {
            second.insert(u, g);
        }
        i += 1;
    }
    proof {
        assert(second@ =~= all) by {
            assert forall|x: usize| #[trigger] all.contains_key(x) implies second@.contains_key(
                x,
            ) by {
                let j = choose|j: int| 0 <= j < list@.len() && list@[j] == x;
                assert(list@[j] == x);
            }
        }
        assert forall|j: int| 0 <= j < list@.len() implies #[trigger] list@[j] < dest@.len() by {
            assert(list@.contains(list@[j]));
        }
    }
    let moves: Vec<Move> = non_negative_gain_filter(
        list.as_slice(),
        dest.as_slice(),
        &second,
    );
    Some(moves)
}

} // verus!
