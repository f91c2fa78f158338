//! What heavy edge matching does: each vertex in turn takes the heaviest edge
//! that is left to it.

use crate::matching::{
    covered, founded, law_matching_groups, law_partner_is_heaviest, matching, pair, partner,
};
use crate::topology::{in_range, Adjacency};
use vstd::prelude::*;

verus! {

/// One of the groups before number `g` holds vertex `u`.
pub open spec fn taken(sets: Seq<Seq<usize>>, g: int, u: usize) -> bool {
    exists|d: int| 0 <= d < g && #[trigger] sets[d].contains(u)
}

/// Vertex `v` finds nobody to pair with: none of its edges has a positive weight
/// and leads to a vertex that is not in one of the groups before number `g`.
pub open spec fn left_alone(rows: Adjacency, sets: Seq<Seq<usize>>, g: int, v: usize) -> bool {
    forall|j: int|
        0 <= j < rows[v as int].len() && !taken(sets, g, (#[trigger] rows[v as int][j]).0)
            ==> rows[v as int][j].1 <= 0
}

/// Entry `j` of the list of `v` is the one to follow: it has a positive weight
/// and leads to a vertex that is not in one of the groups before number `g`, no
/// other entry that does so is heavier, and those before it are lighter.
pub open spec fn heaviest_left(
    rows: Adjacency,
    sets: Seq<Seq<usize>>,
    g: int,
    v: usize,
    j: int,
) -> bool {
    &&& 0 <= j < rows[v as int].len()
    &&& rows[v as int][j].1 > 0
    &&& !taken(sets, g, rows[v as int][j].0)
    &&& forall|x: int|
        0 <= x < rows[v as int].len() && !taken(sets, g, (#[trigger] rows[v as int][x]).0)
            ==> rows[v as int][x].1 <= rows[v as int][j].1 && (x < j ==> rows[v as int][x].1
            < rows[v as int][j].1)
}

/// Group `g` is founded by the vertex at place `i` of the order: all that are
/// visited before it are in earlier groups and it is not; it is alone in the
/// group if it finds nobody to pair with, and otherwise with the vertex at the
/// end of the heaviest edge that is left to it, the smaller one first.
pub open spec fn founded_by(
    rows: Adjacency,
    order: Seq<usize>,
    sets: Seq<Seq<usize>>,
    g: int,
    i: int,
) -> bool {
    let v = order[i];
    &&& 0 <= i < order.len()
    &&& !taken(sets, g, v)
    &&& forall|x: int| 0 <= x < i ==> taken(sets, g, #[trigger] order[x])
    &&& left_alone(rows, sets, g, v) ==> sets[g].len() == 1 && sets[g][0] == v
    &&& !left_alone(rows, sets, g, v) ==> sets[g].len() == 2 && sets[g][0] <= sets[g][1]
        && exists|j: int| #[trigger]
        heaviest_left(rows, sets, g, v, j) && ((sets[g][0] == v && sets[g][1]
            == rows[v as int][j].0) || (sets[g][1] == v && sets[g][0] == rows[v as int][j].0))
}

/// Some vertex of the order founds group `g`.
pub open spec fn is_founded(
    rows: Adjacency,
    order: Seq<usize>,
    sets: Seq<Seq<usize>>,
    g: int,
) -> bool {
    exists|i: int| #[trigger] founded_by(rows, order, sets, g, i)
}

/// The groups are made greedily: each by the first vertex of the order that is
/// in none before it, with the heaviest edge that is left to that vertex. Every
/// vertex of the order is in a group.
pub open spec fn is_greedy(rows: Adjacency, order: Seq<usize>, sets: Seq<Seq<usize>>) -> bool {
    &&& forall|g: int| 0 <= g < sets.len() ==> #[trigger] is_founded(rows, order, sets, g)
    &&& forall|x: int| 0 <= x < order.len() ==> taken(sets, sets.len() as int, #[trigger] order[x])
}

proof fn lemma_taken_is_covered(sets: Seq<Seq<usize>>, before: Seq<Seq<usize>>, u: usize)
    requires
        before.len() <= sets.len(),
        forall|d: int| 0 <= d < before.len() ==> #[trigger] sets[d] == before[d],
    ensures
        taken(sets, before.len() as int, u) <==> covered(before, u),
{
    if taken(sets, before.len() as int, u) {
        let d = choose|d: int| 0 <= d < before.len() && #[trigger] sets[d].contains(u);
        assert(before[d].contains(u));
    }
    if covered(before, u) {
        let d = choose|d: int| 0 <= d < before.len() && (#[trigger] before[d]).contains(u);
        assert(sets[d].contains(u));
    }
}

/// Whether a vertex is in one of the first groups depends on those groups alone.
proof fn lemma_taken_prefix(before: Seq<Seq<usize>>, after: Seq<Seq<usize>>, g: int)
    requires
        0 <= g <= before.len() <= after.len(),
        forall|d: int| 0 <= d < before.len() ==> #[trigger] after[d] == before[d],
    ensures
        forall|u: usize| #[trigger] taken(after, g, u) <==> taken(before, g, u),
{
    assert forall|u: usize| #[trigger] taken(after, g, u) <==> taken(before, g, u) by {
        if taken(after, g, u) {
            let d = choose|d: int| 0 <= d < g && #[trigger] after[d].contains(u);
            assert(before[d].contains(u));
        }
        if taken(before, g, u) {
            let d = choose|d: int| 0 <= d < g && #[trigger] before[d].contains(u);
            assert(after[d].contains(u));
        }
    }
}

proof fn lemma_founded_stays(
    rows: Adjacency,
    order: Seq<usize>,
    before: Seq<Seq<usize>>,
    after: Seq<Seq<usize>>,
    g: int,
)
    requires
        0 <= g < before.len() <= after.len(),
        forall|d: int| 0 <= d < before.len() ==> #[trigger] after[d] == before[d],
        is_founded(rows, order, before, g),
    ensures
        is_founded(rows, order, after, g),
{
    lemma_taken_prefix(before, after, g);
    let i = choose|i: int| #[trigger] founded_by(rows, order, before, g, i);
    let v = order[i];
    assert(after[g] == before[g]);
    assert forall|x: int| 0 <= x < i implies taken(after, g, #[trigger] order[x]) by {
        assert(taken(before, g, order[x]));
    }
    assert(left_alone(rows, after, g, v) <==> left_alone(rows, before, g, v));
    if !left_alone(rows, before, g, v) {
        let j = choose|j: int| #[trigger]
            heaviest_left(rows, before, g, v, j) && ((before[g][0] == v && before[g][1]
                == rows[v as int][j].0) || (before[g][1] == v && before[g][0]
                == rows[v as int][j].0));
        assert(heaviest_left(rows, after, g, v, j));
    }
    assert(founded_by(rows, order, after, g, i));
}

proof fn lemma_founds(rows: Adjacency, order: Seq<usize>, k: int)
    requires
        in_range(rows),
        0 < k <= order.len(),
        forall|i: int| 0 <= i < order.len() ==> #[trigger] order[i] < rows.len(),
        !covered(matching(rows, order, k - 1), order[k - 1]),
    ensures
        is_founded(
            rows,
            order,
            matching(rows, order, k),
            matching(rows, order, k - 1).len() as int,
        ),
{
    let before = matching(rows, order, k - 1);
    let after = matching(rows, order, k);
    let g = before.len() as int;
    let v = order[k - 1];
    let row = rows[v as int];
    let len = row.len() as int;
    assert(after == before.push(founded(row, before, v)));
    law_matching_groups(rows, order, k - 1);
    law_partner_is_heaviest(row, before, len);
    assert forall|u: usize| #[trigger] taken(after, g, u) <==> covered(before, u) by {
        lemma_taken_is_covered(after, before, u);
    }
    assert forall|x: int| 0 <= x < k - 1 implies taken(after, g, #[trigger] order[x]) by {
        assert(covered(before, order[x]));
    }
    match partner(row, before, len) {
        Some(j) => {
            assert(!taken(after, g, row[j].0));
            assert(!left_alone(rows, after, g, v)) by {
                assert(rows[v as int][j].1 > 0);
            }
            assert forall|x: int|
                0 <= x < row.len() && !taken(after, g, (#[trigger] rows[v as int][x]).0) implies (
            rows[v as int][x]).1 <= row[j].1 && (x < j ==> rows[v as int][x].1 < row[j].1) by {
                assert(!covered(before, row[x].0));
            }
            assert(heaviest_left(rows, after, g, v, j));
            assert(after[g] == pair(v, row[j].0));
        },
        None => {
            assert forall|j: int|
                0 <= j < row.len() && !taken(
                    after,
                    g,
                    (#[trigger] rows[v as int][j]).0,
                ) implies rows[v as int][j].1 <= 0 by {
                assert(!covered(before, row[j].0));
            }
            assert(left_alone(rows, after, g, v));
            assert(after[g] == seq![v]);
        },
    }
    assert(founded_by(rows, order, after, g, k - 1));
}

proof fn lemma_all_founded(rows: Adjacency, order: Seq<usize>, k: int)
    requires
        in_range(rows),
        0 <= k <= order.len(),
        forall|i: int| 0 <= i < order.len() ==> #[trigger] order[i] < rows.len(),
    ensures
        forall|g: int|
            0 <= g < matching(rows, order, k).len() ==> #[trigger] is_founded(
                rows,
                order,
                matching(rows, order, k),
                g,
            ),
    decreases k,
{
    if k > 0 {
        lemma_all_founded(rows, order, k - 1);
        let before = matching(rows, order, k - 1);
        let after = matching(rows, order, k);
        if !covered(before, order[k - 1]) {
            lemma_founds(rows, order, k);
            assert forall|g: int| 0 <= g < after.len() implies #[trigger] is_founded(
                rows,
                order,
                after,
                g,
            ) by {
                if g < before.len() {
                    assert(is_founded(rows, order, before, g));
                    lemma_founded_stays(rows, order, before, after, g);
                }
            }
        }
    }
}

/// Heavy edge matching is greedy: the first vertex of the order that is in no
/// group yet founds one, with the vertex without a group at the end of the
/// heaviest of its edges that lead to such vertices by a positive weight, or
/// alone if there is none; and so on until every vertex of the order is in a
/// group.
pub proof fn law_matching_is_greedy(rows: Adjacency, order: Seq<usize>)
    requires
        in_range(rows),
        forall|i: int| 0 <= i < order.len() ==> #[trigger] order[i] < rows.len(),
    ensures
        is_greedy(rows, order, matching(rows, order, order.len() as int)),
{
    let k = order.len() as int;
    let sets = matching(rows, order, k);
    lemma_all_founded(rows, order, k);
    law_matching_groups(rows, order, k);
    assert forall|x: int| 0 <= x < order.len() implies taken(
        sets,
        sets.len() as int,
        #[trigger] order[x],
    ) by {
        assert(covered(sets, order[x]));
        lemma_taken_is_covered(sets, sets, order[x]);
    }
}

} // verus!
