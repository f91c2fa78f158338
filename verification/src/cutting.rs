//! What moving one vertex does to the edge cut.

use crate::connectivity::strength;
use crate::double::Double;
use crate::rebalance::{loss, refuge, Load};
use crate::refine::{destination, gain, met, regain_term};
use crate::topology::{
    apart, apart_term, between, cut, double_cut, in_range, law_cut_counts_edges_once, lemma_regroup,
    link, link_term, symmetric, Adjacency,
};
use crate::total::{lemma_total_change, lemma_total_ext, lemma_total_plus, total};
use vstd::prelude::*;

verus! {

/// The weight of the edges from `v` to `u` if `u` is in part `p`.
spec fn within_term(rows: Adjacency, part: Seq<usize>, v: int, p: usize) -> spec_fn(int) -> int {
    |u: int|
        if part[u] == p {
            between(rows, v, u)
        } else {
            0
        }
}

proof fn lemma_link_by_vertex(rows: Adjacency, part: Seq<usize>, v: int, p: usize)
    requires
        in_range(rows),
        0 <= v < rows.len(),
    ensures
        link(rows, part, v, p) == total(rows.len() as int, within_term(rows, part, v, p)),
{
    let q = |a: int| part[a] == p;
    lemma_regroup(rows, v, q);
    lemma_total_ext(
        rows[v].len() as int,
        |k: int|
            if q(rows[v][k].0 as int) {
                rows[v][k].1 as int
            } else {
                0
            },
        link_term(rows, part, v, p),
    );
    lemma_total_ext(
        rows.len() as int,
        |a: int|
            if q(a) {
                between(rows, v, a)
            } else {
                0
            },
        within_term(rows, part, v, p),
    );
}

/// Moving one vertex of an undirected graph changes the edge cut by the weight
/// of its edges to its old part less the weight of its edges to its new part.
/// This holds of vertices whose edges to themselves weigh nothing.
pub proof fn law_move_changes_cut(rows: Adjacency, part: Seq<usize>, v: int, p: usize)
    requires
        in_range(rows),
        symmetric(rows),
        rows.len() <= part.len(),
        0 <= v < rows.len(),
        between(rows, v, v) == 0,
    ensures
        cut(rows, part.update(v, p)) == cut(rows, part) + link(rows, part, v, part[v]) - link(
            rows,
            part,
            v,
            p,
        ),
{
    let n = rows.len() as int;
    let own = part[v];
    let moved = part.update(v, p);
    let all = |u: int| between(rows, v, u);
    lemma_link_by_vertex(rows, part, v, own);
    lemma_link_by_vertex(rows, part, v, p);
    // what leads out of `v` before and after
    let f = apart_term(rows, part, v);
    let g = apart_term(rows, moved, v);
    lemma_total_plus(n, f, within_term(rows, part, v, own), all);
    assert forall|u: int| 0 <= u < n implies #[trigger] all(u) == g(u) + within_term(
        rows,
        part,
        v,
        p,
    )(u) by {
        if u == v {
            assert(between(rows, v, u) == 0);
        }
    }
    lemma_total_plus(n, g, within_term(rows, part, v, p), all);
    let out_shift = total(n, g) - total(n, f);
    assert(out_shift == link(rows, part, v, own) - link(rows, part, v, p));
    // what leads into `v` shifts as much
    let shift = |u: int| g(u) - f(u);
    lemma_total_plus(n, f, shift, g);
    assert(total(n, shift) == out_shift);
    let before = apart(rows, part);
    let after = apart(rows, moved);
    let middle = |u: int| before(u) + shift(u);
    lemma_total_plus(n, before, shift, middle);
    assert forall|u: int| 0 <= u < n && u != v implies #[trigger] after(u) == middle(u) by {
        let h = apart_term(rows, part, u);
        let k = apart_term(rows, moved, u);
        assert forall|x: int| 0 <= x < n && x != v implies #[trigger] h(x) == k(x) by {}
        lemma_total_change(n, v, h, k);
        assert(between(rows, u, v) == between(rows, v, u));
    }
    assert forall|u: int| 0 <= u < n && u != v implies #[trigger] middle(u) == after(u) by {
        assert(after(u) == middle(u));
    }
    lemma_total_change(n, v, middle, after);
    assert(shift(v) == 0);
    assert(after(v) - before(v) == out_shift);
    assert(double_cut(rows, moved) == double_cut(rows, part) + 2 * out_shift);
    law_cut_counts_edges_once(rows, part);
    law_cut_counts_edges_once(rows, moved);
}

/// The gain of a vertex is what the edge cut loses when the vertex alone moves
/// to its destination. This holds of vertices whose edges to themselves weigh
/// nothing.
pub proof fn law_gain_is_drop_of_cut(
    rows: Adjacency,
    part: Seq<usize>,
    c: Seq<Map<usize, i64>>,
    locked: Set<usize>,
    v: int,
)
    requires
        in_range(rows),
        symmetric(rows),
        rows.len() <= part.len(),
        0 <= v < rows.len(),
        between(rows, v, v) == 0,
        forall|p: usize| #[trigger] strength(c, v, p) == link(rows, part, v, p),
    ensures
        cut(rows, part.update(v, destination(rows, part, c, locked, v))) == cut(rows, part) - gain(
            rows,
            part,
            c,
            locked,
            v,
        ),
{
    let p = destination(rows, part, c, locked, v);
    law_move_changes_cut(rows, part, v, p);
    assert(strength(c, v, p) == link(rows, part, v, p));
    assert(strength(c, v, part[v]) == link(rows, part, v, part[v]));
}

/// The loss of a vertex is what the edge cut gains when the vertex alone moves
/// to its refuge. This holds of vertices whose edges to themselves weigh
/// nothing.
pub proof fn law_loss_is_growth_of_cut(
    rows: Adjacency,
    part: Seq<usize>,
    weights: Seq<Double>,
    c: Seq<Map<usize, i64>>,
    load: Load,
    picks: Seq<usize>,
    v: int,
)
    requires
        in_range(rows),
        symmetric(rows),
        rows.len() <= part.len(),
        0 <= v < rows.len(),
        between(rows, v, v) == 0,
        forall|p: usize| #[trigger] strength(c, v, p) == link(rows, part, v, p),
    ensures
        cut(rows, part.update(v, refuge(rows, part, weights, c, load, picks, v))) == cut(rows, part)
            + loss(rows, part, weights, c, load, picks, v),
{
    let p = refuge(rows, part, weights, c, load, picks, v);
    law_move_changes_cut(rows, part, v, p);
    assert(strength(c, v, p) == link(rows, part, v, p));
    assert(strength(c, v, part[v]) == link(rows, part, v, part[v]));
}

/// The partition in which vertex `v` takes its turn: the listed vertices placed
/// before it have moved.
pub open spec fn partition_met(
    part: Seq<usize>,
    dest: Seq<usize>,
    gain: Seq<i64>,
    list: Seq<usize>,
    v: usize,
) -> Seq<usize> {
    Seq::new(
        part.len(),
        |u: int|
            if u == v {
                part[u]
            } else {
                met(part, dest, gain, list, u as usize, v)
            },
    )
}

/// The second gain of a vertex that leaves its part is what the edge cut loses
/// when the vertex moves after those placed before it. This holds of vertices
/// whose edges to themselves weigh nothing.
pub proof fn law_second_gain_is_drop_of_cut(
    rows: Adjacency,
    part: Seq<usize>,
    dest: Seq<usize>,
    gain: Seq<i64>,
    list: Seq<usize>,
    v: usize,
)
    requires
        in_range(rows),
        symmetric(rows),
        rows.len() <= part.len(),
        rows.len() <= usize::MAX,
        v < rows.len(),
        between(rows, v as int, v as int) == 0,
        dest[v as int] != part[v as int],
    ensures
        cut(rows, partition_met(part, dest, gain, list, v).update(v as int, dest[v as int])) == cut(
            rows,
            partition_met(part, dest, gain, list, v),
        ) - total(
            rows[v as int].len() as int,
            regain_term(rows[v as int], part, dest, gain, list, v),
        ),
{
    let now = partition_met(part, dest, gain, list, v);
    let row = rows[v as int];
    law_move_changes_cut(rows, now, v as int, dest[v as int]);
    let there = link_term(rows, now, v as int, dest[v as int]);
    let here = link_term(rows, now, v as int, part[v as int]);
    let again = regain_term(row, part, dest, gain, list, v);
    assert forall|k: int| 0 <= k < row.len() implies #[trigger] there(k) == again(k) + here(k) by {
        assert(rows[v as int][k].0 < rows.len());
        assert(now[row[k].0 as int] == met(part, dest, gain, list, row[k].0, v));
    }
    lemma_total_plus(row.len() as int, again, here, there);
}

} // verus!
